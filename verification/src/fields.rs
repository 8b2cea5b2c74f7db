//! The fixed-column field extractor.  Every data line, whatever the section,
//! is sliced into six positional fields at fixed character columns, each
//! trimmed of surrounding whitespace; a field whose columns lie beyond the
//! line's end is empty.

use vstd::prelude::*;
use crate::text::trim_of;
use crate::text::trim_str;

verus! {

/// The six positional fields of one line.
pub ghost struct SixFields {
    pub f1: Seq<char>,
    pub f2: Seq<char>,
    pub f3: Seq<char>,
    pub f4: Seq<char>,
    pub f5: Seq<char>,
    pub f6: Seq<char>,
}

/// The slice of `s` between `a` and `b`, clipped to the length of `s`.
pub open spec fn clip(s: Seq<char>, a: int, b: int) -> Seq<char> {
    let lo = if a < s.len() {
        a
    } else {
        s.len() as int
    };
    let hi = if b < s.len() {
        b
    } else {
        s.len() as int
    };
    s.subrange(lo, hi)
}

/// The fixed column ranges (0-based, exclusive of the end): field 1 lies in
/// columns 2-3 of the 1-based layout, field 2 in 5-12, field 3 in 15-22,
/// field 4 in 25-36, field 5 in 40-47 and field 6 in 50-61.
#[verifier::opaque]
pub open spec fn fields_of(s: Seq<char>) -> SixFields {
    SixFields {
        f1: trim_of(clip(s, 1, 3)),
        f2: trim_of(clip(s, 4, 12)),
        f3: trim_of(clip(s, 14, 22)),
        f4: trim_of(clip(s, 24, 36)),
        f5: trim_of(clip(s, 39, 47)),
        f6: trim_of(clip(s, 49, 61)),
    }
}

/// One clipped, trimmed field of `s`.
pub fn extract_field(s: &str, a: usize, b: usize) -> (r: String)
    requires
        a <= b,
    ensures
        r@ == trim_of(clip(s@, a as int, b as int)),
{
    let n = s.unicode_len();
    let lo = if a < n {
        a
    } else {
        n
    };
    let hi = if b < n {
        b
    } else {
        n
    };
    let sub = s.substring_char(lo, hi);
    trim_str(sub)
}

} // verus!
