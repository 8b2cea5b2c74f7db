//! Character classes and text transformations shared by the line source and
//! the field extractor: trimming, comment stripping, and line splitting.

use vstd::prelude::*;

verus! {

/// ASCII whitespace, the set trimmed from line ends and field edges.
pub open spec fn is_ascii_ws(c: char) -> bool {
    c == ' ' || c == '\t' || c == '\n' || c == '\r' || c == '\u{b}' || c == '\u{c}'
}

/// Printable ASCII, the only characters a cleaned line may hold.
pub open spec fn is_printable(c: char) -> bool {
    ' ' <= c && c <= '~'
}

pub open spec fn all_printable(s: Seq<char>) -> bool {
    forall|i: int| 0 <= i < s.len() ==> is_printable(#[trigger] s[i])
}

/// `s` with trailing ASCII whitespace removed.
pub open spec fn trim_end_of(s: Seq<char>) -> Seq<char>
    decreases s.len(),
{
    if s.len() > 0 && is_ascii_ws(s.last()) {
        trim_end_of(s.drop_last())
    } else {
        s
    }
}

/// `s` with leading ASCII whitespace removed.
pub open spec fn trim_start_of(s: Seq<char>) -> Seq<char>
    decreases s.len(),
{
    if s.len() > 0 && is_ascii_ws(s.first()) {
        trim_start_of(s.skip(1))
    } else {
        s
    }
}

/// `s` with whitespace removed from both ends.
pub open spec fn trim_of(s: Seq<char>) -> Seq<char> {
    trim_start_of(trim_end_of(s))
}

/// The least index `>= i` where `c` occurs in `s`, or `s.len()` if none.
pub open spec fn find_from(s: Seq<char>, c: char, i: int) -> int
    decreases s.len() - i,
{
    if i < 0 || i >= s.len() {
        s.len() as int
    } else if s[i] == c {
        i
    } else {
        find_from(s, c, i + 1)
    }
}

/// A raw line after comment stripping (everything from the first `*` on is
/// dropped) and removal of trailing whitespace.
pub open spec fn clean_of(raw: Seq<char>) -> Seq<char> {
    trim_end_of(raw.take(find_from(raw, '*', 0)))
}

pub proof fn lemma_find_from(s: Seq<char>, c: char, i: int)
    requires
        0 <= i <= s.len(),
    ensures
        i <= find_from(s, c, i) <= s.len(),
        find_from(s, c, i) < s.len() ==> s[find_from(s, c, i)] == c,
        forall|j: int| i <= j < find_from(s, c, i) ==> s[j] != c,
    decreases s.len() - i,
{
    if i < s.len() && s[i] != c {
        lemma_find_from(s, c, i + 1);
    }
}

/// The result of trimming is a subrange of the input.
pub proof fn lemma_trim_end_take(s: Seq<char>)
    ensures
        exists|hi: int|
            0 <= hi <= s.len() && trim_end_of(s) == s.take(hi),
    decreases s.len(),
{
    if s.len() > 0 && is_ascii_ws(s.last()) {
        lemma_trim_end_take(s.drop_last());
        let hi = choose|hi: int|
            0 <= hi <= s.drop_last().len() && trim_end_of(s.drop_last()) == s.drop_last().take(hi);
        assert(s.drop_last().take(hi) =~= s.take(hi));
    } else {
        assert(s.take(s.len() as int) =~= s);
    }
}

pub fn is_ws_char(c: char) -> (r: bool)
    ensures
        r == is_ascii_ws(c),
{
    c == ' ' || c == '\t' || c == '\n' || c == '\r' || c == '\u{b}' || c == '\u{c}'
}

pub fn is_printable_char(c: char) -> (r: bool)
    ensures
        r == is_printable(c),
{
    ' ' <= c && c <= '~'
}

/// Whether every character of `s` is printable ASCII.
pub fn all_printable_str(s: &str) -> (r: bool)
    ensures
        r == all_printable(s@),
{
    let n = s.unicode_len();
    let mut i: usize = 0;
    while i < n
        invariant
            i <= n,
            n == s@.len(),
            forall|j: int| 0 <= j < i ==> is_printable(#[trigger] s@[j]),
        decreases n - i,
    {
        if !is_printable_char(s.get_char(i)) {
            return false;
        }
        i += 1;
    }
    true
}

/// Character-wise equality of two strings.
pub fn str_eq(a: &str, b: &str) -> (r: bool)
    ensures
        r == (a@ == b@),
{
    let n = a.unicode_len();
    if n != b.unicode_len() {
        return false;
    }
    let mut i: usize = 0;
    while i < n
        invariant
            i <= n,
            n == a@.len(),
            n == b@.len(),
            forall|j: int| 0 <= j < i ==> a@[j] == b@[j],
        decreases n - i,
    {
        if a.get_char(i) != b.get_char(i) {
            return false;
        }
        i += 1;
    }
    proof {
        assert(a@ =~= b@);
    }
    true
}

/// The least index `>= from` where `c` occurs in `s`, or `s` length if none.
pub fn find_char_from(s: &str, c: char, from: usize) -> (r: usize)
    requires
        from <= s@.len(),
    ensures
        r == find_from(s@, c, from as int),
        from <= r <= s@.len(),
        r < s@.len() ==> s@[r as int] == c,
    decreases s@.len() - from,
{
    proof {
        lemma_find_from(s@, c, from as int);
    }
    let n = s.unicode_len();
    let mut i: usize = from;
    while i < n
        invariant
            from <= i <= n,
            n == s@.len(),
            find_from(s@, c, from as int) == find_from(s@, c, i as int),
        decreases n - i,
    {
        if s.get_char(i) == c {
            return i;
        }
        i += 1;
    }
    n
}

/// The end of `s.take(limit)` once trailing whitespace is dropped:
/// `trim_end_of(s.take(limit)) == s.take(result)`.
pub fn trim_end_idx(s: &str, limit: usize) -> (hi: usize)
    requires
        limit <= s@.len(),
    ensures
        hi <= limit,
        trim_end_of(s@.take(limit as int)) == s@.take(hi as int),
        hi > 0 ==> !is_ascii_ws(s@[hi - 1]),
{
    let mut hi: usize = limit;
    loop
        invariant
            hi <= limit <= s@.len(),
            trim_end_of(s@.take(limit as int)) == trim_end_of(s@.take(hi as int)),
        decreases hi,
    {
        if hi == 0 {
            proof {
                assert(s@.take(0) =~= Seq::<char>::empty());
            }
            return 0;
        }
        let c = s.get_char(hi - 1);
        proof {
            assert(s@.take(hi as int).last() == s@[hi - 1]);
            assert(s@.take(hi as int).drop_last() =~= s@.take(hi - 1));
        }
        if !is_ws_char(c) {
            return hi;
        }
        hi -= 1;
    }
}

/// The start of `s.take(hi)` once leading whitespace is dropped:
/// `trim_start_of(s.take(hi)) == s.subrange(result, hi)`.
pub fn trim_start_idx(s: &str, hi: usize) -> (lo: usize)
    requires
        hi <= s@.len(),
    ensures
        lo <= hi,
        trim_start_of(s@.take(hi as int)) == s@.subrange(lo as int, hi as int),
{
    let mut lo: usize = 0;
    proof {
        assert(s@.take(hi as int) =~= s@.subrange(0, hi as int));
    }
    loop
        invariant
            lo <= hi <= s@.len(),
            trim_start_of(s@.take(hi as int)) == trim_start_of(s@.subrange(lo as int, hi as int)),
        decreases hi - lo,
    {
        if lo == hi {
            proof {
                assert(s@.subrange(lo as int, hi as int) =~= Seq::<char>::empty());
            }
            return lo;
        }
        let c = s.get_char(lo);
        proof {
            assert(s@.subrange(lo as int, hi as int).first() == s@[lo as int]);
            assert(s@.subrange(lo as int, hi as int).skip(1) =~= s@.subrange(lo + 1, hi as int));
        }
        if !is_ws_char(c) {
            return lo;
        }
        lo += 1;
    }
}

/// `s` with whitespace trimmed from both ends, as an owned string.
pub fn trim_str(s: &str) -> (r: String)
    ensures
        r@ == trim_of(s@),
{
    let n = s.unicode_len();
    let hi = trim_end_idx(s, n);
    let lo = trim_start_idx(s, hi);
    proof {
        assert(s@.take(n as int) =~= s@);
        assert(trim_end_of(s@).take(hi as int) =~= s@.take(hi as int));
    }
    let sub = s.substring_char(lo, hi);
    String::from_str(sub)
}

/// A raw line after comment stripping and trailing-whitespace removal.
pub fn clean_str(raw: &str) -> (r: String)
    ensures
        r@ == clean_of(raw@),
{
    let star = find_char_from(raw, '*', 0);
    let hi = trim_end_idx(raw, star);
    let sub = raw.substring_char(0, hi);
    proof {
        assert(raw@.subrange(0, hi as int) =~= raw@.take(hi as int));
    }
    String::from_str(sub)
}

} // verus!
