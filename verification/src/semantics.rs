//! The meaning of a parse, as a specification-level interpreter over the raw
//! line sequence.  `g_run` walks the lines one at a time: blank-after-
//! cleaning lines are skipped, encoding and I/O failures abort, and every
//! other cleaned line is handed to `g_step`, which interprets it under the
//! current section.  Every executable parsing function is proved to agree
//! with this interpreter.

use vstd::prelude::*;
use crate::error::ErrView;
use crate::error::Section;
use crate::fields::fields_of;
use crate::fields::clip;
use crate::model::ModelState;
use crate::model::RowType;
use crate::model::Tab;
use crate::numtext::is_float_literal;
use crate::text::all_printable;
use crate::text::clean_of;
use crate::text::trim_of;

verus! {

/// The raw line stream: each element is a text line or an I/O failure
/// carrying its message.
pub type Lines = Seq<Result<Seq<char>, Seq<char>>>;

/// The stream a vector of owned lines stands for.
pub open spec fn view_lines(v: Seq<Result<String, String>>) -> Lines {
    v.map_values(
        |r: Result<String, String>|
            match r {
                Ok(s) => Ok(s@),
                Err(m) => Err(m@),
            },
    )
}

/// What reading one cleaned line from position `pos` yields.
pub ghost enum LineRead {
    /// The stream is exhausted.
    End,
    /// An I/O failure with its message.
    Io(Seq<char>),
    /// A line not printable ASCII after cleaning; carries the raw line.
    Enc(Seq<char>),
    /// The next cleaned line.
    Line(Seq<char>),
}

/// The next cleaned line at or after `pos`: blank-after-cleaning lines are
/// skipped wherever they occur.
pub open spec fn g_read(lines: Lines, pos: int) -> LineRead
    decreases lines.len() - pos,
{
    if pos < 0 || pos >= lines.len() {
        LineRead::End
    } else {
        match lines[pos] {
            Err(m) => LineRead::Io(m),
            Ok(raw) => {
                let c = clean_of(raw);
                if c.len() == 0 {
                    g_read(lines, pos + 1)
                } else if !all_printable(c) {
                    LineRead::Enc(raw)
                } else {
                    LineRead::Line(c)
                }
            },
        }
    }
}

/// The position after reading one cleaned line from `pos`.
pub open spec fn g_after(lines: Lines, pos: int) -> int
    decreases lines.len() - pos,
{
    if pos < 0 || pos >= lines.len() {
        lines.len() as int
    } else {
        match lines[pos] {
            Err(_) => pos + 1,
            Ok(raw) => {
                if clean_of(raw).len() == 0 {
                    g_after(lines, pos + 1)
                } else {
                    pos + 1
                }
            },
        }
    }
}

pub proof fn lemma_g_after_bounds(lines: Lines, pos: int)
    requires
        0 <= pos,
    ensures
        pos <= g_after(lines, pos) <= lines.len() || g_after(lines, pos) == lines.len(),
        g_after(lines, pos) <= lines.len(),
        pos < lines.len() ==> pos < g_after(lines, pos),
    decreases lines.len() - pos,
{
    if 0 <= pos && pos < lines.len() {
        match lines[pos] {
            Err(_) => {},
            Ok(raw) => {
                if clean_of(raw).len() == 0 {
                    lemma_g_after_bounds(lines, pos + 1);
                }
            },
        }
    }
}

/// Where the section dispatcher stands.
pub ghost enum Mode {
    /// Before the NAME line.
    AwaitName,
    /// After the NAME line, expecting the first section header.
    AwaitHeader,
    /// Inside ROWS.
    InRows,
    /// Inside COLUMNS.
    InColumns,
    /// Inside RHS.
    InRhs,
}

/// The error when the stream ends in a given mode: a section or the NAME
/// line was not closed by a following header.
pub open spec fn end_error(m: Mode) -> ErrView {
    match m {
        Mode::AwaitName => ErrView::MissingNameLine,
        Mode::AwaitHeader => ErrView::UnexpectedEnd(Section::Rows),
        Mode::InRows => ErrView::UnexpectedEnd(Section::Rows),
        Mode::InColumns => ErrView::UnexpectedEnd(Section::Columns),
        Mode::InRhs => ErrView::UnexpectedEnd(Section::Rhs),
    }
}

/// The NAME line must open with `NAME` and exactly ten spaces.
pub open spec fn name_prefix_ok(s: Seq<char>) -> bool {
    &&& s.len() >= 14
    &&& s[0] == 'N'
    &&& s[1] == 'A'
    &&& s[2] == 'M'
    &&& s[3] == 'E'
    &&& forall|i: int| 4 <= i < 14 ==> s[i] == ' '
}

/// Whether an objective row has been recorded yet in this parse.
pub open spec fn has_objective(rows: Seq<crate::model::Row>) -> bool {
    exists|i: int| 0 <= i < rows.len() && (#[trigger] rows[i]).typ == RowType::Objective
}

/// The row kind a type code stands for; the first `N` code of the whole
/// parse is the objective, every later one a free row.
pub open spec fn row_kind(code: Seq<char>, found: bool) -> Option<RowType> {
    if code == "N"@ {
        if found {
            Some(RowType::NoRestriction)
        } else {
            Some(RowType::Objective)
        }
    } else if code == "L"@ {
        Some(RowType::Le)
    } else if code == "G"@ {
        Some(RowType::Ge)
    } else if code == "E"@ {
        Some(RowType::Eq)
    } else {
        None
    }
}

/// The first position holding key `k` in a table, or -1.
pub open spec fn tab_find(t: Tab, k: Seq<char>) -> int
    decreases t.len(),
{
    if t.len() == 0 {
        -1
    } else if t[0].0 == k {
        0
    } else {
        let r = tab_find(t.skip(1), k);
        if r < 0 {
            -1
        } else {
            1 + r
        }
    }
}

pub open spec fn tab_has(t: Tab, k: Seq<char>) -> bool {
    tab_find(t, k) >= 0
}

pub proof fn lemma_tab_find(t: Tab, k: Seq<char>)
    ensures
        -1 <= tab_find(t, k) < t.len(),
        tab_find(t, k) >= 0 ==> t[tab_find(t, k)].0 == k,
        forall|m: int| 0 <= m < tab_find(t, k) ==> (#[trigger] t[m]).0 != k,
        tab_find(t, k) == -1 ==> forall|m: int| 0 <= m < t.len() ==> (#[trigger] t[m]).0 != k,
    decreases t.len(),
{
    reveal_with_fuel(tab_find, 2);
    if t.len() > 0 && t[0].0 != k {
        lemma_tab_find(t.skip(1), k);
        assert forall|m: int| 0 <= m < tab_find(t, k) implies (#[trigger] t[m]).0 != k by {
            if m > 0 {
                assert(t.skip(1)[m - 1] == t[m]);
            }
        }
        if tab_find(t, k) == -1 {
            assert forall|m: int| 0 <= m < t.len() implies (#[trigger] t[m]).0 != k by {
                if m > 0 {
                    assert(t.skip(1)[m - 1] == t[m]);
                }
            }
        }
    }
}

/// A table whose keys match position by position has the same find.
pub proof fn lemma_tab_find_same_keys(t1: Tab, t2: Tab, k: Seq<char>)
    requires
        t1.len() == t2.len(),
        forall|m: int| 0 <= m < t1.len() ==> (#[trigger] t1[m]).0 == (#[trigger] t2[m]).0,
    ensures
        tab_find(t1, k) == tab_find(t2, k),
    decreases t1.len(),
{
    reveal_with_fuel(tab_find, 2);
    if t1.len() > 0 && t1[0].0 != k {
        lemma_tab_find_same_keys(t1.skip(1), t2.skip(1), k);
        assert(forall|m: int| 0 <= m < t1.skip(1).len() ==> t1.skip(1)[m] == t1[m + 1]);
        assert(forall|m: int| 0 <= m < t2.skip(1).len() ==> t2.skip(1)[m] == t2[m + 1]);
    }
}

/// The table with `k` present: unchanged when it already holds `k`, else with
/// an empty map for `k` appended (first appearance fixes the order).
pub open spec fn tab_ensure(t: Tab, k: Seq<char>) -> Tab {
    if tab_has(t, k) {
        t
    } else {
        t.push((k, Map::empty()))
    }
}

/// One coefficient added to the vector held under `k`, overwriting any
/// earlier value at the same row index.
pub open spec fn tab_put(t: Tab, k: Seq<char>, row: int, val: Seq<char>) -> Tab {
    let i = tab_find(t, k);
    t.update(i, (k, t[i].1.insert(row, val)))
}

/// One (row name, value text) pair of a data line: an empty row name is
/// skipped; an undeclared row name or a malformed value aborts.
pub open spec fn g_pair(
    t: Tab,
    by_id: Map<Seq<char>, int>,
    sec: Section,
    key: Seq<char>,
    rid: Seq<char>,
    val: Seq<char>,
) -> Result<Tab, ErrView> {
    if rid.len() == 0 {
        Ok(t)
    } else if !by_id.contains_key(rid) {
        Err(ErrView::UnknownRowReference(sec, rid))
    } else if !is_float_literal(val) {
        Err(ErrView::NumberFormat(sec, val))
    } else {
        Ok(tab_put(t, key, by_id[rid], val))
    }
}

/// One COLUMNS or RHS data line: ensure the entry named by field 2 exists,
/// then add the two (row, value) pairs of fields 3-4 and 5-6.
pub open spec fn g_tab_line(
    t: Tab,
    by_id: Map<Seq<char>, int>,
    sec: Section,
    c: Seq<char>,
) -> Result<Tab, ErrView> {
    let f = fields_of(c);
    let t1 = tab_ensure(t, f.f2);
    match g_pair(t1, by_id, sec, f.f2, f.f3, f.f4) {
        Err(e) => Err(e),
        Ok(t2) => g_pair(t2, by_id, sec, f.f2, f.f5, f.f6),
    }
}

/// The outcome of the rest of the parse, from position `pos` in mode `m`
/// with the model built so far.
#[verifier::opaque]
pub open spec fn g_run(lines: Lines, pos: int, m: Mode, st: ModelState) -> Result<
    ModelState,
    ErrView,
>
    decreases lines.len() - pos, 0int,
{
    if pos < 0 || pos >= lines.len() {
        Err(end_error(m))
    } else {
        match lines[pos] {
            Err(msg) => Err(ErrView::Io(msg)),
            Ok(raw) => {
                let c = clean_of(raw);
                if c.len() == 0 {
                    g_run(lines, pos + 1, m, st)
                } else if !all_printable(c) {
                    Err(ErrView::Encoding(raw))
                } else {
                    g_step(lines, pos + 1, c, m, st)
                }
            },
        }
    }
}

/// A header line dispatched against the section keywords.  A keyword enters
/// its section; any other header — BOUNDS's empty pseudo-header, `ENDATA`,
/// or unknown text — ends the parse with the model built so far.
pub open spec fn g_header(lines: Lines, next: int, h: Seq<char>, st: ModelState) -> Result<
    ModelState,
    ErrView,
>
    decreases lines.len() - next, 1int,
{
    if h == "ROWS"@ {
        g_run(lines, next, Mode::InRows, st)
    } else if h == "COLUMNS"@ {
        g_run(lines, next, Mode::InColumns, st)
    } else if h == "RHS"@ {
        g_run(lines, next, Mode::InRhs, st)
    } else {
        Ok(st)
    }
}

/// One cleaned line interpreted in mode `m`; `next` is the position after it.
pub open spec fn g_step(lines: Lines, next: int, c: Seq<char>, m: Mode, st: ModelState) -> Result<
    ModelState,
    ErrView,
>
    decreases lines.len() - next, 2int,
{
    match m {
        Mode::AwaitName => {
            if !name_prefix_ok(c) {
                Err(ErrView::Format)
            } else {
                let nm = trim_of(clip(c, 14, 29));
                if nm.len() == 0 {
                    Err(ErrView::EmptyName)
                } else {
                    g_run(lines, next, Mode::AwaitHeader, ModelState { name: nm, ..st })
                }
            }
        },
        Mode::AwaitHeader => {
            if c == "ROWS"@ {
                g_run(lines, next, Mode::InRows, st)
            } else if c == "COLUMNS"@ {
                g_run(lines, next, Mode::InColumns, st)
            } else if c == "RHS"@ {
                g_run(lines, next, Mode::InRhs, st)
            } else {
                Ok(st)
            }
        },
        Mode::InRows => {
            if c[0] != ' ' {
                if c == "ROWS"@ {
                    g_run(lines, next, Mode::InRows, st)
                } else if c == "COLUMNS"@ {
                    g_run(lines, next, Mode::InColumns, st)
                } else if c == "RHS"@ {
                    g_run(lines, next, Mode::InRhs, st)
                } else {
                    Ok(st)
                }
            } else {
                let f = fields_of(c);
                match row_kind(f.f1, has_objective(st.rows)) {
                    None => Err(ErrView::UnexpectedLine(Section::Rows, c)),
                    Some(typ) => g_run(lines, next, Mode::InRows, st.add_row(f.f2, typ)),
                }
            }
        },
        Mode::InColumns => {
            if c[0] != ' ' {
                if c == "ROWS"@ {
                    g_run(lines, next, Mode::InRows, st)
                } else if c == "COLUMNS"@ {
                    g_run(lines, next, Mode::InColumns, st)
                } else if c == "RHS"@ {
                    g_run(lines, next, Mode::InRhs, st)
                } else {
                    Ok(st)
                }
            } else {
                match g_tab_line(st.cols, st.by_id, Section::Columns, c) {
                    Err(e) => Err(e),
                    Ok(t2) => g_run(lines, next, Mode::InColumns, ModelState { cols: t2, ..st }),
                }
            }
        },
        Mode::InRhs => {
            if c[0] != ' ' {
                if c == "ROWS"@ {
                    g_run(lines, next, Mode::InRows, st)
                } else if c == "COLUMNS"@ {
                    g_run(lines, next, Mode::InColumns, st)
                } else if c == "RHS"@ {
                    g_run(lines, next, Mode::InRhs, st)
                } else {
                    Ok(st)
                }
            } else {
                match g_tab_line(st.rhs, st.by_id, Section::Rhs, c) {
                    Err(e) => Err(e),
                    Ok(t2) => g_run(lines, next, Mode::InRhs, ModelState { rhs: t2, ..st }),
                }
            }
        },
    }
}

/// The meaning of a whole parse from position `pos`.
pub open spec fn spec_parse(lines: Lines, pos: int) -> Result<ModelState, ErrView> {
    g_run(lines, pos, Mode::AwaitName, ModelState::init())
}

/// In every non-name mode a header line is dispatched alike.
pub proof fn lemma_step_header(lines: Lines, next: int, c: Seq<char>, m: Mode, st: ModelState)
    requires
        m != Mode::AwaitName,
        m is AwaitHeader || (c.len() > 0 && c[0] != ' '),
    ensures
        g_step(lines, next, c, m, st) == g_header(lines, next, c, st),
{
    reveal_with_fuel(g_step, 2);
    reveal_with_fuel(g_run, 1);
    match m {
        Mode::AwaitName => {},
        Mode::AwaitHeader => {
            assert(g_step(lines, next, c, m, st) == g_header(lines, next, c, st));
        },
        Mode::InRows => {
            assert(g_step(lines, next, c, m, st) == g_header(lines, next, c, st));
        },
        Mode::InColumns => {
            assert(g_step(lines, next, c, m, st) == g_header(lines, next, c, st));
        },
        Mode::InRhs => {
            assert(g_step(lines, next, c, m, st) == g_header(lines, next, c, st));
        },
    }
}

/// What each header text leads to: a keyword enters its section, anything
/// else ends the parse with the model built so far.
pub proof fn lemma_header(lines: Lines, next: int, h: Seq<char>, st: ModelState)
    ensures
        h == "ROWS"@ ==> g_header(lines, next, h, st) == g_run(
            lines,
            next,
            Mode::InRows,
            st,
        ),
        h == "COLUMNS"@ ==> g_header(lines, next, h, st) == g_run(lines, next, Mode::InColumns, st),
        h == "RHS"@ ==> g_header(lines, next, h, st) == g_run(lines, next, Mode::InRhs, st),
        h != "ROWS"@ && h != "COLUMNS"@ && h != "RHS"@ ==> g_header(lines, next, h, st) == Ok::<
            ModelState,
            ErrView,
        >(st),
{
    reveal_strlit("ROWS");
    reveal_strlit("COLUMNS");
    reveal_strlit("RHS");
    assert("ROWS"@.len() == 4 && "COLUMNS"@.len() == 7 && "RHS"@.len() == 3);
    if h == "COLUMNS"@ {
        assert(h != "ROWS"@);
        assert(g_header(lines, next, h, st) == g_run(lines, next, Mode::InColumns, st));
    } else if h == "RHS"@ {
        assert(h != "ROWS"@ && h != "COLUMNS"@);
        assert(g_header(lines, next, h, st) == g_run(lines, next, Mode::InRhs, st));
    }
}

/// The NAME line: a bad prefix or a blank name field fails, else the name is
/// recorded and the parse awaits the first header.
pub proof fn lemma_step_name(lines: Lines, next: int, c: Seq<char>, st: ModelState)
    ensures
        !name_prefix_ok(c) ==> g_step(lines, next, c, Mode::AwaitName, st) == Err::<
            ModelState,
            ErrView,
        >(ErrView::Format),
        name_prefix_ok(c) && trim_of(clip(c, 14, 29)).len() == 0 ==> g_step(
            lines,
            next,
            c,
            Mode::AwaitName,
            st,
        ) == Err::<ModelState, ErrView>(ErrView::EmptyName),
        name_prefix_ok(c) && trim_of(clip(c, 14, 29)).len() > 0 ==> g_step(
            lines,
            next,
            c,
            Mode::AwaitName,
            st,
        ) == g_run(
            lines,
            next,
            Mode::AwaitHeader,
            ModelState { name: trim_of(clip(c, 14, 29)), ..st },
        ),
{
    reveal_with_fuel(g_step, 2);
    reveal_with_fuel(g_run, 1);
    if name_prefix_ok(c) && trim_of(clip(c, 14, 29)).len() > 0 {
        assert(g_step(lines, next, c, Mode::AwaitName, st) == g_run(
            lines,
            next,
            Mode::AwaitHeader,
            ModelState { name: trim_of(clip(c, 14, 29)), ..st },
        ));
    }
}

/// A COLUMNS or RHS data line extends the section's table or fails as
/// `g_tab_line` says.
pub proof fn lemma_step_tab(lines: Lines, next: int, c: Seq<char>, m: Mode, st: ModelState)
    requires
        c.len() > 0,
        c[0] == ' ',
        m is InColumns || m is InRhs,
    ensures
        m is InColumns ==> g_step(lines, next, c, m, st) == (match g_tab_line(
            st.cols,
            st.by_id,
            Section::Columns,
            c,
        ) {
            Err(e) => Err::<ModelState, ErrView>(e),
            Ok(t2) => g_run(lines, next, Mode::InColumns, ModelState { cols: t2, ..st }),
        }),
        m is InRhs ==> g_step(lines, next, c, m, st) == (match g_tab_line(
            st.rhs,
            st.by_id,
            Section::Rhs,
            c,
        ) {
            Err(e) => Err::<ModelState, ErrView>(e),
            Ok(t2) => g_run(lines, next, Mode::InRhs, ModelState { rhs: t2, ..st }),
        }),
{
    reveal_with_fuel(g_step, 2);
    reveal_with_fuel(g_run, 1);
    match m {
        Mode::InColumns => {
            match g_tab_line(st.cols, st.by_id, Section::Columns, c) {
                Err(e) => {
                    assert(g_step(lines, next, c, m, st) == Err::<ModelState, ErrView>(e));
                },
                Ok(t2) => {
                    assert(g_step(lines, next, c, m, st) == g_run(
                        lines,
                        next,
                        Mode::InColumns,
                        ModelState { cols: t2, ..st },
                    ));
                },
            }
        },
        Mode::InRhs => {
            match g_tab_line(st.rhs, st.by_id, Section::Rhs, c) {
                Err(e) => {
                    assert(g_step(lines, next, c, m, st) == Err::<ModelState, ErrView>(e));
                },
                Ok(t2) => {
                    assert(g_step(lines, next, c, m, st) == g_run(
                        lines,
                        next,
                        Mode::InRhs,
                        ModelState { rhs: t2, ..st },
                    ));
                },
            }
        },
        _ => {},
    }
}

/// A ROWS data line either declares the row its type code names or fails on
/// an unknown code.
pub proof fn lemma_step_rows(lines: Lines, next: int, c: Seq<char>, st: ModelState)
    requires
        c.len() > 0,
        c[0] == ' ',
    ensures
        match row_kind(fields_of(c).f1, has_objective(st.rows)) {
            None => g_step(lines, next, c, Mode::InRows, st) == Err::<ModelState, ErrView>(
                ErrView::UnexpectedLine(Section::Rows, c),
            ),
            Some(typ) => g_step(lines, next, c, Mode::InRows, st) == g_run(
                lines,
                next,
                Mode::InRows,
                st.add_row(fields_of(c).f2, typ),
            ),
        },
{
    reveal_with_fuel(g_step, 2);
    reveal_with_fuel(g_run, 1);
    match row_kind(fields_of(c).f1, has_objective(st.rows)) {
        None => {
            assert(g_step(lines, next, c, Mode::InRows, st) == Err::<ModelState, ErrView>(
                ErrView::UnexpectedLine(Section::Rows, c),
            ));
        },
        Some(typ) => {
            assert(g_step(lines, next, c, Mode::InRows, st) == g_run(
                lines,
                next,
                Mode::InRows,
                st.add_row(fields_of(c).f2, typ),
            ));
        },
    }
}

/// Appending a row records an objective exactly when one was already there
/// or the new row is the objective.
pub proof fn lemma_has_objective_push(rows: Seq<crate::model::Row>, row: crate::model::Row)
    ensures
        has_objective(rows.push(row)) == (has_objective(rows) || row.typ == RowType::Objective),
{
    let r2 = rows.push(row);
    if has_objective(rows) {
        let i = choose|i: int| 0 <= i < rows.len() && (#[trigger] rows[i]).typ == RowType::Objective;
        assert(r2[i].typ == RowType::Objective);
    }
    if row.typ == RowType::Objective {
        assert(r2[r2.len() - 1].typ == RowType::Objective);
    }
    if has_objective(r2) && !(has_objective(rows) || row.typ == RowType::Objective) {
        let i = choose|i: int| 0 <= i < r2.len() && (#[trigger] r2[i]).typ == RowType::Objective;
        if i < rows.len() {
            assert(rows[i].typ == RowType::Objective);
        }
        assert(false);
    }
}

/// Unfolding `g_run` through the skipped lines: it acts on what `g_read`
/// yields, from where `g_after` stands.
pub proof fn lemma_run_read(lines: Lines, pos: int, m: Mode, st: ModelState)
    requires
        0 <= pos,
    ensures
        g_run(lines, pos, m, st) == match g_read(lines, pos) {
            LineRead::End => Err::<ModelState, ErrView>(end_error(m)),
            LineRead::Io(msg) => Err(ErrView::Io(msg)),
            LineRead::Enc(raw) => Err(ErrView::Encoding(raw)),
            LineRead::Line(c) => g_step(lines, g_after(lines, pos), c, m, st),
        },
    decreases lines.len() - pos,
{
    reveal_with_fuel(g_run, 2);
    if pos >= lines.len() {
        assert(g_run(lines, pos, m, st) == Err::<ModelState, ErrView>(end_error(m)));
    } else {
        match lines[pos] {
            Err(msg) => {
                assert(g_run(lines, pos, m, st) == Err::<ModelState, ErrView>(ErrView::Io(msg)));
            },
            Ok(raw) => {
                let c = clean_of(raw);
                if c.len() == 0 {
                    lemma_run_read(lines, pos + 1, m, st);
                    assert(g_run(lines, pos, m, st) == g_run(lines, pos + 1, m, st));
                } else if !all_printable(c) {
                    assert(g_run(lines, pos, m, st) == Err::<ModelState, ErrView>(
                        ErrView::Encoding(raw),
                    ));
                } else {
                    assert(g_run(lines, pos, m, st) == g_step(lines, pos + 1, c, m, st));
                }
            },
        }
    }
}

/// A trailing carriage return dropped, as a buffered line reader does.
pub open spec fn strip_cr(l: Seq<char>) -> Seq<char> {
    if l.len() > 0 && l.last() == '\r' {
        l.drop_last()
    } else {
        l
    }
}

/// The text split at newlines: each piece loses its newline and one carriage
/// return before it; a final piece without a newline keeps its characters.
pub open spec fn split_lines(s: Seq<char>) -> Seq<Seq<char>>
    decreases s.len(),
    via split_lines_decreases
{
    if s.len() == 0 {
        Seq::empty()
    } else {
        let j = crate::text::find_from(s, '\n', 0);
        if j == s.len() {
            seq![s]
        } else {
            seq![strip_cr(s.take(j))] + split_lines(s.skip(j + 1))
        }
    }
}

#[via_fn]
proof fn split_lines_decreases(s: Seq<char>) {
    if s.len() > 0 {
        crate::text::lemma_find_from(s, '\n', 0);
    }
}

/// Text lines wrapped as successful reads.
pub open spec fn ok_lines(v: Seq<Seq<char>>) -> Lines {
    v.map_values(|l: Seq<char>| Ok(l))
}

/// Searching a suffix is searching the whole from its start.
pub proof fn lemma_find_from_skip(s: Seq<char>, c: char, i: int)
    requires
        0 <= i <= s.len(),
    ensures
        crate::text::find_from(s.skip(i), c, 0) == crate::text::find_from(s, c, i) - i,
    decreases s.len() - i,
{
    crate::text::lemma_find_from(s, c, i);
    crate::text::lemma_find_from(s.skip(i), c, 0);
    let j = crate::text::find_from(s, c, i);
    let k = crate::text::find_from(s.skip(i), c, 0);
    assert(forall|m: int| 0 <= m < s.skip(i).len() ==> s.skip(i)[m] == s[i + m]);
    if k < j - i {
        assert(s[i + k] != c);
        assert(false);
    }
    if k > j - i {
        assert(j < s.len());
        assert(s.skip(i)[j - i] == c);
        assert(false);
    }
}

} // verus!

