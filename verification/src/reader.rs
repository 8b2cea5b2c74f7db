//! The executable reader: the line source, the section interpreters and the
//! dispatcher.  Each function's contract ties it to the specification-level
//! interpreter in [`crate::semantics`].

use vstd::prelude::*;
use vstd::string::StrSliceExecFns;
use vstd::string::StringExecFns;
use crate::error::ErrView;
use crate::error::MpsError;
use crate::error::Section;
use crate::fields::clip;
use crate::fields::extract_field;
use crate::fields::fields_of;
use crate::model::ModelState;
use crate::model::Problem;
use crate::model::RowType;
use crate::semantics::g_pair;
use crate::semantics::g_tab_line;
use crate::semantics::lemma_step_rows;
use crate::semantics::lemma_header;
use crate::semantics::lemma_step_tab;
use crate::semantics::spec_parse;
use crate::semantics::lemma_tab_find;
use crate::semantics::lemma_tab_find_same_keys;
use crate::semantics::tab_ensure;
use crate::semantics::tab_find;
use crate::semantics::tab_put;
use crate::model::lemma_assoc_absent;
use crate::model::lemma_wf_tab_push;
use crate::model::lemma_wf_parts;
use crate::model::lemma_wf_set_cols;
use crate::model::lemma_wf_set_rhs;
use crate::model::lemma_wf_tab_update;
use crate::model::lemma_keys_below_after;
use crate::model::lemma_assoc_found;
use crate::model::tab_of;
use crate::model::ColumnData;
use crate::model::Tab;
use crate::numtext::check_float;
use crate::numtext::is_float_literal;
use crate::semantics::has_objective;
use crate::semantics::lemma_has_objective_push;
use crate::semantics::row_kind;
use crate::model::Row;
use crate::semantics::g_after;
use crate::semantics::g_header;
use crate::semantics::g_read;
use crate::semantics::g_run;
use crate::semantics::g_step;
use crate::semantics::Lines;
use crate::semantics::lemma_g_after_bounds;
use crate::semantics::lemma_run_read;
use crate::semantics::lemma_step_header;
use crate::semantics::lemma_step_name;
use crate::semantics::name_prefix_ok;
use crate::semantics::view_lines;
use crate::semantics::LineRead;
use crate::semantics::Mode;
use crate::text::all_printable;
use crate::text::all_printable_str;
use crate::text::clean_of;
use crate::text::clean_str;
use crate::text::find_char_from;
use crate::text::str_eq;
use crate::semantics::ok_lines;
use crate::semantics::split_lines;
use crate::semantics::strip_cr;
use crate::semantics::lemma_find_from_skip;
use crate::text::trim_of;

verus! {

/// The exit trace of a section interpreter: the reader's final position lies
/// one cleaned-line step past a point `q` from which the remaining parse, in
/// the final model state, equals the remaining parse from the caller's
/// entry; an `Ok` header is the cleaned line at `q`, and an unexpected-line
/// failure is the interpreter's rejection, from the final state, of the
/// cleaned line at `q` — a line that therefore changed nothing.
pub open spec fn section_exit(
    stream: Lines,
    p0: int,
    q: int,
    m: Mode,
    st0: ModelState,
    st2: ModelState,
    pos2: int,
    r: Result<String, MpsError>,
) -> bool {
    &&& p0 <= q <= stream.len()
    &&& pos2 == g_after(stream, q)
    &&& g_run(stream, q, m, st2) == g_run(stream, p0, m, st0)
    &&& match r {
        Ok(h) => g_read(stream, q) == LineRead::Line(h@),
        Err(e) => e@ matches ErrView::UnexpectedLine(sec, l) ==> g_read(stream, q)
            == LineRead::Line(l) && g_step(stream, g_after(stream, q), l, m, st2) == Err::<
            ModelState,
            ErrView,
        >(e@),
    }
}

/// Reads an MPS problem from a sequence of raw text lines; the sequence is
/// consumed in order, exactly once.  An `Err` element stands for an I/O
/// failure of the underlying source, reported when reached.
pub struct MpsReader {
    /// The raw lines.
    pub lines: Vec<Result<String, String>>,
    /// The next raw line to read.
    pub pos: usize,
}

impl MpsReader {
    /// The raw line stream this reader walks.
    pub open spec fn stream(&self) -> crate::semantics::Lines {
        view_lines(self.lines@)
    }

    pub open spec fn wf(&self) -> bool {
        self.pos <= self.lines@.len()
    }

    pub fn new(lines: Vec<Result<String, String>>) -> (r: MpsReader)
        ensures
            r.lines == lines,
            r.pos == 0,
            r.wf(),
    {
        MpsReader { lines, pos: 0 }
    }

    /// The next cleaned line: comment text and trailing whitespace dropped,
    /// blank results skipped wherever they occur, the rest required to be
    /// printable ASCII.  `None` when the stream is exhausted.
    pub fn read_line(&mut self) -> (r: Option<Result<String, MpsError>>)
        requires
            old(self).wf(),
        ensures
            final(self).lines == old(self).lines,
            final(self).wf(),
            final(self).pos as int == g_after(old(self).stream(), old(self).pos as int),
            match g_read(old(self).stream(), old(self).pos as int) {
                LineRead::End => r is None,
                LineRead::Io(m) => r matches Some(Err(e)) && e@ == ErrView::Io(m),
                LineRead::Enc(raw) => r matches Some(Err(e)) && e@ == ErrView::Encoding(raw),
                LineRead::Line(c) => r matches Some(Ok(s)) && s@ == c && c.len() > 0
                    && all_printable(c),
            },
    {
        loop
            invariant
                self.lines == old(self).lines,
                old(self).pos <= self.pos <= self.lines@.len(),
                g_read(old(self).stream(), old(self).pos as int) == g_read(
                    self.stream(),
                    self.pos as int,
                ),
                g_after(old(self).stream(), old(self).pos as int) == g_after(
                    self.stream(),
                    self.pos as int,
                ),
            decreases self.lines@.len() - self.pos,
        {
            if self.pos >= self.lines.len() {
                return None;
            }
            let i = self.pos;
            let ghost stream = self.stream();
            proof {
                assert(stream[i as int] == match self.lines@[i as int] {
                    Ok(s) => Ok::<Seq<char>, Seq<char>>(s@),
                    Err(m) => Err::<Seq<char>, Seq<char>>(m@),
                });
            }
            match &self.lines[i] {
                Err(m) => {
                    let msg = m.clone();
                    self.pos = i + 1;
                    return Some(Err(MpsError::IoFailure(msg)));
                },
                Ok(raw) => {
                    let cleaned = clean_str(raw.as_str());
                    if cleaned.as_str().is_empty() {
                        self.pos = i + 1;
                    } else if !all_printable_str(cleaned.as_str()) {
                        let bad = raw.clone();
                        self.pos = i + 1;
                        return Some(Err(MpsError::EncodingError(bad)));
                    } else {
                        self.pos = i + 1;
                        return Some(Ok(cleaned));
                    }
                },
            }
        }
    }

    /// A data line that does not match its section's shape.
    pub fn err<T>(section: Section, line: &str) -> (r: Result<T, MpsError>)
        ensures
            r matches Err(e) && e@ == ErrView::UnexpectedLine(section, line@),
    {
        Err(MpsError::UnexpectedLineError(section, String::from_str(line)))
    }

    /// Slice one cleaned line into the six positional fields of the fixed
    /// column layout, each trimmed.
    pub fn line_as_fields(line: &str) -> (r: (String, String, String, String, String, String))
        ensures
            ({
                let f = fields_of(line@);
                r.0@ == f.f1 && r.1@ == f.f2 && r.2@ == f.f3 && r.3@ == f.f4 && r.4@ == f.f5
                    && r.5@ == f.f6
            }),
    {
        proof {
            reveal(fields_of);
        }
        (
            extract_field(line, 1, 3),
            extract_field(line, 4, 12),
            extract_field(line, 14, 22),
            extract_field(line, 24, 36),
            extract_field(line, 39, 47),
            extract_field(line, 49, 61),
        )
    }

    /// Whether a line opens with `NAME` and exactly ten spaces.
    fn name_prefix(line: &str) -> (r: bool)
        ensures
            r == name_prefix_ok(line@),
    {
        let n = line.unicode_len();
        if n < 14 {
            return false;
        }
        if !(line.get_char(0) == 'N' && line.get_char(1) == 'A' && line.get_char(2) == 'M'
            && line.get_char(3) == 'E') {
            return false;
        }
        let mut i: usize = 4;
        while i < 14
            invariant
                4 <= i <= 14,
                14 <= line@.len(),
                forall|j: int| 4 <= j < i ==> line@[j] == ' ',
            decreases 14 - i,
        {
            if line.get_char(i) != ' ' {
                return false;
            }
            i += 1;
        }
        true
    }

    /// Read the NAME line — it must open with `NAME` and ten spaces and hold
    /// a non-blank name in its fixed 15-character field — then read one more
    /// cleaned line and hand it back as the first section header.
    #[verifier::rlimit(100)]
    #[verifier::spinoff_prover]
    pub fn read_name(&mut self, problem: &mut Problem) -> (r: Result<String, MpsError>)
        requires
            old(self).wf(),
        ensures
            final(self).lines == old(self).lines,
            final(self).wf(),
            final(problem).objective == old(problem).objective,
            final(problem).rows_by_index == old(problem).rows_by_index,
            final(problem).rows_by_id == old(problem).rows_by_id,
            final(problem).columns_by_id == old(problem).columns_by_id,
            final(problem).rhs_by_id == old(problem).rhs_by_id,
            old(problem).wf() ==> final(problem).wf(),
            ({
                let str0 = old(self).stream();
                let p0 = old(self).pos as int;
                let p1 = g_after(str0, p0);
                match g_read(str0, p0) {
                    LineRead::Line(l1) => {
                        if name_prefix_ok(l1) {
                            &&& final(problem).name@ == trim_of(clip(l1, 14, 29))
                            &&& (trim_of(clip(l1, 14, 29)).len() == 0 ==> final(self).pos as int
                                == p1)
                            &&& (trim_of(clip(l1, 14, 29)).len() > 0 ==> final(self).pos as int
                                == g_after(str0, p1) && (r matches Ok(h) ==> g_read(str0, p1)
                                == LineRead::Line(h@)))
                        } else {
                            &&& final(problem).name == old(problem).name
                            &&& final(self).pos as int == p1
                        }
                    },
                    _ => final(problem).name == old(problem).name && final(self).pos as int == p1,
                }
            }),
            match r {
                Err(e) => g_run(
                    old(self).stream(),
                    old(self).pos as int,
                    Mode::AwaitName,
                    old(problem)@,
                ) == Err::<ModelState, ErrView>(e@),
                Ok(h) => {
                    &&& h@.len() > 0
                    &&& all_printable(h@)
                    &&& final(problem).name@.len() > 0
                    &&& g_run(
                        old(self).stream(),
                        old(self).pos as int,
                        Mode::AwaitName,
                        old(problem)@,
                    ) == g_header(
                        old(self).stream(),
                        final(self).pos as int,
                        h@,
                        final(problem)@,
                    )
                },
            },
    {
        let ghost stream = old(self).stream();
        let ghost pos0 = old(self).pos as int;
        let ghost st0 = old(problem)@;
        proof {
            reveal(Problem::wf);
            lemma_run_read(stream, pos0, Mode::AwaitName, st0);
        }
        let line = match self.read_line() {
            None => {
                return Err(MpsError::MissingNameLine);
            },
            Some(res) => match res {
                Err(e) => {
                    return Err(e);
                },
                Ok(l) => l,
            },
        };
        proof {
            lemma_step_name(stream, self.pos as int, line@, st0);
        }
        if !Self::name_prefix(line.as_str()) {
            return Err(MpsError::FormatError);
        }
        let name = extract_field(line.as_str(), 14, 29);
        if name.as_str().is_empty() {
            problem.name = name;
            return Err(MpsError::EmptyNameError);
        }
        problem.name = name;
        let ghost st1 = ModelState { name: trim_of(clip(line@, 14, 29)), ..st0 };
        proof {
            assert(problem@ =~= st1);
            assert(self.stream() == stream);
            lemma_run_read(stream, self.pos as int, Mode::AwaitHeader, st1);
        }
        let ghost pos1 = self.pos as int;
        match self.read_line() {
            None => Err(MpsError::UnexpectedEndOfInput(Section::Rows)),
            Some(res) => match res {
                Err(e) => Err(e),
                Ok(h) => {
                    proof {
                        lemma_step_header(stream, self.pos as int, h@, Mode::AwaitHeader, st1);
                    }
                    Ok(h)
                },
            },
        }
    }

    /// Whether an objective row has been recorded yet in this parse.
    fn has_objective_row(problem: &Problem) -> (r: bool)
        ensures
            r == has_objective(problem@.rows),
    {
        let n = problem.rows_by_index.len();
        let mut i: usize = 0;
        while i < n
            invariant
                i <= n == problem.rows_by_index@.len(),
                forall|j: int|
                    0 <= j < i ==> (#[trigger] problem.rows_by_index@[j]).typ
                        != RowType::Objective,
            decreases n - i,
        {
            if problem.rows_by_index[i].typ == RowType::Objective {
                proof {
                    assert(problem@.rows[i as int].typ == RowType::Objective);
                }
                return true;
            }
            i += 1;
        }
        proof {
            if has_objective(problem@.rows) {
                let j = choose|j: int|
                    0 <= j < problem@.rows.len() && (#[trigger] problem@.rows[j]).typ
                        == RowType::Objective;
                assert(problem.rows_by_index@[j].typ == RowType::Objective);
            }
        }
        false
    }

    /// Interpret ROWS data lines until a header line appears and is handed
    /// back.  Each data line declares one row whose index is the count of
    /// rows already recorded; the first `N` code of the whole parse becomes
    /// the objective and every later `N` code a free row; any other code
    /// fails.  A re-declared name wins the name lookup while both rows stay
    /// in the ordered sequence.
    #[verifier::rlimit(100)]
    #[verifier::spinoff_prover]
    pub fn read_rows(&mut self, problem: &mut Problem) -> (r: Result<String, MpsError>)
        requires
            old(self).wf(),
            old(problem).wf(),
        ensures
            final(self).lines == old(self).lines,
            final(self).wf(),
            r is Ok ==> old(self).pos < final(self).pos,
            final(problem).wf(),
            final(problem).name == old(problem).name,
            final(problem).objective == old(problem).objective,
            final(problem).columns_by_id == old(problem).columns_by_id,
            final(problem).rhs_by_id == old(problem).rhs_by_id,
            old(problem).rows_by_index@.len() <= final(problem).rows_by_index@.len(),
            forall|i: int|
                0 <= i < old(problem).rows_by_index@.len() ==> final(problem).rows_by_index@[i]
                    == old(problem).rows_by_index@[i],
            exists|q: int|
                #[trigger] section_exit(
                    old(self).stream(),
                    old(self).pos as int,
                    q,
                    Mode::InRows,
                    old(problem)@,
                    final(problem)@,
                    final(self).pos as int,
                    r,
                ),
            match r {
                Err(e) => g_run(
                    old(self).stream(),
                    old(self).pos as int,
                    Mode::InRows,
                    old(problem)@,
                ) == Err::<ModelState, ErrView>(e@),
                Ok(h) => {
                    &&& h@.len() > 0
                    &&& h@[0] != ' '
                    &&& all_printable(h@)
                    &&& g_run(
                        old(self).stream(),
                        old(self).pos as int,
                        Mode::InRows,
                        old(problem)@,
                    ) == g_header(
                        old(self).stream(),
                        final(self).pos as int,
                        h@,
                        final(problem)@,
                    )
                },
            },
    {
        let ghost stream = old(self).stream();
        let mut found_objective = Self::has_objective_row(problem);
        loop
            invariant
                self.wf(),
                old(self).pos <= self.pos,
                self.lines == old(self).lines,
                stream == self.stream(),
                stream == old(self).stream(),
                problem.wf(),
                problem.name == old(problem).name,
                problem.objective == old(problem).objective,
                problem.columns_by_id == old(problem).columns_by_id,
                problem.rhs_by_id == old(problem).rhs_by_id,
                old(problem).rows_by_index@.len() <= problem.rows_by_index@.len(),
                forall|i: int|
                    0 <= i < old(problem).rows_by_index@.len() ==> problem.rows_by_index@[i]
                        == old(problem).rows_by_index@[i],
                found_objective == has_objective(problem@.rows),
                g_run(stream, old(self).pos as int, Mode::InRows, old(problem)@) == g_run(
                    stream,
                    self.pos as int,
                    Mode::InRows,
                    problem@,
                ),
            decreases self.lines@.len() - self.pos,
        {
            let ghost posi = self.pos as int;
            let ghost sti = problem@;
            proof {
                assert(self.stream() == stream);
                lemma_run_read(stream, posi, Mode::InRows, sti);
            }
            let line = match self.read_line() {
                None => {
                    proof {
                        assert(section_exit(
                            old(self).stream(),
                            old(self).pos as int,
                            posi,
                            Mode::InRows,
                            old(problem)@,
                            problem@,
                            self.pos as int,
                            Err::<String, MpsError>(MpsError::UnexpectedEndOfInput(Section::Rows)),
                        ));
                    }
                    return Err(MpsError::UnexpectedEndOfInput(Section::Rows));
                },
                Some(res) => match res {
                    Err(e) => {
                        proof {
                            assert(section_exit(
                                old(self).stream(),
                                old(self).pos as int,
                                posi,
                                Mode::InRows,
                                old(problem)@,
                                problem@,
                                self.pos as int,
                                Err::<String, MpsError>(e),
                            ));
                        }
                        return Err(e);
                    },
                    Ok(l) => l,
                },
            };
            proof {
                lemma_g_after_bounds(stream, posi);
                assert(posi < stream.len());
            }
            if line.get_char(0) != ' ' {
                proof {
                    lemma_step_header(stream, self.pos as int, line@, Mode::InRows, sti);
                    assert(section_exit(
                        old(self).stream(),
                        old(self).pos as int,
                        posi,
                        Mode::InRows,
                        old(problem)@,
                        problem@,
                        self.pos as int,
                        Ok::<String, MpsError>(line),
                    ));
                }
                return Ok(line);
            }
            match Self::rows_data_line(
                problem,
                &mut found_objective,
                line.as_str(),
                Ghost(stream),
                Ghost(self.pos as int),
            ) {
                Some(e) => {
                    proof {
                        assert(e@ matches ErrView::UnexpectedLine(sec, l) ==> l == line@);
                        assert(section_exit(
                            old(self).stream(),
                            old(self).pos as int,
                            posi,
                            Mode::InRows,
                            old(problem)@,
                            problem@,
                            self.pos as int,
                            Err::<String, MpsError>(e),
                        ));
                    }
                    return Err(e);
                },
                None => {},
            }
        }
    }

    /// Interpret one ROWS data line: declare the row its type code names, or
    /// fail on an unknown code, changing nothing.  `found` mirrors whether
    /// the parse has produced its objective row.
    #[verifier::rlimit(100)]
    #[verifier::spinoff_prover]
    fn rows_data_line(
        problem: &mut Problem,
        found: &mut bool,
        line: &str,
        Ghost(lines): Ghost<Lines>,
        Ghost(next): Ghost<int>,
    ) -> (r: Option<MpsError>)
        requires
            old(problem).wf(),
            line@.len() > 0,
            line@[0] == ' ',
            *old(found) == has_objective(old(problem)@.rows),
        ensures
            final(problem).wf(),
            final(problem).name == old(problem).name,
            final(problem).objective == old(problem).objective,
            final(problem).columns_by_id == old(problem).columns_by_id,
            final(problem).rhs_by_id == old(problem).rhs_by_id,
            old(problem).rows_by_index@.len() <= final(problem).rows_by_index@.len(),
            forall|i: int|
                0 <= i < old(problem).rows_by_index@.len() ==> final(problem).rows_by_index@[i]
                    == old(problem).rows_by_index@[i],
            final(problem).rows_by_index@.len() <= old(problem).rows_by_index@.len() + 1,
            *final(found) == has_objective(final(problem)@.rows),
            match r {
                Some(e) => {
                    &&& *final(problem) == *old(problem)
                    &&& *final(found) == *old(found)
                    &&& e@ matches ErrView::UnexpectedLine(sec, l) && sec == Section::Rows && l
                        == line@
                    &&& g_step(lines, next, line@, Mode::InRows, old(problem)@) == Err::<
                        ModelState,
                        ErrView,
                    >(e@)
                },
                None => g_step(lines, next, line@, Mode::InRows, old(problem)@) == g_run(
                    lines,
                    next,
                    Mode::InRows,
                    final(problem)@,
                ),
            },
    {
        let ghost sti = old(problem)@;
        let ghost found0 = *found;
        proof {
            assert(forall|i: int|
                0 <= i < problem.rows_by_index@.len() ==> (#[trigger] problem@.rows[i]).typ
                    == problem.rows_by_index@[i].typ);
        }
        let (f1, f2, _f3, _f4, _f5, _f6) = Self::line_as_fields(line);
        let typ: RowType;
        if str_eq(f1.as_str(), "N") {
            if !*found {
                typ = RowType::Objective;
                *found = true;
            } else {
                typ = RowType::NoRestriction;
            }
        } else if str_eq(f1.as_str(), "L") {
            typ = RowType::Le;
        } else if str_eq(f1.as_str(), "G") {
            typ = RowType::Ge;
        } else if str_eq(f1.as_str(), "E") {
            typ = RowType::Eq;
        } else {
            proof {
                lemma_step_rows(lines, next, line@, sti);
            }
            return Some(MpsError::UnexpectedLineError(Section::Rows, String::from_str(line)));
        }
        proof {
            assert(row_kind(fields_of(line@).f1, has_objective(sti.rows)) == Some(typ));
            lemma_step_rows(lines, next, line@, sti);
            if typ == RowType::NoRestriction {
                let i = choose|i: int|
                    0 <= i < sti.rows.len() && (#[trigger] sti.rows[i]).typ == RowType::Objective;
                assert(problem.rows_by_index@[i].typ == RowType::Objective);
            }
            if typ == RowType::Objective {
                assert forall|i: int| 0 <= i < problem.rows_by_index@.len() implies (
                #[trigger] problem.rows_by_index@[i]).typ != RowType::Objective by {
                    if problem.rows_by_index@[i].typ == RowType::Objective {
                        assert(problem@.rows[i].typ == RowType::Objective);
                    }
                }
            }
        }
        let ghost rows0 = problem.rows_by_index@;
        problem.push_row(f2, typ);
        proof {
            assert(*found == (found0 || typ == RowType::Objective));
            assert(problem.rows_by_index@.last().typ == typ);
            assert(forall|i: int| 0 <= i < rows0.len() ==> problem.rows_by_index@[i] == rows0[i]);
            lemma_has_objective_push(
                sti.rows,
                Row { name: fields_of(line@).f2, index: sti.rows.len() as int, typ },
            );
            assert(problem@.rows == sti.rows.push(
                Row { name: fields_of(line@).f2, index: sti.rows.len() as int, typ },
            ));
        }
        None
    }

    /// The position of `key` in a column or RHS table, if present.
    fn tab_index(v: &Vec<(String, ColumnData)>, key: &str) -> (r: Option<usize>)
        ensures
            match r {
                Some(i) => i < v@.len() && tab_find(tab_of(v@), key@) == i as int,
                None => tab_find(tab_of(v@), key@) == -1,
            },
    {
        let n = v.len();
        let mut i: usize = 0;
        while i < n
            invariant
                i <= n == v@.len(),
                forall|m: int| 0 <= m < i ==> (#[trigger] tab_of(v@)[m]).0 != key@,
            decreases n - i,
        {
            let hit = str_eq(v[i].0.as_str(), key);
            proof {
                assert(tab_of(v@)[i as int].0 == v@[i as int].0@);
            }
            if hit {
                proof {
                    lemma_tab_find(tab_of(v@), key@);
                    let t = tab_of(v@);
                    let tf = tab_find(t, key@);
                    assert(t[i as int].0 == key@);
                    if tf > i as int {
                        assert(false);
                    }
                    if 0 <= tf < i as int {
                        assert(t[tf].0 == key@);
                        assert(false);
                    }
                    if tf == -1 {
                        assert(false);
                    }
                }
                return Some(i);
            }
            i += 1;
        }
        proof {
            lemma_tab_find(tab_of(v@), key@);
            let t = tab_of(v@);
            let tf = tab_find(t, key@);
            if tf >= 0 {
                assert(t[tf].0 == key@);
                assert(false);
            }
        }
        None
    }

    /// Look up a row by name; the most recent declaration of the name wins.
    fn find_row(problem: &Problem, id: &str) -> (r: Option<usize>)
        requires
            problem.wf(),
        ensures
            match r {
                Some(ix) => problem@.by_id.contains_key(id@) && problem@.by_id[id@] == ix as int
                    && ix < problem.rows_by_index@.len(),
                None => !problem@.by_id.contains_key(id@),
            },
    {
        let n = problem.rows_by_id.len();
        let mut j: usize = n;
        while j > 0
            invariant
                problem.wf(),
                j <= n == problem.rows_by_id@.len(),
                forall|m: int| j <= m < n ==> (#[trigger] problem.rows_by_id@[m]).0@ != id@,
            decreases j,
        {
            j -= 1;
            if str_eq(problem.rows_by_id[j].0.as_str(), id) {
                proof {
                    lemma_wf_parts(problem);
                    lemma_assoc_found(problem.rows_by_id@, id@, j as int);
                }
                return Some(problem.rows_by_id[j].1);
            }
        }
        proof {
            lemma_assoc_absent(problem.rows_by_id@, id@);
        }
        None
    }

    /// Record one coefficient in the column entry at `key_idx`.
    #[verifier::rlimit(100)]
    #[verifier::spinoff_prover]
    fn col_put_at(problem: &mut Problem, key_idx: usize, row_ix: usize, value: String)
        requires
            old(problem).wf(),
            row_ix < old(problem).rows_by_index@.len(),
            is_float_literal(value@),
            key_idx < old(problem).columns_by_id@.len(),
        ensures
            final(problem).wf(),
            final(problem).name == old(problem).name,
            final(problem).objective == old(problem).objective,
            final(problem).rows_by_index == old(problem).rows_by_index,
            final(problem).rows_by_id == old(problem).rows_by_id,
            final(problem).rhs_by_id == old(problem).rhs_by_id,
            final(problem).columns_by_id@.len() == old(problem).columns_by_id@.len(),
            ({
                let t = tab_of(old(problem).columns_by_id@);
                tab_of(final(problem).columns_by_id@) == t.update(
                    key_idx as int,
                    (t[key_idx as int].0, t[key_idx as int].1.insert(row_ix as int, value@)),
                )
            }),
    {
        let ghost v0 = problem.columns_by_id@;
        let ghost t0 = tab_of(v0);
        proof {
            lemma_wf_parts(problem);
        }
        let ghost nrows = problem.rows_by_index@.len() as int;
        let ghost prev = v0[key_idx as int].1;
        let mut entry = problem.columns_by_id.remove(key_idx);
        entry.1.insert(row_ix, value);
        problem.columns_by_id.insert(key_idx, entry);
        proof {
            let v2 = problem.columns_by_id@;
            assert(v2 =~= v0.update(key_idx as int, (v0[key_idx as int].0, v2[key_idx as int].1)));
            assert(tab_of(v2) =~= t0.update(
                key_idx as int,
                (t0[key_idx as int].0, t0[key_idx as int].1.insert(row_ix as int, value@)),
            ));
            lemma_keys_below_after(&prev, &v2[key_idx as int].1, row_ix as int, nrows);
            lemma_wf_tab_update(v0, v2, key_idx as int, nrows);
            lemma_wf_set_cols(old(problem), problem);
        }
    }

    /// Find the column entry named `name`, creating an empty one at the
    /// end of the table on its first appearance, and return its position.
    #[verifier::rlimit(100)]
    #[verifier::spinoff_prover]
    fn col_entry(problem: &mut Problem, name: String) -> (key_idx: usize)
        requires
            old(problem).wf(),
        ensures
            final(problem).wf(),
            final(problem).name == old(problem).name,
            final(problem).objective == old(problem).objective,
            final(problem).rows_by_index == old(problem).rows_by_index,
            final(problem).rows_by_id == old(problem).rows_by_id,
            final(problem).rhs_by_id == old(problem).rhs_by_id,
            tab_of(final(problem).columns_by_id@) == tab_ensure(tab_of(old(problem).columns_by_id@), name@),
            key_idx < final(problem).columns_by_id@.len(),
            tab_of(final(problem).columns_by_id@)[key_idx as int].0 == name@,
            tab_find(tab_of(final(problem).columns_by_id@), name@) == key_idx as int,
    {
        let ghost t0 = tab_of(problem.columns_by_id@);
        let found = Self::tab_index(&problem.columns_by_id, name.as_str());
        proof {
            lemma_tab_find(t0, name@);
        }
        match found {
            Some(i) => {
                proof {
                    assert(tab_ensure(t0, name@) == t0);
                    assert(*problem == *old(problem));
                }
                i
            },
            None => {
                let fresh = ColumnData::new();
                proof {
                    lemma_wf_parts(problem);
                }
                problem.columns_by_id.push((name, fresh));
                proof {
                    let t1 = tab_of(problem.columns_by_id@);
                    assert(t1 =~= t0.push((name@, Map::empty())));
                    assert(tab_ensure(t0, name@) == t1);
                    lemma_tab_find(t1, name@);
                    let tf = tab_find(t1, name@);
                    assert(t1[t1.len() - 1].0 == name@);
                    if tf != t1.len() - 1 {
                        if 0 <= tf < t0.len() {
                            assert(t1[tf] == t0[tf]);
                            assert(t0[tf].0 != name@);
                        }
                        assert(false);
                    }
                    let v0 = old(problem).columns_by_id@;
                    let v2 = problem.columns_by_id@;
                    assert forall|m: int| 0 <= m < v0.len() implies (#[trigger] v0[m]).0@
                        != name@ by {
                        assert(t0[m].0 == v0[m].0@);
                    }
                    lemma_wf_tab_push(v0, v2, name@, problem.rows_by_index@.len() as int);
                    lemma_wf_set_cols(old(problem), problem);
                }
                problem.columns_by_id.len() - 1
            },
        }
    }

    /// Interpret one column data line: field 2 names the entry (created at
    /// first appearance), and fields 3-4 and 5-6 hold up to two (row name,
    /// value) pairs.
    #[verifier::rlimit(100)]
    #[verifier::spinoff_prover]
    fn col_data_line(
        problem: &mut Problem,
        line: &str,
        Ghost(lines): Ghost<Lines>,
        Ghost(next): Ghost<int>,
    ) -> (r: Option<MpsError>)
        requires
            old(problem).wf(),
            line@.len() > 0,
            line@[0] == ' ',
        ensures
            final(problem).wf(),
            final(problem).name == old(problem).name,
            final(problem).objective == old(problem).objective,
            final(problem).rows_by_index == old(problem).rows_by_index,
            final(problem).rows_by_id == old(problem).rows_by_id,
            final(problem).rhs_by_id == old(problem).rhs_by_id,
            match r {
                Some(e) => g_step(lines, next, line@, Mode::InColumns, old(problem)@) == Err::<
                    ModelState,
                    ErrView,
                >(e@),
                None => g_step(lines, next, line@, Mode::InColumns, old(problem)@) == g_run(
                    lines,
                    next,
                    Mode::InColumns,
                    final(problem)@,
                ),
            },
    {
        let ghost sti = old(problem)@;
        let ghost t0 = sti.cols;
        proof {
            lemma_step_tab(lines, next, line@, Mode::InColumns, sti);
        }
        let (_f1, f2, f3, f4, f5, f6) = Self::line_as_fields(line);
        let ghost key = fields_of(line@).f2;
        let key_idx = Self::col_entry(problem, f2);
        let ghost t1 = tab_ensure(t0, key);
        let ghost by_id = sti.by_id;
        let ghost mut t_cur: Tab = t1;
        if !f3.as_str().is_empty() {
            match Self::find_row(problem, f3.as_str()) {
                None => {
                    return Some(MpsError::UnknownRowReferenceError(Section::Columns, f3));
                },
                Some(row_ix) => {
                    if !check_float(f4.as_str()) {
                        return Some(MpsError::NumberFormatError(Section::Columns, f4));
                    }
                    Self::col_put_at(problem, key_idx, row_ix, f4);
                    proof {
                        t_cur = tab_put(t1, key, by_id[fields_of(line@).f3], fields_of(line@).f4);
                    }
                },
            }
        }
        let ghost t2 = t_cur;
        proof {
            assert(g_pair(t1, by_id, Section::Columns, key, fields_of(line@).f3, fields_of(line@).f4)
                == Ok::<Tab, ErrView>(t2));
            lemma_tab_find_same_keys(t2, t1, key);
            assert(t2[key_idx as int].0 == key);
            assert(t2 == tab_of(problem.columns_by_id@));
        }
        if !f5.as_str().is_empty() {
            match Self::find_row(problem, f5.as_str()) {
                None => {
                    return Some(MpsError::UnknownRowReferenceError(Section::Columns, f5));
                },
                Some(row_ix) => {
                    if !check_float(f6.as_str()) {
                        return Some(MpsError::NumberFormatError(Section::Columns, f6));
                    }
                    Self::col_put_at(problem, key_idx, row_ix, f6);
                    proof {
                        t_cur = tab_put(t2, key, by_id[fields_of(line@).f5], fields_of(line@).f6);
                    }
                },
            }
        }
        let ghost t3 = t_cur;
        proof {
            assert(g_pair(t2, by_id, Section::Columns, key, fields_of(line@).f5, fields_of(line@).f6)
                == Ok::<Tab, ErrView>(t3));
            assert(g_tab_line(t0, by_id, Section::Columns, line@) == Ok::<Tab, ErrView>(t3));
            assert(problem@ =~= ModelState { cols: t3, ..sti });
        }
        None
    }

    /// Record one coefficient in the RHS entry at `key_idx`.
    #[verifier::rlimit(100)]
    #[verifier::spinoff_prover]
    fn rhs_put_at(problem: &mut Problem, key_idx: usize, row_ix: usize, value: String)
        requires
            old(problem).wf(),
            row_ix < old(problem).rows_by_index@.len(),
            is_float_literal(value@),
            key_idx < old(problem).rhs_by_id@.len(),
        ensures
            final(problem).wf(),
            final(problem).name == old(problem).name,
            final(problem).objective == old(problem).objective,
            final(problem).rows_by_index == old(problem).rows_by_index,
            final(problem).rows_by_id == old(problem).rows_by_id,
            final(problem).columns_by_id == old(problem).columns_by_id,
            final(problem).rhs_by_id@.len() == old(problem).rhs_by_id@.len(),
            ({
                let t = tab_of(old(problem).rhs_by_id@);
                tab_of(final(problem).rhs_by_id@) == t.update(
                    key_idx as int,
                    (t[key_idx as int].0, t[key_idx as int].1.insert(row_ix as int, value@)),
                )
            }),
    {
        let ghost v0 = problem.rhs_by_id@;
        let ghost t0 = tab_of(v0);
        proof {
            lemma_wf_parts(problem);
        }
        let ghost nrows = problem.rows_by_index@.len() as int;
        let ghost prev = v0[key_idx as int].1;
        let mut entry = problem.rhs_by_id.remove(key_idx);
        entry.1.insert(row_ix, value);
        problem.rhs_by_id.insert(key_idx, entry);
        proof {
            let v2 = problem.rhs_by_id@;
            assert(v2 =~= v0.update(key_idx as int, (v0[key_idx as int].0, v2[key_idx as int].1)));
            assert(tab_of(v2) =~= t0.update(
                key_idx as int,
                (t0[key_idx as int].0, t0[key_idx as int].1.insert(row_ix as int, value@)),
            ));
            lemma_keys_below_after(&prev, &v2[key_idx as int].1, row_ix as int, nrows);
            lemma_wf_tab_update(v0, v2, key_idx as int, nrows);
            lemma_wf_set_rhs(old(problem), problem);
        }
    }

    /// Find the RHS entry named `name`, creating an empty one at the
    /// end of the table on its first appearance, and return its position.
    #[verifier::rlimit(100)]
    #[verifier::spinoff_prover]
    fn rhs_entry(problem: &mut Problem, name: String) -> (key_idx: usize)
        requires
            old(problem).wf(),
        ensures
            final(problem).wf(),
            final(problem).name == old(problem).name,
            final(problem).objective == old(problem).objective,
            final(problem).rows_by_index == old(problem).rows_by_index,
            final(problem).rows_by_id == old(problem).rows_by_id,
            final(problem).columns_by_id == old(problem).columns_by_id,
            tab_of(final(problem).rhs_by_id@) == tab_ensure(tab_of(old(problem).rhs_by_id@), name@),
            key_idx < final(problem).rhs_by_id@.len(),
            tab_of(final(problem).rhs_by_id@)[key_idx as int].0 == name@,
            tab_find(tab_of(final(problem).rhs_by_id@), name@) == key_idx as int,
    {
        let ghost t0 = tab_of(problem.rhs_by_id@);
        let found = Self::tab_index(&problem.rhs_by_id, name.as_str());
        proof {
            lemma_tab_find(t0, name@);
        }
        match found {
            Some(i) => {
                proof {
                    assert(tab_ensure(t0, name@) == t0);
                    assert(*problem == *old(problem));
                }
                i
            },
            None => {
                let fresh = ColumnData::new();
                proof {
                    lemma_wf_parts(problem);
                }
                problem.rhs_by_id.push((name, fresh));
                proof {
                    let t1 = tab_of(problem.rhs_by_id@);
                    assert(t1 =~= t0.push((name@, Map::empty())));
                    assert(tab_ensure(t0, name@) == t1);
                    lemma_tab_find(t1, name@);
                    let tf = tab_find(t1, name@);
                    assert(t1[t1.len() - 1].0 == name@);
                    if tf != t1.len() - 1 {
                        if 0 <= tf < t0.len() {
                            assert(t1[tf] == t0[tf]);
                            assert(t0[tf].0 != name@);
                        }
                        assert(false);
                    }
                    let v0 = old(problem).rhs_by_id@;
                    let v2 = problem.rhs_by_id@;
                    assert forall|m: int| 0 <= m < v0.len() implies (#[trigger] v0[m]).0@
                        != name@ by {
                        assert(t0[m].0 == v0[m].0@);
                    }
                    lemma_wf_tab_push(v0, v2, name@, problem.rows_by_index@.len() as int);
                    lemma_wf_set_rhs(old(problem), problem);
                }
                problem.rhs_by_id.len() - 1
            },
        }
    }

    /// Interpret one RHS data line: field 2 names the entry (created at
    /// first appearance), and fields 3-4 and 5-6 hold up to two (row name,
    /// value) pairs.
    #[verifier::rlimit(100)]
    #[verifier::spinoff_prover]
    fn rhs_data_line(
        problem: &mut Problem,
        line: &str,
        Ghost(lines): Ghost<Lines>,
        Ghost(next): Ghost<int>,
    ) -> (r: Option<MpsError>)
        requires
            old(problem).wf(),
            line@.len() > 0,
            line@[0] == ' ',
        ensures
            final(problem).wf(),
            final(problem).name == old(problem).name,
            final(problem).objective == old(problem).objective,
            final(problem).rows_by_index == old(problem).rows_by_index,
            final(problem).rows_by_id == old(problem).rows_by_id,
            final(problem).columns_by_id == old(problem).columns_by_id,
            match r {
                Some(e) => g_step(lines, next, line@, Mode::InRhs, old(problem)@) == Err::<
                    ModelState,
                    ErrView,
                >(e@),
                None => g_step(lines, next, line@, Mode::InRhs, old(problem)@) == g_run(
                    lines,
                    next,
                    Mode::InRhs,
                    final(problem)@,
                ),
            },
    {
        let ghost sti = old(problem)@;
        let ghost t0 = sti.rhs;
        proof {
            lemma_step_tab(lines, next, line@, Mode::InRhs, sti);
        }
        let (_f1, f2, f3, f4, f5, f6) = Self::line_as_fields(line);
        let ghost key = fields_of(line@).f2;
        let key_idx = Self::rhs_entry(problem, f2);
        let ghost t1 = tab_ensure(t0, key);
        let ghost by_id = sti.by_id;
        let ghost mut t_cur: Tab = t1;
        if !f3.as_str().is_empty() {
            match Self::find_row(problem, f3.as_str()) {
                None => {
                    return Some(MpsError::UnknownRowReferenceError(Section::Rhs, f3));
                },
                Some(row_ix) => {
                    if !check_float(f4.as_str()) {
                        return Some(MpsError::NumberFormatError(Section::Rhs, f4));
                    }
                    Self::rhs_put_at(problem, key_idx, row_ix, f4);
                    proof {
                        t_cur = tab_put(t1, key, by_id[fields_of(line@).f3], fields_of(line@).f4);
                    }
                },
            }
        }
        let ghost t2 = t_cur;
        proof {
            assert(g_pair(t1, by_id, Section::Rhs, key, fields_of(line@).f3, fields_of(line@).f4)
                == Ok::<Tab, ErrView>(t2));
            lemma_tab_find_same_keys(t2, t1, key);
            assert(t2[key_idx as int].0 == key);
            assert(t2 == tab_of(problem.rhs_by_id@));
        }
        if !f5.as_str().is_empty() {
            match Self::find_row(problem, f5.as_str()) {
                None => {
                    return Some(MpsError::UnknownRowReferenceError(Section::Rhs, f5));
                },
                Some(row_ix) => {
                    if !check_float(f6.as_str()) {
                        return Some(MpsError::NumberFormatError(Section::Rhs, f6));
                    }
                    Self::rhs_put_at(problem, key_idx, row_ix, f6);
                    proof {
                        t_cur = tab_put(t2, key, by_id[fields_of(line@).f5], fields_of(line@).f6);
                    }
                },
            }
        }
        let ghost t3 = t_cur;
        proof {
            assert(g_pair(t2, by_id, Section::Rhs, key, fields_of(line@).f5, fields_of(line@).f6)
                == Ok::<Tab, ErrView>(t3));
            assert(g_tab_line(t0, by_id, Section::Rhs, line@) == Ok::<Tab, ErrView>(t3));
            assert(problem@ =~= ModelState { rhs: t3, ..sti });
        }
        None
    }

    /// Interpret COLUMNS data lines until a header line appears and is
    /// handed back.  Each data line extends the column named by field 2 with
    /// up to two coefficients; an undeclared row name or a malformed value
    /// aborts the parse.
    pub fn read_columns(&mut self, problem: &mut Problem) -> (r: Result<String, MpsError>)
        requires
            old(self).wf(),
            old(problem).wf(),
        ensures
            final(self).lines == old(self).lines,
            final(self).wf(),
            r is Ok ==> old(self).pos < final(self).pos,
            final(problem).wf(),
            final(problem).name == old(problem).name,
            final(problem).objective == old(problem).objective,
            final(problem).rows_by_index == old(problem).rows_by_index,
            final(problem).rows_by_id == old(problem).rows_by_id,
            final(problem).rhs_by_id == old(problem).rhs_by_id,
            r is Ok ==> exists|q: int|
                #[trigger] section_exit(
                    old(self).stream(),
                    old(self).pos as int,
                    q,
                    Mode::InColumns,
                    old(problem)@,
                    final(problem)@,
                    final(self).pos as int,
                    r,
                ),
            match r {
                Err(e) => g_run(
                    old(self).stream(),
                    old(self).pos as int,
                    Mode::InColumns,
                    old(problem)@,
                ) == Err::<ModelState, ErrView>(e@),
                Ok(h) => {
                    &&& h@.len() > 0
                    &&& h@[0] != ' '
                    &&& all_printable(h@)
                    &&& g_run(
                        old(self).stream(),
                        old(self).pos as int,
                        Mode::InColumns,
                        old(problem)@,
                    ) == g_header(
                        old(self).stream(),
                        final(self).pos as int,
                        h@,
                        final(problem)@,
                    )
                },
            },
    {
        let ghost stream = old(self).stream();
        loop
            invariant
                self.wf(),
                old(self).pos <= self.pos,
                self.lines == old(self).lines,
                stream == self.stream(),
                stream == old(self).stream(),
                problem.wf(),
                problem.name == old(problem).name,
                problem.objective == old(problem).objective,
                problem.rows_by_index == old(problem).rows_by_index,
                problem.rows_by_id == old(problem).rows_by_id,
                problem.rhs_by_id == old(problem).rhs_by_id,
                g_run(stream, old(self).pos as int, Mode::InColumns, old(problem)@) == g_run(
                    stream,
                    self.pos as int,
                    Mode::InColumns,
                    problem@,
                ),
            decreases self.lines@.len() - self.pos,
        {
            let ghost posi = self.pos as int;
            let ghost sti = problem@;
            proof {
                lemma_run_read(stream, posi, Mode::InColumns, sti);
            }
            let line = match self.read_line() {
                None => {
                    return Err(MpsError::UnexpectedEndOfInput(Section::Columns));
                },
                Some(res) => match res {
                    Err(e) => {
                        return Err(e);
                    },
                    Ok(l) => l,
                },
            };
            proof {
                lemma_g_after_bounds(stream, posi);
                assert(posi < stream.len());
            }
            if line.get_char(0) != ' ' {
                proof {
                    lemma_step_header(stream, self.pos as int, line@, Mode::InColumns, sti);
                    assert(section_exit(
                        old(self).stream(),
                        old(self).pos as int,
                        posi,
                        Mode::InColumns,
                        old(problem)@,
                        problem@,
                        self.pos as int,
                        Ok::<String, MpsError>(line),
                    ));
                }
                return Ok(line);
            }
            match Self::col_data_line(
                problem,
                line.as_str(),
                Ghost(stream),
                Ghost(self.pos as int),
            ) {
                Some(e) => {
                    return Err(e);
                },
                None => {},
            }
        }
    }

    /// Interpret RHS data lines until a header line appears and is handed
    /// back: as COLUMNS, except the entries name right-hand-side vectors.
    pub fn read_rhs(&mut self, problem: &mut Problem) -> (r: Result<String, MpsError>)
        requires
            old(self).wf(),
            old(problem).wf(),
        ensures
            final(self).lines == old(self).lines,
            final(self).wf(),
            r is Ok ==> old(self).pos < final(self).pos,
            final(problem).wf(),
            final(problem).name == old(problem).name,
            final(problem).objective == old(problem).objective,
            final(problem).rows_by_index == old(problem).rows_by_index,
            final(problem).rows_by_id == old(problem).rows_by_id,
            final(problem).columns_by_id == old(problem).columns_by_id,
            r is Ok ==> exists|q: int|
                #[trigger] section_exit(
                    old(self).stream(),
                    old(self).pos as int,
                    q,
                    Mode::InRhs,
                    old(problem)@,
                    final(problem)@,
                    final(self).pos as int,
                    r,
                ),
            match r {
                Err(e) => g_run(
                    old(self).stream(),
                    old(self).pos as int,
                    Mode::InRhs,
                    old(problem)@,
                ) == Err::<ModelState, ErrView>(e@),
                Ok(h) => {
                    &&& h@.len() > 0
                    &&& h@[0] != ' '
                    &&& all_printable(h@)
                    &&& g_run(
                        old(self).stream(),
                        old(self).pos as int,
                        Mode::InRhs,
                        old(problem)@,
                    ) == g_header(
                        old(self).stream(),
                        final(self).pos as int,
                        h@,
                        final(problem)@,
                    )
                },
            },
    {
        let ghost stream = old(self).stream();
        loop
            invariant
                self.wf(),
                old(self).pos <= self.pos,
                self.lines == old(self).lines,
                stream == self.stream(),
                stream == old(self).stream(),
                problem.wf(),
                problem.name == old(problem).name,
                problem.objective == old(problem).objective,
                problem.rows_by_index == old(problem).rows_by_index,
                problem.rows_by_id == old(problem).rows_by_id,
                problem.columns_by_id == old(problem).columns_by_id,
                g_run(stream, old(self).pos as int, Mode::InRhs, old(problem)@) == g_run(
                    stream,
                    self.pos as int,
                    Mode::InRhs,
                    problem@,
                ),
            decreases self.lines@.len() - self.pos,
        {
            let ghost posi = self.pos as int;
            let ghost sti = problem@;
            proof {
                lemma_run_read(stream, posi, Mode::InRhs, sti);
            }
            let line = match self.read_line() {
                None => {
                    return Err(MpsError::UnexpectedEndOfInput(Section::Rhs));
                },
                Some(res) => match res {
                    Err(e) => {
                        return Err(e);
                    },
                    Ok(l) => l,
                },
            };
            proof {
                lemma_g_after_bounds(stream, posi);
                assert(posi < stream.len());
            }
            if line.get_char(0) != ' ' {
                proof {
                    lemma_step_header(stream, self.pos as int, line@, Mode::InRhs, sti);
                    assert(section_exit(
                        old(self).stream(),
                        old(self).pos as int,
                        posi,
                        Mode::InRhs,
                        old(problem)@,
                        problem@,
                        self.pos as int,
                        Ok::<String, MpsError>(line),
                    ));
                }
                return Ok(line);
            }
            match Self::rhs_data_line(
                problem,
                line.as_str(),
                Ghost(stream),
                Ghost(self.pos as int),
            ) {
                Some(e) => {
                    return Err(e);
                },
                None => {},
            }
        }
    }


    /// Run the whole parse: the NAME line first, then sections as their
    /// headers appear, until a header matches no known keyword.  The result
    /// agrees with the specification-level interpreter on this reader's
    /// stream; on success the problem is well-formed, its name is non-empty
    /// and no objective direction is set.
    #[verifier::rlimit(100)]
    #[verifier::spinoff_prover]
    pub fn into_problem(self) -> (r: Result<Problem, MpsError>)
        requires
            self.wf(),
        ensures
            match r {
                Ok(p) => p.wf() && p.name@.len() > 0 && p.objective is None && spec_parse(
                    self.stream(),
                    self.pos as int,
                ) == Ok::<ModelState, ErrView>(p@),
                Err(e) => spec_parse(self.stream(), self.pos as int) == Err::<ModelState, ErrView>(
                    e@,
                ),
            },
    {
        let ghost stream = self.stream();
        let ghost pos0 = self.pos as int;
        let mut this = self;
        let mut problem = Problem::new();
        let mut header = match this.read_name(&mut problem) {
            Err(e) => {
                return Err(e);
            },
            Ok(h) => h,
        };
        loop
            invariant
                this.wf(),
                stream == this.stream(),
                stream == self.stream(),
                pos0 == self.pos as int,
                problem.wf(),
                problem.name@.len() > 0,
                problem.objective is None,
                spec_parse(stream, pos0) == g_header(stream, this.pos as int, header@, problem@),
            decreases this.lines@.len() - this.pos, header@.len(),
        {
            proof {
                lemma_header(stream, this.pos as int, header@, problem@);
            }
            if str_eq(header.as_str(), "ROWS") {
                header = match this.read_rows(&mut problem) {
                    Err(e) => {
                        return Err(e);
                    },
                    Ok(h) => h,
                };
            } else if str_eq(header.as_str(), "COLUMNS") {
                header = match this.read_columns(&mut problem) {
                    Err(e) => {
                        return Err(e);
                    },
                    Ok(h) => h,
                };
            } else if str_eq(header.as_str(), "RHS") {
                header = match this.read_rhs(&mut problem) {
                    Err(e) => {
                        return Err(e);
                    },
                    Ok(h) => h,
                };
            } else if str_eq(header.as_str(), "BOUNDS") {
                proof {
                    reveal_strlit("ROWS");
                    reveal_strlit("COLUMNS");
                    reveal_strlit("RHS");
                    reveal_strlit("BOUNDS");
                    reveal_strlit("");
                    assert(""@.len() == 0 && "ROWS"@.len() == 4 && "COLUMNS"@.len() == 7
                        && "RHS"@.len() == 3 && "BOUNDS"@.len() == 6);
                }
                header = match this.read_bounds(&mut problem) {
                    Err(e) => {
                        return Err(e);
                    },
                    Ok(h) => h,
                };
                proof {
                    lemma_header(stream, this.pos as int, header@, problem@);
                }
            } else {
                return Ok(problem);
            }
        }
    }

    /// The BOUNDS section is a recognized keyword with no content in this
    /// revision: nothing is consumed, and the empty pseudo-header returned
    /// makes the dispatcher stop, leaving any BOUNDS data unread.
    pub fn read_bounds(&mut self, _problem: &mut Problem) -> (r: Result<String, MpsError>)
        ensures
            *final(self) == *old(self),
            *final(_problem) == *old(_problem),
            r matches Ok(h) && h@ == Seq::<char>::empty(),
    {
        Ok(String::new())
    }
}


/// Parse a whole fixed-column MPS text: the text is split into lines as a
/// buffered reader would (on each newline, dropping one trailing carriage
/// return before it), and the lines are interpreted as `MpsReader` does.
pub fn parse_fixed(file_content: &str) -> (r: Result<Problem, MpsError>)
    ensures
        match r {
            Ok(p) => p.wf() && p.name@.len() > 0 && p.objective is None && spec_parse(
                ok_lines(split_lines(file_content@)),
                0,
            ) == Ok::<ModelState, ErrView>(p@),
            Err(e) => spec_parse(ok_lines(split_lines(file_content@)), 0) == Err::<
                ModelState,
                ErrView,
            >(e@),
        },
{
    let ghost full = file_content@;
    let mut lines: Vec<Result<String, String>> = Vec::new();
    let n = file_content.unicode_len();
    let mut i: usize = 0;
    proof {
        assert(full.skip(0) =~= full);
        assert(view_lines(lines@) =~= Seq::<Result<Seq<char>, Seq<char>>>::empty());
        assert(ok_lines(split_lines(full)) =~= view_lines(lines@) + ok_lines(
            split_lines(full.skip(0)),
        ));
    }
    while i < n
        invariant
            i <= n == full.len(),
            full == file_content@,
            ok_lines(split_lines(full)) =~= view_lines(lines@) + ok_lines(
                split_lines(full.skip(i as int)),
            ),
        decreases n - i,
    {
        let ghost rest = full.skip(i as int);
        let ghost lines0 = lines@;
        let j = find_char_from(file_content, '\n', i);
        proof {
            lemma_find_from_skip(full, '\n', i as int);
            assert(rest.len() == n - i);
            assert(crate::text::find_from(rest, '\n', 0) == j - i);
        }
        if j == n {
            let piece = String::from_str(file_content.substring_char(i, n));
            let ghost pv = piece@;
            lines.push(Ok(piece));
            i = n;
            proof {
                assert(pv =~= rest);
                assert(split_lines(rest) =~= seq![rest]);
                assert(ok_lines(split_lines(rest)) =~= seq![Ok::<Seq<char>, Seq<char>>(rest)]);
                assert(view_lines(lines@) =~= view_lines(lines0).push(Ok(pv)));
                assert(full.skip(n as int) =~= Seq::<char>::empty());
                assert(split_lines(full.skip(n as int)) =~= Seq::<Seq<char>>::empty());
                assert(ok_lines(split_lines(full.skip(n as int))) =~= Seq::<
                    Result<Seq<char>, Seq<char>>,
                >::empty());
                assert(view_lines(lines0) + ok_lines(split_lines(rest)) =~= view_lines(lines@)
                    + ok_lines(split_lines(full.skip(n as int))));
            }
        } else {
            let hi: usize = if j > i && file_content.get_char(j - 1) == '\r' {
                j - 1
            } else {
                j
            };
            let piece = String::from_str(file_content.substring_char(i, hi));
            let ghost pv = piece@;
            lines.push(Ok(piece));
            proof {
                assert(rest.take(j - i) =~= full.subrange(i as int, j as int));
                if hi < j {
                    assert(rest.take(j - i).len() > 0);
                    assert(rest.take(j - i).last() == full[j - 1]);
                    assert(strip_cr(rest.take(j - i)) =~= rest.take(j - i).drop_last());
                    assert(rest.take(j - i).drop_last() =~= full.subrange(i as int, hi as int));
                } else {
                    if j > i {
                        assert(rest.take(j - i).last() == full[j - 1]);
                    }
                    assert(strip_cr(rest.take(j - i)) =~= full.subrange(i as int, hi as int));
                }
                assert(pv == strip_cr(rest.take(j - i)));
                assert(rest.skip(j - i + 1) =~= full.skip(j + 1));
                assert(split_lines(rest) =~= seq![strip_cr(rest.take(j - i))] + split_lines(
                    full.skip(j + 1),
                ));
                assert(ok_lines(split_lines(rest)) =~= seq![Ok::<Seq<char>, Seq<char>>(pv)]
                    + ok_lines(split_lines(full.skip(j + 1))));
                assert(view_lines(lines@) =~= view_lines(lines0).push(Ok(pv)));
                assert(view_lines(lines0) + (seq![Ok::<Seq<char>, Seq<char>>(pv)] + ok_lines(
                    split_lines(full.skip(j + 1)),
                )) =~= view_lines(lines@) + ok_lines(split_lines(full.skip(j + 1))));
            }
            i = j + 1;
        }
    }
    proof {
        assert(full.skip(n as int) =~= Seq::<char>::empty());
        assert(split_lines(full.skip(n as int)) =~= Seq::<Seq<char>>::empty());
        assert(ok_lines(split_lines(full.skip(n as int))) =~= Seq::<
            Result<Seq<char>, Seq<char>>,
        >::empty());
        assert(view_lines(lines@) + ok_lines(split_lines(full.skip(n as int))) =~= view_lines(
            lines@,
        ));
        assert(ok_lines(split_lines(full)) == view_lines(lines@));
    }
    MpsReader::new(lines).into_problem()
}

} // verus!
