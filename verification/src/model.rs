//! The problem model: rows, sparse columns and right-hand-side vectors, and
//! the aggregate `Problem` that a successful parse returns.

use vstd::prelude::*;
use vstd::map::*;
use crate::numtext::is_float_literal;

verus! {

/// The optimization direction.  No current section interpreter sets it: after
/// parsing it is always absent.
#[derive(Debug, PartialEq, Eq)]
pub enum Objective {
    Maximize,
    Minimize,
}

/// The kind of a row: the objective, a constraint, or a free row.
#[derive(Debug, Clone, Copy, PartialEq, Eq, Structural)]
pub enum RowType {
    Eq,
    Ge,
    Le,
    Objective,
    NoRestriction,
}

/// One objective or constraint row: its name, its stable 0-based index in
/// order of declaration, and its kind.
#[derive(Debug, PartialEq, Eq)]
pub struct RowDef {
    pub name: String,
    pub index: usize,
    pub typ: RowType,
}

/// The specification-level image of a row.
pub ghost struct Row {
    pub name: Seq<char>,
    pub index: int,
    pub typ: RowType,
}

impl View for RowDef {
    type V = Row;

    open spec fn view(&self) -> Row {
        Row { name: self.name@, index: self.index as int, typ: self.typ }
    }
}

/// A sparse vector: row index to coefficient text, kept sorted by row index.
/// The text of each coefficient is a validated floating-point literal; it is
/// kept as text because the parse itself never computes with the value.
#[derive(Debug, PartialEq, Eq)]
pub struct ColumnData {
    pub data: Vec<(usize, String)>,
}

/// The map held by a sorted sparse vector; a later entry for the same key
/// would win, though well-formed data holds each key once.
pub open spec fn map_of(s: Seq<(usize, String)>) -> Map<int, Seq<char>>
    decreases s.len(),
{
    if s.len() == 0 {
        Map::empty()
    } else {
        map_of(s.drop_last()).insert(s.last().0 as int, s.last().1@)
    }
}

impl View for ColumnData {
    type V = Map<int, Seq<char>>;

    open spec fn view(&self) -> Map<int, Seq<char>> {
        map_of(self.data@)
    }
}

impl ColumnData {
    /// Entries are strictly sorted by row index and hold float-literal text.
    pub open spec fn wf(&self) -> bool {
        &&& forall|i: int, j: int|
            0 <= i < j < self.data@.len() ==> (#[trigger] self.data@[i]).0 < (
            #[trigger] self.data@[j]).0
        &&& forall|i: int|
            0 <= i < self.data@.len() ==> is_float_literal((#[trigger] self.data@[i]).1@)
    }

    /// Every row index in the vector is below `bound`.
    pub open spec fn keys_below(&self, bound: int) -> bool {
        forall|i: int| 0 <= i < self.data@.len() ==> (#[trigger] self.data@[i]).0 < bound
    }

    pub fn new() -> (r: ColumnData)
        ensures
            r@ == Map::<int, Seq<char>>::empty(),
            r.wf(),
            r.data@.len() == 0,
    {
        ColumnData { data: Vec::new() }
    }

    /// Insert a coefficient, overwriting any earlier value for the same row
    /// index and keeping the entries sorted.
    #[verifier::rlimit(100)]
    #[verifier::spinoff_prover]
    pub fn insert(&mut self, key: usize, value: String)
        requires
            old(self).wf(),
            is_float_literal(value@),
        ensures
            final(self).wf(),
            final(self)@ == old(self)@.insert(key as int, value@),
            final(self).keys_below_after(old(self), key as int),
    {
        let n = self.data.len();
        let mut i: usize = 0;
        while i < n && self.data[i].0 < key
            invariant
                i <= n == self.data@.len(),
                forall|j: int| 0 <= j < i ==> (#[trigger] self.data@[j]).0 < key,
            decreases n - i,
        {
            i += 1;
        }
        let ghost s = self.data@;
        if i < n && self.data[i].0 == key {
            let _old = self.data.remove(i);
            self.data.insert(i, (key, value));
            proof {
                let s1 = s.take(i as int);
                let s2 = s.skip(i + 1);
                assert(self.data@ =~= s1.push((key, value)) + s2);
                assert(s =~= s1.push(s[i as int]) + s2);
                assert(forall|m: int| 0 <= m < s2.len() ==> (#[trigger] s2[m]).0 != key);
                assert(forall|m: int| 0 <= m < s1.len() ==> (#[trigger] s1[m]).0 != key);
                lemma_map_of_mid(s1, key, value, s2);
                lemma_map_of_mid(s1, key, s[i as int].1, s2);
                assert(map_of(self.data@) =~= map_of(s).insert(key as int, value@));
            }
        } else {
            self.data.insert(i, (key, value));
            proof {
                let s1 = s.take(i as int);
                let s2 = s.skip(i as int);
                assert(self.data@ =~= s1.push((key, value)) + s2);
                assert(s =~= s1 + s2);
                assert(forall|m: int| 0 <= m < s2.len() ==> (#[trigger] s2[m]).0 != key) by {
                    assert(forall|m: int| 0 <= m < s2.len() ==> s2[m] == s[i + m]);
            }
                lemma_map_of_mid(s1, key, value, s2);
                assert(map_of(self.data@) =~= map_of(s).insert(key as int, value@));
            }
        }
    }

    /// The keys after an insert: the new key, or a key that was present.
    pub open spec fn keys_below_after(&self, prev: &ColumnData, key: int) -> bool {
        forall|m: int|
            0 <= m < self.data@.len() ==> ((#[trigger] self.data@[m]).0 == key || exists|n: int|
                0 <= n < prev.data@.len() && (#[trigger] prev.data@[n]).0 == self.data@[m].0)
    }
}

/// Splicing one pair into a sequence whose other entries avoid its key
/// updates the held map at exactly that key.
pub proof fn lemma_map_of_mid(s1: Seq<(usize, String)>, key: usize, value: String, s2: Seq<(usize, String)>)
    requires
        forall|m: int| 0 <= m < s2.len() ==> (#[trigger] s2[m]).0 != key,
    ensures
        map_of(s1.push((key, value)) + s2) == map_of(s1 + s2).insert(key as int, value@),
    decreases s2.len(),
{
    if s2.len() == 0 {
        assert(s1.push((key, value)) + s2 =~= s1.push((key, value)));
        assert(s1 + s2 =~= s1);
        assert(s1.push((key, value)).drop_last() =~= s1);
        assert(map_of(s1.push((key, value))) == map_of(s1).insert(key as int, value@));
    } else {
        let x = s2.last();
        let s2p = s2.drop_last();
        lemma_map_of_mid(s1, key, value, s2p);
        assert(s1.push((key, value)) + s2 =~= (s1.push((key, value)) + s2p).push(x));
        assert(s1 + s2 =~= (s1 + s2p).push(x));
        assert((s1.push((key, value)) + s2p).push(x).drop_last() =~= s1.push((key, value)) + s2p);
        assert((s1 + s2p).push(x).drop_last() =~= s1 + s2p);
        assert(map_of((s1 + s2p).push(x)) == map_of(s1 + s2p).insert(x.0 as int, x.1@));
        assert(x.0 != key);
        assert(map_of(s1 + s2p).insert(key as int, value@).insert(x.0 as int, x.1@) =~= map_of(
            s1 + s2p,
        ).insert(x.0 as int, x.1@).insert(key as int, value@));
    }
}

/// A key is in the held map exactly when some entry carries it.
pub proof fn lemma_map_of_dom(s: Seq<(usize, String)>)
    ensures
        forall|k: int|
            map_of(s).dom().contains(k) <==> exists|i: int|
                0 <= i < s.len() && (#[trigger] s[i]).0 as int == k,
    decreases s.len(),
{
    if s.len() > 0 {
        let p = s.drop_last();
        lemma_map_of_dom(p);
        assert forall|k: int| map_of(s).dom().contains(k) implies exists|i: int|
            0 <= i < s.len() && (#[trigger] s[i]).0 as int == k by {
            if k == s.last().0 as int {
                assert((s[s.len() - 1]).0 as int == k);
            } else {
                assert(map_of(s) == map_of(p).insert(s.last().0 as int, s.last().1@));
                assert(map_of(p).dom().contains(k));
                let i = choose|i: int| 0 <= i < p.len() && (#[trigger] p[i]).0 as int == k;
                assert(p[i] == s[i]);
                assert((s[i]).0 as int == k);
            }
        }
        assert forall|k: int|
            (exists|i: int| 0 <= i < s.len() && (#[trigger] s[i]).0 as int == k) implies map_of(
            s,
        ).dom().contains(k) by {
            let i = choose|i: int| 0 <= i < s.len() && (#[trigger] s[i]).0 as int == k;
            if i < s.len() - 1 {
                assert(p[i] == s[i]);
                assert((p[i]).0 as int == k);
                assert(map_of(p).dom().contains(k));
            }
        }
    }
}

/// The name-to-row-index lookup held by the declaration-order pairs: a later
/// declaration of the same name wins.
pub open spec fn assoc_map(s: Seq<(String, usize)>) -> Map<Seq<char>, int>
    decreases s.len(),
{
    if s.len() == 0 {
        Map::empty()
    } else {
        assoc_map(s.drop_last()).insert(s.last().0@, s.last().1 as int)
    }
}

/// A hit scanned from the end is the lookup's answer.
pub proof fn lemma_assoc_found(s: Seq<(String, usize)>, k: Seq<char>, j: int)
    requires
        0 <= j < s.len(),
        s[j].0@ == k,
        forall|m: int| j < m < s.len() ==> (#[trigger] s[m]).0@ != k,
    ensures
        assoc_map(s).contains_key(k),
        assoc_map(s)[k] == s[j].1 as int,
    decreases s.len(),
{
    if j < s.len() - 1 {
        lemma_assoc_found(s.drop_last(), k, j);
    }
}

/// A name no entry carries is absent from the lookup.
pub proof fn lemma_assoc_absent(s: Seq<(String, usize)>, k: Seq<char>)
    requires
        forall|m: int| 0 <= m < s.len() ==> (#[trigger] s[m]).0@ != k,
    ensures
        !assoc_map(s).contains_key(k),
    decreases s.len(),
{
    if s.len() > 0 {
        lemma_assoc_absent(s.drop_last(), k);
    }
}

/// The aggregate result of a parse.
#[derive(Debug, PartialEq, Eq)]
pub struct Problem {
    /// The problem's name from the NAME line; non-empty after a successful
    /// parse.
    pub name: String,
    /// Reserved: no current interpreter sets a direction.
    pub objective: Option<Objective>,
    /// Rows in order of declaration; a row's position is its index.
    pub rows_by_index: Vec<RowDef>,
    /// Name-to-row-index pairs in order of declaration; on a re-declared
    /// name the later pair wins the lookup, while `rows_by_index` keeps both
    /// rows.
    pub rows_by_id: Vec<(String, usize)>,
    /// Structural columns keyed by column name, in order of first appearance.
    pub columns_by_id: Vec<(String, ColumnData)>,
    /// Right-hand-side vectors keyed by vector name, in order of first
    /// appearance.
    pub rhs_by_id: Vec<(String, ColumnData)>,
}

/// An association table: names in order of first appearance, each with the
/// sparse map it carries.
pub type Tab = Seq<(Seq<char>, Map<int, Seq<char>>)>;

pub open spec fn tab_of(s: Seq<(String, ColumnData)>) -> Tab {
    s.map_values(|p: (String, ColumnData)| (p.0@, p.1@))
}

/// The specification-level image of a `Problem` under construction.
#[verifier::ext_equal]
pub ghost struct ModelState {
    pub name: Seq<char>,
    pub rows: Seq<Row>,
    pub by_id: Map<Seq<char>, int>,
    pub cols: Tab,
    pub rhs: Tab,
}

impl ModelState {
    /// The state before any line is interpreted.
    pub open spec fn init() -> ModelState {
        ModelState {
            name: Seq::empty(),
            rows: Seq::empty(),
            by_id: Map::empty(),
            cols: Seq::empty(),
            rhs: Seq::empty(),
        }
    }

    /// Appending one row: it takes the next index, and its name wins the
    /// lookup even when already declared, while earlier rows stay in place.
    pub open spec fn add_row(self, name: Seq<char>, typ: RowType) -> ModelState {
        ModelState {
            rows: self.rows.push(Row { name, index: self.rows.len() as int, typ }),
            by_id: self.by_id.insert(name, self.rows.len() as int),
            ..self
        }
    }
}

impl View for Problem {
    type V = ModelState;

    open spec fn view(&self) -> ModelState {
        ModelState {
            name: self.name@,
            rows: self.rows_by_index@.map_values(|r: RowDef| r@),
            by_id: assoc_map(self.rows_by_id@),
            cols: tab_of(self.columns_by_id@),
            rhs: tab_of(self.rhs_by_id@),
        }
    }
}

impl Problem {
    /// Invariants of the model.  Row indices are dense in declaration order;
    /// a free row always follows the objective that demoted it; every lookup
    /// entry and every coefficient key names a declared row; column and RHS
    /// names are unique in their tables.
    #[verifier::opaque]
    pub open spec fn wf(&self) -> bool {
        let nrows = self.rows_by_index@.len() as int;
        &&& forall|i: int|
            0 <= i < self.rows_by_index@.len() ==> (#[trigger] self.rows_by_index@[i]).index == i
        &&& forall|j: int|
            0 <= j < self.rows_by_index@.len() && (#[trigger] self.rows_by_index@[j]).typ
                == RowType::NoRestriction ==> exists|i: int|
                0 <= i < j && (#[trigger] self.rows_by_index@[i]).typ == RowType::Objective
        &&& forall|i: int, j: int|
            0 <= i < j < self.rows_by_index@.len() && (#[trigger] self.rows_by_index@[i]).typ
                == RowType::Objective ==> (#[trigger] self.rows_by_index@[j]).typ
                != RowType::Objective
        &&& forall|i: int|
            0 <= i < self.rows_by_id@.len() ==> (#[trigger] self.rows_by_id@[i]).1 < nrows
        &&& wf_tab(self.columns_by_id@, nrows)
        &&& wf_tab(self.rhs_by_id@, nrows)
    }

    /// Record one declared row: it is appended to the ordered sequence with
    /// the next index, and its name wins the name lookup.
    #[verifier::rlimit(100)]
    #[verifier::spinoff_prover]
    pub fn push_row(&mut self, name: String, typ: RowType)
        requires
            old(self).wf(),
            typ == RowType::NoRestriction ==> exists|i: int|
                0 <= i < old(self).rows_by_index@.len() && (#[trigger] old(
                    self,
                ).rows_by_index@[i]).typ == RowType::Objective,
            typ == RowType::Objective ==> forall|i: int|
                0 <= i < old(self).rows_by_index@.len() ==> (#[trigger] old(
                    self,
                ).rows_by_index@[i]).typ != RowType::Objective,
        ensures
            final(self).wf(),
            final(self)@ == old(self)@.add_row(name@, typ),
            final(self).name == old(self).name,
            final(self).objective == old(self).objective,
            final(self).columns_by_id == old(self).columns_by_id,
            final(self).rhs_by_id == old(self).rhs_by_id,
            final(self).rows_by_index@ == old(self).rows_by_index@.push(
                RowDef { name, index: old(self).rows_by_index@.len() as usize, typ },
            ),
    {
        proof {
            reveal(Problem::wf);
        }
        let index = self.rows_by_index.len();
        let name2 = name.clone();
        let ghost rows0 = self.rows_by_index@;
        let ghost byid0 = self.rows_by_id@;
        self.rows_by_index.push(RowDef { name, index, typ });
        self.rows_by_id.push((name2, index));
        proof {
            assert(self.rows_by_index@.map_values(|rr: RowDef| rr@) =~= rows0.map_values(
                |rr: RowDef| rr@,
            ).push(Row { name: name@, index: rows0.len() as int, typ }));
            assert(self.rows_by_id@.drop_last() =~= byid0);
            assert(self@ =~= old(self)@.add_row(name@, typ));
            assert forall|a: int, b: int|
                0 <= a < b < self.rows_by_index@.len() && (#[trigger] self.rows_by_index@[a]).typ
                    == RowType::Objective implies (#[trigger] self.rows_by_index@[b]).typ
                != RowType::Objective by {
                if b < rows0.len() {
                    assert(self.rows_by_index@[a] == rows0[a]);
                    assert(self.rows_by_index@[b] == rows0[b]);
                } else {
                    assert(self.rows_by_index@[a] == rows0[a]);
                }
            }
            assert forall|j: int|
                0 <= j < self.rows_by_index@.len() && (#[trigger] self.rows_by_index@[j]).typ
                    == RowType::NoRestriction implies exists|i: int|
                0 <= i < j && (#[trigger] self.rows_by_index@[i]).typ == RowType::Objective by {
                if j < rows0.len() {
                    assert(rows0[j].typ == RowType::NoRestriction);
                    let i = choose|i: int|
                        0 <= i < j && (#[trigger] rows0[i]).typ == RowType::Objective;
                    assert(self.rows_by_index@[i].typ == RowType::Objective);
                } else {
                    let i = choose|i: int|
                        0 <= i < rows0.len() && (#[trigger] rows0[i]).typ == RowType::Objective;
                    assert(self.rows_by_index@[i].typ == RowType::Objective);
                }
            }
        }
    }

    pub fn new() -> (r: Problem)
        ensures
            r@ =~= ModelState::init(),
            r.wf(),
            r.name@.len() == 0,
            r.objective is None,
    {
        proof {
            reveal(Problem::wf);
        }
        Problem {
            name: String::new(),
            objective: None,
            rows_by_index: Vec::new(),
            rows_by_id: Vec::new(),
            columns_by_id: Vec::new(),
            rhs_by_id: Vec::new(),
        }
    }
}

/// Well-formedness of a column or RHS table against a row count.
pub open spec fn wf_tab(s: Seq<(String, ColumnData)>, nrows: int) -> bool {
    &&& forall|i: int, j: int|
        0 <= i < j < s.len() ==> (#[trigger] s[i]).0@ != (#[trigger] s[j]).0@
    &&& forall|i: int| 0 <= i < s.len() ==> (#[trigger] s[i]).1.wf()
    &&& forall|i: int| 0 <= i < s.len() ==> (#[trigger] s[i]).1.keys_below(nrows)
}

impl Default for Problem {
    /// An empty problem, as a parse starts from.
    fn default() -> (r: Problem)
        ensures
            r@ =~= ModelState::init(),
            r.wf(),
            r.objective is None,
    {
        Problem::new()
    }
}

impl Default for ColumnData {
    /// An empty sparse vector.
    fn default() -> (r: ColumnData)
        ensures
            r@ == Map::<int, Seq<char>>::empty(),
            r.wf(),
            r.data@.len() == 0,
    {
        ColumnData::new()
    }
}

/// Appending an entry with a fresh name keeps a table well-formed.
pub proof fn lemma_wf_tab_push(
    v0: Seq<(String, ColumnData)>,
    v2: Seq<(String, ColumnData)>,
    name: Seq<char>,
    nrows: int,
)
    requires
        wf_tab(v0, nrows),
        v2.len() == v0.len() + 1,
        forall|m: int| 0 <= m < v0.len() ==> v2[m] == v0[m],
        v2[v2.len() - 1].0@ == name,
        v2[v2.len() - 1].1.wf(),
        v2[v2.len() - 1].1.keys_below(nrows),
        forall|m: int| 0 <= m < v0.len() ==> (#[trigger] v0[m]).0@ != name,
    ensures
        wf_tab(v2, nrows),
{
    assert forall|i: int, j: int| 0 <= i < j < v2.len() implies (#[trigger] v2[i]).0@ != (
    #[trigger] v2[j]).0@ by {
        if j < v2.len() - 1 {
            assert(v2[i] == v0[i]);
            assert(v2[j] == v0[j]);
        } else {
            assert(v2[i] == v0[i]);
        }
    }
    assert forall|i: int| 0 <= i < v2.len() implies (#[trigger] v2[i]).1.wf() && (
    #[trigger] v2[i]).1.keys_below(nrows) by {
        if i < v2.len() - 1 {
            assert(v2[i] == v0[i]);
        }
    }
}

/// Unpacking the opaque well-formedness of a problem into the facts the
/// section interpreters work with.
#[verifier::rlimit(100)]
#[verifier::spinoff_prover]
pub proof fn lemma_wf_parts(p: &Problem)
    requires
        p.wf(),
    ensures
        forall|i: int|
            0 <= i < p.rows_by_id@.len() ==> (#[trigger] p.rows_by_id@[i]).1
                < p.rows_by_index@.len(),
        wf_tab(p.columns_by_id@, p.rows_by_index@.len() as int),
        wf_tab(p.rhs_by_id@, p.rows_by_index@.len() as int),
{
    reveal(Problem::wf);
}

/// A problem differing only in its name is as well-formed as before.
#[verifier::rlimit(100)]
#[verifier::spinoff_prover]
pub proof fn lemma_wf_set_name(p0: &Problem, p1: &Problem)
    requires
        p0.wf(),
        p1.objective == p0.objective,
        p1.rows_by_index == p0.rows_by_index,
        p1.rows_by_id == p0.rows_by_id,
        p1.columns_by_id == p0.columns_by_id,
        p1.rhs_by_id == p0.rhs_by_id,
    ensures
        p1.wf(),
{
    reveal(Problem::wf);
}

/// A problem whose column table changed stays well-formed when the new table
/// is itself well-formed against the unchanged rows.
#[verifier::rlimit(100)]
#[verifier::spinoff_prover]
pub proof fn lemma_wf_set_cols(p0: &Problem, p1: &Problem)
    requires
        p0.wf(),
        p1.name == p0.name,
        p1.objective == p0.objective,
        p1.rows_by_index == p0.rows_by_index,
        p1.rows_by_id == p0.rows_by_id,
        p1.rhs_by_id == p0.rhs_by_id,
        wf_tab(p1.columns_by_id@, p1.rows_by_index@.len() as int),
    ensures
        p1.wf(),
{
    reveal(Problem::wf);
}

/// As `lemma_wf_set_cols`, for the RHS table.
#[verifier::rlimit(100)]
#[verifier::spinoff_prover]
pub proof fn lemma_wf_set_rhs(p0: &Problem, p1: &Problem)
    requires
        p0.wf(),
        p1.name == p0.name,
        p1.objective == p0.objective,
        p1.rows_by_index == p0.rows_by_index,
        p1.rows_by_id == p0.rows_by_id,
        p1.columns_by_id == p0.columns_by_id,
        wf_tab(p1.rhs_by_id@, p1.rows_by_index@.len() as int),
    ensures
        p1.wf(),
{
    reveal(Problem::wf);
}

/// Replacing one entry's vector by a well-formed one keeps a table
/// well-formed.
pub proof fn lemma_wf_tab_update(
    v0: Seq<(String, ColumnData)>,
    v2: Seq<(String, ColumnData)>,
    i: int,
    nrows: int,
)
    requires
        wf_tab(v0, nrows),
        0 <= i < v0.len(),
        v2.len() == v0.len(),
        forall|m: int| 0 <= m < v0.len() && m != i ==> v2[m] == v0[m],
        v2[i].0 == v0[i].0,
        v2[i].1.wf(),
        v2[i].1.keys_below(nrows),
    ensures
        wf_tab(v2, nrows),
{
    assert forall|a: int, b: int| 0 <= a < b < v2.len() implies (#[trigger] v2[a]).0@ != (
    #[trigger] v2[b]).0@ by {
        assert(v2[a].0@ == v0[a].0@);
        assert(v2[b].0@ == v0[b].0@);
    }
    assert forall|m: int| 0 <= m < v2.len() implies (#[trigger] v2[m]).1.wf() && (
    #[trigger] v2[m]).1.keys_below(nrows) by {
        if m != i {
            assert(v2[m] == v0[m]);
        }
    }
}

/// What an insert leaves in a vector stays below a bound the old keys and
/// the new key respect.
pub proof fn lemma_keys_below_after(prev: &ColumnData, cur: &ColumnData, key: int, bound: int)
    requires
        prev.keys_below(bound),
        cur.keys_below_after(prev, key),
        key < bound,
    ensures
        cur.keys_below(bound),
{
    assert forall|m: int| 0 <= m < cur.data@.len() implies (#[trigger] cur.data@[m]).0
        < bound by {
        if cur.data@[m].0 != key {
            let n = choose|n: int|
                0 <= n < prev.data@.len() && (#[trigger] prev.data@[n]).0 == cur.data@[m].0;
            assert(prev.data@[n].0 < bound);
        }
    }
}

} // verus!
