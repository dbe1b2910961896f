//! The trait-table builder: consumes item records one at a time, deduplicates
//! attribute values per attribute, assigns stable first-seen indices, and
//! emits one index vector per record.

use vstd::prelude::*;

verus! {

/// One attribute of an item record: a named trait category and the value
/// observed for it.
pub struct Attribute {
    pub trait_type: String,
    pub value: String,
}

impl DeepView for Attribute {
    type V = (Seq<char>, Seq<char>);

    open spec fn deep_view(&self) -> (Seq<char>, Seq<char>) {
        (self.trait_type@, self.value@)
    }
}

/// One input record: a content-derived identifier and the record's attribute
/// pairs, in the order the source supplied them.
pub struct ItemRecord {
    pub dna: String,
    pub attributes: Vec<Attribute>,
}

impl ItemRecord {
    /// The record's attribute pairs as mathematical values.
    pub open spec fn pairs(self) -> Seq<(Seq<char>, Seq<char>)> {
        self.attributes.deep_view()
    }
}

/// One encoded item: the identifier and the per-pair table indices.
pub struct EncodedItem {
    pub dna: String,
    pub indices: Vec<u8>,
}

/// The fatal conditions of a build run.
#[derive(Clone, Copy, Debug, PartialEq, Eq)]
pub enum BuildError {
    /// An attribute accumulated more than 256 distinct values.
    AttributeOverflow,
    /// An item's index vector does not line up with the attribute order.
    SchemaInconsistency,
}

/// The mathematical state of the trait tables: the attribute names in
/// first-seen order, and for each name the distinct values in first-seen
/// order.
pub struct TableState {
    pub names: Seq<Seq<char>>,
    pub tables: Seq<Seq<Seq<char>>>,
}

/// No element of the sequence occurs twice.
pub open spec fn distinct_seqs(s: Seq<Seq<char>>) -> bool {
    forall|i: int, j: int| 0 <= i < j < s.len() ==> s[i] != s[j]
}

/// Well-formedness of a table state: one value table per name, names unique,
/// values unique within each table, and no table beyond the 8-bit index
/// limit.
pub open spec fn state_wf(st: TableState) -> bool {
    &&& st.names.len() == st.tables.len()
    &&& distinct_seqs(st.names)
    &&& forall|i: int| 0 <= i < st.tables.len() ==> (#[trigger] st.tables[i]).len() <= 256
    &&& forall|i: int| 0 <= i < st.tables.len() ==> distinct_seqs(#[trigger] st.tables[i])
}

/// The position of the first occurrence of `x`, or -1 when `x` does not
/// occur.
pub open spec fn find_index(s: Seq<Seq<char>>, x: Seq<char>) -> int
    decreases s.len(),
{
    if s.len() == 0 {
        -1
    } else {
        let r = find_index(s.drop_last(), x);
        if r >= 0 {
            r
        } else if s.last() == x {
            s.len() - 1
        } else {
            -1
        }
    }
}

/// `find_index` returns the first occurrence, or -1 exactly when there is
/// none.
pub proof fn lemma_find_index(s: Seq<Seq<char>>, x: Seq<char>)
    ensures
        -1 <= find_index(s, x) < s.len(),
        find_index(s, x) >= 0 ==> s[find_index(s, x)] == x,
        forall|j: int|
            0 <= j < s.len() && (find_index(s, x) < 0 || j < find_index(s, x)) ==> #[trigger] s[j]
                != x,
    decreases s.len(),
{
    if s.len() > 0 {
        lemma_find_index(s.drop_last(), x);
        assert(forall|j: int| 0 <= j < s.len() - 1 ==> #[trigger] s[j] == s.drop_last()[j]);
    }
}

/// In a duplicate-free sequence, an element's position is its first
/// occurrence.
pub proof fn lemma_find_index_at(s: Seq<Seq<char>>, x: Seq<char>, i: int)
    requires
        distinct_seqs(s),
        0 <= i < s.len(),
        s[i] == x,
    ensures
        find_index(s, x) == i,
{
    lemma_find_index(s, x);
}

/// Folding one (name, value) pair into the tables: a new name opens a table
/// holding just the value at index 0; a known value keeps its first-seen
/// index; an unseen value is appended, unless the table is already at the
/// 8-bit limit, which is the unrecoverable overflow.
pub open spec fn pair_step(st: TableState, n: Seq<char>, v: Seq<char>) -> Option<(TableState, int)> {
    let i = find_index(st.names, n);
    if i < 0 {
        Some((TableState { names: st.names.push(n), tables: st.tables.push(seq![v]) }, 0))
    } else {
        let j = find_index(st.tables[i], v);
        if j >= 0 {
            Some((st, j))
        } else if st.tables[i].len() >= 256 {
            None
        } else {
            Some(
                (
                    TableState {
                        names: st.names,
                        tables: st.tables.update(i, st.tables[i].push(v)),
                    },
                    st.tables[i].len() as int,
                ),
            )
        }
    }
}

/// Folding a whole record's pairs into the tables, left to right. The second
/// component is the record's index vector, or `None` when some pair overflows
/// its table; the first is the table state reached, including the pairs
/// before the overflowing one.
pub open spec fn record_step(st: TableState, pairs: Seq<(Seq<char>, Seq<char>)>) -> (
    TableState,
    Option<Seq<int>>,
)
    decreases pairs.len(),
{
    if pairs.len() == 0 {
        (st, Some(Seq::<int>::empty()))
    } else {
        match pair_step(st, pairs[0].0, pairs[0].1) {
            Option::None => (st, Option::<Seq<int>>::None),
            Option::Some(step) => {
                let rest = record_step(step.0, pairs.drop_first());
                (
                    rest.0,
                    match rest.1 {
                        Option::None => Option::<Seq<int>>::None,
                        Option::Some(r) => Some(seq![step.1] + r),
                    },
                )
            },
        }
    }
}

/// The later state holds everything the earlier one held, at the same
/// positions: names are never reordered and tables only grow at the end.
pub open spec fn state_extends(a: TableState, b: TableState) -> bool {
    &&& a.names.len() <= b.names.len()
    &&& forall|i: int| 0 <= i < a.names.len() ==> #[trigger] b.names[i] == a.names[i]
    &&& a.tables.len() <= b.tables.len()
    &&& forall|i: int| 0 <= i < a.tables.len() ==> (#[trigger] a.tables[i]).len() <= b.tables[i].len()
    &&& forall|i: int, j: int|
        0 <= i < a.tables.len() && 0 <= j < a.tables[i].len() ==> #[trigger] b.tables[i][j]
            == a.tables[i][j]
}

pub proof fn lemma_extends_trans(a: TableState, b: TableState, c: TableState)
    requires
        state_extends(a, b),
        state_extends(b, c),
    ensures
        state_extends(a, c),
{
}

/// What a successful pair step guarantees: well-formedness and extension are
/// preserved, the name sits at a fixed position `p`, and the returned index
/// addresses exactly the given value in the table at `p`; no other table
/// changes.
pub proof fn lemma_pair_step_ok(st: TableState, n: Seq<char>, v: Seq<char>, st1: TableState, idx: int)
    requires
        state_wf(st),
        pair_step(st, n, v) == Some::<(TableState, int)>((st1, idx)),
    ensures
        state_wf(st1),
        state_extends(st, st1),
        ({
            let p = if find_index(st.names, n) < 0 {
                st.names.len() as int
            } else {
                find_index(st.names, n)
            };
            &&& 0 <= p < st1.names.len()
            &&& st1.names[p] == n
            &&& find_index(st1.names, n) == p
            &&& st1.names.len() as int == if find_index(st.names, n) < 0 {
                st.names.len() as int + 1
            } else {
                st.names.len() as int
            }
            &&& 0 <= idx < st1.tables[p].len()
            &&& st1.tables[p][idx] == v
            &&& find_index(st1.tables[p], v) == idx
            &&& forall|i: int|
                0 <= i < st.tables.len() && i != p ==> #[trigger] st1.tables[i] == st.tables[i]
        }),
{
    let i = find_index(st.names, n);
    lemma_find_index(st.names, n);
    if i < 0 {
        let p = st.names.len() as int;
        assert(st1.names =~= st.names.push(n));
        assert forall|a: int, b: int| 0 <= a < b < st1.names.len() implies st1.names[a]
            != st1.names[b] by {
            if b < p {
            } else {
                assert(st1.names[b] == n);
                assert(st1.names[a] == st.names[a]);
            }
        }
        lemma_find_index_at(st1.names, n, p);
        assert(st1.tables[p] =~= seq![v]);
        lemma_find_index_at(st1.tables[p], v, 0);
        assert(forall|q: int| 0 <= q < st.tables.len() ==> #[trigger] st1.tables[q] == st.tables[q]);
    } else {
        let p = i;
        let j = find_index(st.tables[p], v);
        lemma_find_index(st.tables[p], v);
        if j >= 0 {
            lemma_find_index_at(st1.tables[p], v, j);
        } else {
            let l = st.tables[p].len() as int;
            assert(st1.tables[p] =~= st.tables[p].push(v));
            assert forall|a: int, b: int| 0 <= a < b < st1.tables[p].len() implies st1.tables[p][a]
                != st1.tables[p][b] by {
                if b < l {
                } else {
                    assert(st1.tables[p][b] == v);
                    assert(st1.tables[p][a] == st.tables[p][a]);
                }
            }
            lemma_find_index_at(st1.tables[p], v, l);
            lemma_find_index_at(st1.names, n, p);
        }
    }
}

/// Folding a record preserves well-formedness, only extends the tables, and
/// yields exactly one index per pair on success.
pub proof fn lemma_record_step_wf(st: TableState, pairs: Seq<(Seq<char>, Seq<char>)>)
    requires
        state_wf(st),
    ensures
        state_wf(record_step(st, pairs).0),
        state_extends(st, record_step(st, pairs).0),
        record_step(st, pairs).1 matches Some(r) ==> r.len() == pairs.len(),
    decreases pairs.len(),
{
    if pairs.len() == 0 {
    } else {
        match pair_step(st, pairs[0].0, pairs[0].1) {
            Option::None => {
            },
            Option::Some(step) => {
                lemma_pair_step_ok(st, pairs[0].0, pairs[0].1, step.0, step.1);
                lemma_record_step_wf(step.0, pairs.drop_first());
                lemma_extends_trans(st, step.0, record_step(step.0, pairs.drop_first()).0);
            },
        }
    }
}

/// The trait-table builder: attribute names in first-seen order, and one
/// value table per name, grown record by record.
pub struct Builder {
    pub names: Vec<String>,
    pub tables: Vec<Vec<String>>,
}

impl Builder {
    /// The builder's tables as mathematical values.
    pub open spec fn state(self) -> TableState {
        TableState { names: self.names.deep_view(), tables: self.tables.deep_view() }
    }

    pub open spec fn wf(self) -> bool {
        state_wf(self.state())
    }

    /// A builder with no attributes and no values.
    pub fn new() -> (b: Builder)
        ensures
            b.wf(),
            b.state().names.len() == 0,
            b.state().tables.len() == 0,
    {
        let b = Builder { names: Vec::new(), tables: Vec::new() };
        proof {
            assert(b.state().names =~= Seq::<Seq<char>>::empty());
            assert(b.state().tables =~= Seq::<Seq<Seq<char>>>::empty());
        }
        b
    }
}

/// Linear search for a string, by first occurrence.
fn find_string(v: &Vec<String>, x: &String) -> (r: Option<usize>)
    ensures
        match r {
            Some(i) => i < v@.len() && find_index(v.deep_view(), x@) == i as int,
            None => find_index(v.deep_view(), x@) == -1,
        },
{
    let ghost s = v.deep_view();
    let mut i: usize = 0;
    while i < v.len()
        invariant
            i <= v@.len(),
            s == v.deep_view(),
            forall|j: int| 0 <= j < i ==> #[trigger] s[j] != x@,
        decreases v@.len() - i,
    {
        if v[i] == *x {
            proof {
                assert(s[i as int] == v@[i as int]@);
                lemma_find_index(s, x@);
                if find_index(s, x@) < i {
                    assert(false);
                }
                if find_index(s, x@) > i {
                    assert(s[i as int] != x@);
                    assert(false);
                }
            }
            return Some(i);
        }
        proof {
            assert(s[i as int] == v@[i as int]@);
        }
        i = i + 1;
    }
    proof {
        lemma_find_index(s, x@);
        if find_index(s, x@) >= 0 {
            assert(s[find_index(s, x@)] == x@);
            assert(false);
        }
    }
    None
}

impl Builder {
    /// Folds one (name, value) pair into the tables and returns the value's
    /// index, exactly as `pair_step` describes; fails only on the 8-bit
    /// overflow, leaving the builder unchanged.
    fn insert_pair(&mut self, name: &String, value: &String) -> (r: Result<u8, BuildError>)
        requires
            old(self).wf(),
        ensures
            final(self).wf(),
            match r {
                Ok(idx) => pair_step(old(self).state(), name@, value@) == Some::<(TableState, int)>(
                    (final(self).state(), idx as int),
                ),
                Err(e) => {
                    &&& e == BuildError::AttributeOverflow
                    &&& pair_step(old(self).state(), name@, value@) is None
                    &&& *final(self) == *old(self)
                },
            },
    {
        let ghost st0 = self.state();
        match find_string(&self.names, name) {
            Option::None => {
                self.names.push(name.clone());
                let mut table: Vec<String> = Vec::new();
                table.push(value.clone());
                self.tables.push(table);
                proof {
                    assert(self.names.deep_view() =~= st0.names.push(name@));
                    assert(table.deep_view() =~= seq![value@]);
                    assert(self.tables.deep_view() =~= st0.tables.push(seq![value@]));
                    assert(pair_step(st0, name@, value@) == Some::<(TableState, int)>(
                        (self.state(), 0),
                    ));
                    lemma_pair_step_ok(st0, name@, value@, self.state(), 0);
                }
                Ok(0u8)
            },
            Option::Some(p) => {
                proof {
                    assert(st0.tables[p as int].len() <= 256);
                }
                match find_string(&self.tables[p], value) {
                    Option::Some(j) => {
                        proof {
                            assert(self.tables.deep_view()[p as int] == self.tables@[p as int].deep_view());
                            assert(pair_step(st0, name@, value@) == Some::<(TableState, int)>(
                                (self.state(), j as int),
                            ));
                            lemma_pair_step_ok(st0, name@, value@, self.state(), j as int);
                        }
                        Ok(j as u8)
                    },
                    Option::None => {
                        proof {
                            assert(self.tables.deep_view()[p as int] == self.tables@[p as int].deep_view());
                        }
                        if self.tables[p].len() >= 256 {
                            Err(BuildError::AttributeOverflow)
                        } else {
                            let idx = self.tables[p].len();
                            self.tables[p].push(value.clone());
                            proof {
                                assert(self.tables@[p as int].deep_view() =~= st0.tables[
                                    p as int
                                ].push(value@));
                                assert(self.tables.deep_view() =~= st0.tables.update(
                                    p as int,
                                    st0.tables[p as int].push(value@),
                                ));
                                assert(pair_step(st0, name@, value@) == Some::<(TableState, int)>(
                                    (self.state(), idx as int),
                                ));
                                lemma_pair_step_ok(st0, name@, value@, self.state(), idx as int);
                            }
                            Ok(idx as u8)
                        }
                    },
                }
            },
        }
    }
}

/// An index vector as mathematical integers.
pub open spec fn indices_of(s: Seq<u8>) -> Seq<int> {
    s.map_values(|x: u8| x as int)
}

/// What `record_step` yields once the first pairs are already folded in:
/// the remaining pairs are folded from the current state, behind the indices
/// already produced.
pub open spec fn step_from(
    st: TableState,
    pairs: Seq<(Seq<char>, Seq<char>)>,
    k: int,
    done: Seq<int>,
) -> (TableState, Option<Seq<int>>) {
    let rest = record_step(st, pairs.skip(k));
    (
        rest.0,
        match rest.1 {
            Option::None => Option::<Seq<int>>::None,
            Option::Some(r) => Some(done + r),
        },
    )
}

proof fn lemma_step_from_zero(st: TableState, pairs: Seq<(Seq<char>, Seq<char>)>)
    ensures
        record_step(st, pairs) == step_from(st, pairs, 0, Seq::<int>::empty()),
{
    assert(pairs.skip(0) =~= pairs);
    match record_step(st, pairs).1 {
        Option::None => {
        },
        Option::Some(r) => {
            assert(Seq::<int>::empty() + r =~= r);
        },
    }
}

proof fn lemma_step_from_advance(
    st: TableState,
    pairs: Seq<(Seq<char>, Seq<char>)>,
    k: int,
    done: Seq<int>,
    st1: TableState,
    idx: int,
)
    requires
        0 <= k < pairs.len(),
        pair_step(st, pairs[k].0, pairs[k].1) == Some::<(TableState, int)>((st1, idx)),
    ensures
        step_from(st, pairs, k, done) == step_from(st1, pairs, k + 1, done.push(idx)),
{
    assert(pairs.skip(k)[0] == pairs[k]);
    assert(pairs.skip(k).drop_first() =~= pairs.skip(k + 1));
    match record_step(st1, pairs.skip(k + 1)).1 {
        Option::None => {
        },
        Option::Some(r) => {
            assert(done + (seq![idx] + r) =~= done.push(idx) + r);
        },
    }
}

proof fn lemma_step_from_stuck(
    st: TableState,
    pairs: Seq<(Seq<char>, Seq<char>)>,
    k: int,
    done: Seq<int>,
)
    requires
        0 <= k < pairs.len(),
        pair_step(st, pairs[k].0, pairs[k].1) is None,
    ensures
        step_from(st, pairs, k, done) == (st, Option::<Seq<int>>::None),
{
    assert(pairs.skip(k)[0] == pairs[k]);
}

proof fn lemma_step_from_done(st: TableState, pairs: Seq<(Seq<char>, Seq<char>)>, done: Seq<int>)
    ensures
        step_from(st, pairs, pairs.len() as int, done) == (st, Some(done)),
{
    assert(pairs.skip(pairs.len() as int) =~= Seq::<(Seq<char>, Seq<char>)>::empty());
    assert(done + Seq::<int>::empty() =~= done);
}

impl Builder {
    /// Folds one record into the tables and returns the record's encoded
    /// item: the identifier paired with one index per attribute pair, in pair
    /// order, exactly as `record_step` describes. Fails only when some
    /// attribute would exceed 256 distinct values; the pairs before the
    /// overflowing one are still folded in, as the run aborts there.
    pub fn ingest(&mut self, record: &ItemRecord) -> (r: Result<EncodedItem, BuildError>)
        requires
            old(self).wf(),
        ensures
            final(self).wf(),
            final(self).state() == record_step(old(self).state(), record.pairs()).0,
            match r {
                Ok(item) => {
                    &&& record_step(old(self).state(), record.pairs()).1 == Some(
                        indices_of(item.indices@),
                    )
                    &&& item.dna@ == record.dna@
                    &&& item.indices@.len() == record.attributes@.len()
                },
                Err(e) => {
                    &&& e == BuildError::AttributeOverflow
                    &&& record_step(old(self).state(), record.pairs()).1 is None
                },
            },
    {
        let ghost st0 = self.state();
        let ghost pairs = record.pairs();
        proof {
            lemma_step_from_zero(st0, pairs);
            assert(indices_of(Seq::<u8>::empty()) =~= Seq::<int>::empty());
        }
        let mut indices: Vec<u8> = Vec::new();
        let mut k: usize = 0;
        while k < record.attributes.len()
            invariant
                old(self).wf(),
                self.wf(),
                k <= record.attributes@.len(),
                st0 == old(self).state(),
                pairs == record.pairs(),
                pairs.len() == record.attributes@.len(),
                indices@.len() == k,
                record_step(st0, pairs) == step_from(
                    self.state(),
                    pairs,
                    k as int,
                    indices_of(indices@),
                ),
            decreases record.attributes@.len() - k,
        {
            let attr = &record.attributes[k];
            proof {
                assert(pairs[k as int] == (attr.trait_type@, attr.value@));
            }
            let ghost st_k = self.state();
            let ghost done = indices_of(indices@);
            match self.insert_pair(&attr.trait_type, &attr.value) {
                Ok(idx) => {
                    indices.push(idx);
                    proof {
                        lemma_step_from_advance(
                            st_k,
                            pairs,
                            k as int,
                            done,
                            self.state(),
                            idx as int,
                        );
                        assert(indices_of(indices@) =~= done.push(idx as int));
                    }
                    k = k + 1;
                },
                Err(e) => {
                    proof {
                        lemma_step_from_stuck(st_k, pairs, k as int, done);
                    }
                    return Err(e);
                },
            }
        }
        proof {
            lemma_step_from_done(self.state(), pairs, indices_of(indices@));
        }
        Ok(EncodedItem { dna: record.dna.clone(), indices })
    }
}

} // verus!
