//! The build's guarantees, stated and proved over the table model: equal
//! values share one index, first-seen indices never move, and a consistent
//! run's indices reconstruct every record exactly.

use vstd::prelude::*;
use crate::builder::{
    distinct_seqs, find_index, lemma_extends_trans, lemma_find_index, lemma_find_index_at,
    lemma_pair_step_ok, lemma_record_step_wf, pair_step, record_step, state_extends, state_wf,
    TableState,
};

verus! {

/// Whether the attribute name has a table.
pub open spec fn has_attribute(st: TableState, n: Seq<char>) -> bool {
    find_index(st.names, n) >= 0
}

/// The index assigned to value `v` of attribute `n`, or -1 when the value
/// has not been seen.
pub open spec fn value_index(st: TableState, n: Seq<char>, v: Seq<char>) -> int {
    if has_attribute(st, n) {
        find_index(st.tables[find_index(st.names, n)], v)
    } else {
        -1
    }
}

/// How many distinct values attribute `n` has accumulated.
pub open spec fn distinct_value_count(st: TableState, n: Seq<char>) -> int {
    if has_attribute(st, n) {
        st.tables[find_index(st.names, n)].len() as int
    } else {
        0
    }
}

/// Once assigned, a value's index never changes: any later table state that
/// extends the current one assigns the same index.
pub proof fn lemma_index_stable(st1: TableState, st2: TableState, n: Seq<char>, v: Seq<char>)
    requires
        state_wf(st1),
        state_wf(st2),
        state_extends(st1, st2),
        value_index(st1, n, v) >= 0,
    ensures
        value_index(st2, n, v) == value_index(st1, n, v),
{
    let p = find_index(st1.names, n);
    lemma_find_index(st1.names, n);
    assert(st2.names[p] == n);
    lemma_find_index_at(st2.names, n, p);
    let i = find_index(st1.tables[p], v);
    lemma_find_index(st1.tables[p], v);
    assert(st2.tables[p][i] == v);
    lemma_find_index_at(st2.tables[p], v, i);
}

/// The n-th distinct value encountered for an attribute is assigned index
/// n-1: a value not seen before gets exactly the count of values already in
/// the table, and afterwards holds that index.
pub proof fn lemma_first_seen_index(
    st: TableState,
    n: Seq<char>,
    v: Seq<char>,
    st1: TableState,
    idx: int,
)
    requires
        state_wf(st),
        value_index(st, n, v) == -1,
        pair_step(st, n, v) == Some::<(TableState, int)>((st1, idx)),
    ensures
        idx == distinct_value_count(st, n),
        value_index(st1, n, v) == idx,
        distinct_value_count(st1, n) == idx + 1,
{
    lemma_pair_step_ok(st, n, v, st1, idx);
    let p = if find_index(st.names, n) < 0 {
        st.names.len() as int
    } else {
        find_index(st.names, n)
    };
    assert(find_index(st1.names, n) == p);
    assert(find_index(st1.tables[p], v) == idx);
}

/// Deduplication: the same (attribute, value) pair, ingested at any two
/// points of one run, is assigned the same index.
pub proof fn lemma_dedup(
    st1: TableState,
    n: Seq<char>,
    v: Seq<char>,
    st1p: TableState,
    i1: int,
    st2: TableState,
    st2p: TableState,
    i2: int,
)
    requires
        state_wf(st1),
        state_wf(st2),
        pair_step(st1, n, v) == Some::<(TableState, int)>((st1p, i1)),
        state_extends(st1p, st2),
        pair_step(st2, n, v) == Some::<(TableState, int)>((st2p, i2)),
    ensures
        i2 == i1,
{
    lemma_pair_step_ok(st1, n, v, st1p, i1);
    lemma_pair_step_ok(st2, n, v, st2p, i2);
    assert(value_index(st1p, n, v) == i1);
    lemma_index_stable(st1p, st2, n, v);
    let p2 = find_index(st2.names, n);
    assert(p2 >= 0);
    assert(find_index(st2.tables[p2], v) == i1);
}

/// The names of a record's pairs, in pair order.
pub open spec fn record_names(pairs: Seq<(Seq<char>, Seq<char>)>) -> Seq<Seq<char>> {
    pairs.map_values(|p: (Seq<char>, Seq<char>)| p.0)
}

/// The state before any record is ingested.
pub open spec fn empty_state() -> TableState {
    TableState { names: Seq::<Seq<char>>::empty(), tables: Seq::<Seq<Seq<char>>>::empty() }
}

/// Folding a whole run's records into the tables, record by record. The
/// second component holds one index vector per record, or `None` when some
/// record overflows a table.
pub open spec fn run_steps(st: TableState, records: Seq<Seq<(Seq<char>, Seq<char>)>>) -> (
    TableState,
    Option<Seq<Seq<int>>>,
)
    decreases records.len(),
{
    if records.len() == 0 {
        (st, Some(Seq::<Seq<int>>::empty()))
    } else {
        let first = record_step(st, records[0]);
        match first.1 {
            Option::None => (first.0, Option::<Seq<Seq<int>>>::None),
            Option::Some(r0) => {
                let rest = run_steps(first.0, records.drop_first());
                (
                    rest.0,
                    match rest.1 {
                        Option::None => Option::<Seq<Seq<int>>>::None,
                        Option::Some(rs) => Some(seq![r0] + rs),
                    },
                )
            },
        }
    }
}

/// A record whose names are exactly the tail of the attribute order from
/// position `d` on folds in without touching names or earlier columns, and
/// each produced index addresses its own pair's value.
proof fn lemma_record_step_aligned(st: TableState, pairs: Seq<(Seq<char>, Seq<char>)>, d: int)
    requires
        state_wf(st),
        0 <= d,
        d + pairs.len() == st.names.len(),
        forall|j: int| 0 <= j < pairs.len() ==> (#[trigger] pairs[j]).0 == st.names[d + j],
    ensures
        ({
            let r = record_step(st, pairs);
            &&& r.0.names == st.names
            &&& r.0.tables.len() == st.tables.len()
            &&& forall|i: int| 0 <= i < d ==> #[trigger] r.0.tables[i] == st.tables[i]
            &&& r.1 matches Some(out) ==> out.len() == pairs.len() && (forall|j: int|
                0 <= j < pairs.len() ==> 0 <= #[trigger] out[j] < r.0.tables[d + j].len()
                    && r.0.tables[d + j][out[j]] == pairs[j].1)
        }),
    decreases pairs.len(),
{
    if pairs.len() == 0 {
    } else {
        let n0 = pairs[0].0;
        let v0 = pairs[0].1;
        assert(n0 == st.names[d]);
        lemma_find_index_at(st.names, n0, d);
        match pair_step(st, n0, v0) {
            Option::None => {
            },
            Option::Some(step) => {
                let sta = step.0;
                let idx0 = step.1;
                lemma_pair_step_ok(st, n0, v0, sta, idx0);
                assert(sta.names == st.names);
                let rest = pairs.drop_first();
                assert(forall|j: int|
                    0 <= j < rest.len() ==> (#[trigger] rest[j]).0 == sta.names[d + 1 + j]);
                lemma_record_step_aligned(sta, rest, d + 1);
                let r = record_step(sta, rest);
                assert(r.0.tables[d] == sta.tables[d]);
                assert(forall|i: int| 0 <= i < d ==> #[trigger] sta.tables[i] == st.tables[i]);
                match r.1 {
                    Option::None => {
                    },
                    Option::Some(out_rest) => {
                        let out = seq![idx0] + out_rest;
                        assert forall|j: int| 0 <= j < pairs.len() implies 0 <= #[trigger] out[j]
                            < r.0.tables[d + j].len() && r.0.tables[d + j][out[j]]
                            == pairs[j].1 by {
                            if j == 0 {
                                assert(out[0] == idx0);
                                assert(r.0.tables[d][idx0] == sta.tables[d][idx0]);
                            } else {
                                assert(out[j] == out_rest[j - 1]);
                                assert(rest[j - 1] == pairs[j]);
                            }
                        }
                    },
                }
            },
        }
    }
}

/// A record none of whose (duplicate-free) names are known yet appends its
/// names in order, opens one single-value table per pair, and assigns every
/// pair index 0.
proof fn lemma_record_step_fresh(st: TableState, pairs: Seq<(Seq<char>, Seq<char>)>)
    requires
        state_wf(st),
        distinct_seqs(record_names(pairs)),
        forall|j: int| 0 <= j < pairs.len() ==> find_index(st.names, (#[trigger] pairs[j]).0) == -1,
    ensures
        ({
            let r = record_step(st, pairs);
            &&& r.0.names == st.names + record_names(pairs)
            &&& r.0.tables.len() == r.0.names.len()
            &&& forall|i: int| 0 <= i < st.tables.len() ==> #[trigger] r.0.tables[i] == st.tables[i]
            &&& forall|j: int|
                0 <= j < pairs.len() ==> #[trigger] r.0.tables[st.names.len() + j] == seq![
                    pairs[j].1,
                ]
            &&& r.1 is Some
            &&& r.1 matches Some(out) ==> out.len() == pairs.len() && (forall|j: int|
                0 <= j < pairs.len() ==> #[trigger] out[j] == 0)
        }),
    decreases pairs.len(),
{
    if pairs.len() == 0 {
        assert(st.names + record_names(pairs) =~= st.names);
    } else {
        let n0 = pairs[0].0;
        let v0 = pairs[0].1;
        lemma_find_index(st.names, n0);
        assert(pair_step(st, n0, v0) == Some::<(TableState, int)>(
            (TableState { names: st.names.push(n0), tables: st.tables.push(seq![v0]) }, 0),
        ));
        let sta = TableState { names: st.names.push(n0), tables: st.tables.push(seq![v0]) };
        lemma_pair_step_ok(st, n0, v0, sta, 0);
        let rest = pairs.drop_first();
        assert(record_names(rest) =~= record_names(pairs).drop_first());
        assert forall|a: int, b: int|
            0 <= a < b < record_names(rest).len() implies record_names(rest)[a] != record_names(
            rest,
        )[b] by {
            assert(record_names(rest)[a] == record_names(pairs)[a + 1]);
            assert(record_names(rest)[b] == record_names(pairs)[b + 1]);
        }
        assert forall|j: int|
            0 <= j < rest.len() implies find_index(sta.names, (#[trigger] rest[j]).0) == -1 by {
            lemma_find_index(sta.names, rest[j].0);
            if find_index(sta.names, rest[j].0) >= 0 {
                let f = find_index(sta.names, rest[j].0);
                assert(sta.names[f] == rest[j].0);
                if f < st.names.len() {
                    lemma_find_index(st.names, rest[j].0);
                    assert(st.names[f] == rest[j].0);
                    assert(find_index(st.names, pairs[j + 1].0) == -1);
                    assert(false);
                } else {
                    assert(sta.names[f] == n0);
                    assert(record_names(pairs)[0] == n0);
                    assert(record_names(pairs)[j + 1] == rest[j].0);
                    assert(false);
                }
            }
        }
        lemma_record_step_fresh(sta, rest);
        let r = record_step(sta, rest);
        assert(r.0.names =~= st.names + record_names(pairs)) by {
            assert(r.0.names == sta.names + record_names(rest));
        }
        assert forall|j: int|
            0 <= j < pairs.len() implies #[trigger] r.0.tables[st.names.len() + j] == seq![
            pairs[j].1,
        ] by {
            if j == 0 {
                assert(r.0.tables[st.names.len() as int] == sta.tables[st.names.len() as int]);
                assert(sta.tables[st.names.len() as int] == seq![v0]);
            } else {
                assert(r.0.tables[sta.names.len() + (j - 1)] == seq![rest[j - 1].1]);
            }
        }
        match r.1 {
            Option::Some(out_rest) => {
                assert(record_step(st, pairs).1 matches Some(out) ==> out == seq![0int]
                    + out_rest);
            },
            Option::None => {
                assert(false);
            },
        }
    }
}

/// A run of records all carrying exactly the attribute order's names keeps
/// the order fixed, only grows the tables, and gives every produced index
/// vector one in-range index per attribute, addressing its own record's
/// value.
proof fn lemma_run_aligned(st: TableState, records: Seq<Seq<(Seq<char>, Seq<char>)>>)
    requires
        state_wf(st),
        forall|i: int| 0 <= i < records.len() ==> record_names(#[trigger] records[i]) == st.names,
    ensures
        ({
            let r = run_steps(st, records);
            &&& r.0.names == st.names
            &&& state_wf(r.0)
            &&& state_extends(st, r.0)
            &&& r.0.tables.len() == st.tables.len()
            &&& r.1 matches Some(rows) ==> rows.len() == records.len() && (forall|i: int|
                0 <= i < records.len() ==> (#[trigger] rows[i]).len() == st.names.len()) && (
            forall|i: int, j: int|
                0 <= i < records.len() && 0 <= j < st.names.len() ==> 0 <= #[trigger] rows[i][j]
                    < r.0.tables[j].len() && r.0.tables[j][rows[i][j]] == records[i][j].1)
        }),
    decreases records.len(),
{
    if records.len() == 0 {
    } else {
        let pairs = records[0];
        assert(record_names(pairs) == st.names);
        assert(pairs.len() == st.names.len()) by {
            assert(record_names(pairs).len() == pairs.len());
        }
        assert(forall|j: int| 0 <= j < pairs.len() ==> (#[trigger] pairs[j]).0 == st.names[j])
            by {
            assert(forall|j: int|
                0 <= j < pairs.len() ==> record_names(pairs)[j] == (#[trigger] pairs[j]).0);
        }
        lemma_record_step_aligned(st, pairs, 0);
        lemma_record_step_wf(st, pairs);
        let first = record_step(st, pairs);
        let sta = first.0;
        match first.1 {
            Option::None => {
            },
            Option::Some(r0) => {
                assert(forall|i: int|
                    0 <= i < records.drop_first().len() ==> record_names(
                        #[trigger] records.drop_first()[i],
                    ) == sta.names);
                lemma_run_aligned(sta, records.drop_first());
                let r = run_steps(sta, records.drop_first());
                lemma_extends_trans(st, sta, r.0);
                match r.1 {
                    Option::None => {
                    },
                    Option::Some(rest_rows) => {
                        let rows = seq![r0] + rest_rows;
                        assert forall|i: int, j: int|
                            0 <= i < records.len() && 0 <= j < st.names.len() implies 0
                            <= #[trigger] rows[i][j] < r.0.tables[j].len() && r.0.tables[j][rows[i][j]]
                            == records[i][j].1 by {
                            if i == 0 {
                                assert(rows[0] == r0);
                                assert(0 <= r0[j] < sta.tables[j].len());
                                assert(sta.tables[j][r0[j]] == pairs[j].1);
                                assert(r.0.tables[j][r0[j]] == sta.tables[j][r0[j]]);
                            } else {
                                assert(rows[i] == rest_rows[i - 1]);
                                assert(records.drop_first()[i - 1] == records[i]);
                            }
                        }
                        assert forall|i: int|
                            0 <= i < records.len() implies (#[trigger] rows[i]).len()
                            == st.names.len() by {
                            if i == 0 {
                                assert(rows[0] == r0);
                            } else {
                                assert(rows[i] == rest_rows[i - 1]);
                                assert(records.drop_first()[i - 1] == records[i]);
                            }
                        }
                    },
                }
            },
        }
    }
}

/// Round trip: when every record carries the same attribute names, in the
/// same order and without repetition, a successful run's final tables and
/// index vectors reconstruct every record's (name, value) pairs exactly —
/// and every index vector has one index per attribute.
pub proof fn lemma_round_trip(records: Seq<Seq<(Seq<char>, Seq<char>)>>)
    requires
        forall|i: int|
            0 <= i < records.len() ==> record_names(#[trigger] records[i]) == record_names(
                records[0],
            ),
        records.len() > 0 ==> distinct_seqs(record_names(records[0])),
    ensures
        ({
            let r = run_steps(empty_state(), records);
            &&& state_wf(r.0)
            &&& records.len() > 0 ==> r.0.names == record_names(records[0])
            &&& r.1 matches Some(rows) ==> rows.len() == records.len() && (forall|i: int|
                0 <= i < records.len() ==> (#[trigger] rows[i]).len() == r.0.names.len()
                    && rows[i].len() == records[i].len()) && (forall|i: int, j: int|
                0 <= i < records.len() && 0 <= j < records[i].len() ==> 0 <= #[trigger] rows[i][j]
                    < r.0.tables[j].len() && (r.0.names[j], r.0.tables[j][rows[i][j]])
                    == records[i][j])
        }),
{
    let st0 = empty_state();
    assert(state_wf(st0));
    if records.len() == 0 {
    } else {
        let pairs = records[0];
        assert(forall|j: int|
            0 <= j < pairs.len() ==> find_index(st0.names, (#[trigger] pairs[j]).0) == -1);
        lemma_record_step_fresh(st0, pairs);
        lemma_record_step_wf(st0, pairs);
        let first = record_step(st0, pairs);
        let sta = first.0;
        assert(sta.names =~= record_names(pairs));
        match first.1 {
            Option::None => {
                assert(false);
            },
            Option::Some(r0) => {
                assert(forall|i: int|
                    0 <= i < records.drop_first().len() ==> record_names(
                        #[trigger] records.drop_first()[i],
                    ) == sta.names);
                lemma_run_aligned(sta, records.drop_first());
                let r = run_steps(sta, records.drop_first());
                match r.1 {
                    Option::None => {
                    },
                    Option::Some(rest_rows) => {
                        let rows = seq![r0] + rest_rows;
                        assert forall|i: int|
                            0 <= i < records.len() implies (#[trigger] rows[i]).len()
                            == r.0.names.len() && rows[i].len() == records[i].len() by {
                            if i == 0 {
                                assert(rows[0] == r0);
                                assert(r0.len() == pairs.len());
                                assert(record_names(pairs).len() == pairs.len());
                            } else {
                                assert(rows[i] == rest_rows[i - 1]);
                                assert(records.drop_first()[i - 1] == records[i]);
                                assert(record_names(records[i]).len() == records[i].len());
                            }
                        }
                        assert forall|i: int, j: int|
                            0 <= i < records.len() && 0 <= j < records[i].len() implies 0
                            <= #[trigger] rows[i][j] < r.0.tables[j].len() && (
                        r.0.names[j], r.0.tables[j][rows[i][j]]) == records[i][j] by {
                            assert(record_names(records[i]).len() == records[i].len());
                            assert(record_names(records[i])[j] == records[i][j].0);
                            if i == 0 {
                                assert(rows[0] == r0);
                                assert(r0[j] == 0);
                                assert(sta.tables[st0.names.len() + j] == seq![pairs[j].1]);
                                assert(sta.tables[j][0] == pairs[j].1);
                                assert(0 < sta.tables[j].len());
                                assert(r.0.tables[j][0] == sta.tables[j][0]);
                                assert(r.0.names[j] == record_names(pairs)[j]);
                            } else {
                                assert(rows[i] == rest_rows[i - 1]);
                                assert(records.drop_first()[i - 1] == records[i]);
                                assert(r.0.names[j] == sta.names[j]);
                            }
                        }
                    },
                }
            },
        }
    }
}

} // verus!
