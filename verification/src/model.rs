//! Mathematical model of per-key aggregation.
//!
//! A table of aggregates is modelled as a `Map` from a key (a byte
//! sequence) to the running count, sum, minimum and maximum of the values
//! observed for that key. Aggregating a sequence of records is a fold of
//! single observations into such a map; merging two maps joins the
//! aggregates of common keys pointwise. The laws proved here — the join is
//! commutative and associative, and aggregating a concatenation equals
//! merging the parts' aggregates — are what makes partitioned scanning
//! sound.

use vstd::prelude::*;

verus! {

/// Running aggregate of the values observed for one key.
pub ghost struct Agg {
    /// Number of observations; at least 1 for any key present in a table.
    pub count: int,
    /// Exact sum, in tenths, of all observed values.
    pub sum: int,
    /// Least observed value, in tenths.
    pub lo: int,
    /// Greatest observed value, in tenths.
    pub hi: int,
}

pub open spec fn min_i(a: int, b: int) -> int {
    if a <= b {
        a
    } else {
        b
    }
}

pub open spec fn max_i(a: int, b: int) -> int {
    if a >= b {
        a
    } else {
        b
    }
}

/// Aggregate of a single observation.
pub open spec fn agg_one(v: int) -> Agg {
    Agg { count: 1, sum: v, lo: v, hi: v }
}

/// Join of two aggregates of disjoint observation multisets.
pub open spec fn agg_join(a: Agg, b: Agg) -> Agg {
    Agg {
        count: a.count + b.count,
        sum: a.sum + b.sum,
        lo: min_i(a.lo, b.lo),
        hi: max_i(a.hi, b.hi),
    }
}

/// Adds one aggregate for key `k` into a table: joins with the key's
/// aggregate when the key is present, else inserts it fresh.
pub open spec fn table_upsert(m: Map<Seq<u8>, Agg>, k: Seq<u8>, a: Agg) -> Map<Seq<u8>, Agg> {
    if m.dom().contains(k) {
        m.insert(k, agg_join(m[k], a))
    } else {
        m.insert(k, a)
    }
}

/// Aggregate table of a sequence of `(key, value)` records.
pub open spec fn aggregate_of(recs: Seq<(Seq<u8>, int)>) -> Map<Seq<u8>, Agg>
    decreases recs.len(),
{
    if recs.len() == 0 {
        Map::empty()
    } else {
        table_upsert(aggregate_of(recs.drop_last()), recs.last().0, agg_one(recs.last().1))
    }
}

/// Merge of two aggregate tables: union of the keys, joining the
/// aggregates of keys present in both.
pub open spec fn combine_maps(m1: Map<Seq<u8>, Agg>, m2: Map<Seq<u8>, Agg>) -> Map<
    Seq<u8>,
    Agg,
> {
    Map::new(
        |k: Seq<u8>| m1.dom().contains(k) || m2.dom().contains(k),
        |k: Seq<u8>|
            if m1.dom().contains(k) && m2.dom().contains(k) {
                agg_join(m1[k], m2[k])
            } else if m1.dom().contains(k) {
                m1[k]
            } else {
                m2[k]
            },
    )
}

/// The set of keys occurring in a record sequence.
pub open spec fn rec_keys(recs: Seq<(Seq<u8>, int)>) -> Set<Seq<u8>>
    decreases recs.len(),
{
    if recs.len() == 0 {
        Set::empty()
    } else {
        rec_keys(recs.drop_last()).insert(recs.last().0)
    }
}

/// The join of two aggregates does not depend on their order.
pub proof fn lemma_agg_join_comm(a: Agg, b: Agg)
    ensures
        agg_join(a, b) == agg_join(b, a),
{
}

/// The join of three aggregates does not depend on grouping.
pub proof fn lemma_agg_join_assoc(a: Agg, b: Agg, c: Agg)
    ensures
        agg_join(agg_join(a, b), c) == agg_join(a, agg_join(b, c)),
{
}

/// Merging two aggregate tables is commutative.
pub proof fn lemma_combine_comm(m1: Map<Seq<u8>, Agg>, m2: Map<Seq<u8>, Agg>)
    ensures
        combine_maps(m1, m2) == combine_maps(m2, m1),
{
    assert(combine_maps(m1, m2) =~= combine_maps(m2, m1));
}

/// Merging aggregate tables is associative.
pub proof fn lemma_combine_assoc(m1: Map<Seq<u8>, Agg>, m2: Map<Seq<u8>, Agg>, m3: Map<Seq<u8>, Agg>)
    ensures
        combine_maps(combine_maps(m1, m2), m3) == combine_maps(m1, combine_maps(m2, m3)),
{
    assert(combine_maps(combine_maps(m1, m2), m3) =~= combine_maps(m1, combine_maps(m2, m3)));
}

/// The empty table is the unit of merging.
pub proof fn lemma_combine_empty(m: Map<Seq<u8>, Agg>)
    ensures
        combine_maps(Map::empty(), m) == m,
        combine_maps(m, Map::empty()) == m,
{
    assert(combine_maps(Map::empty(), m) =~= m);
    assert(combine_maps(m, Map::empty()) =~= m);
}

/// Adding one aggregate into a merged table equals merging with the
/// addition done on the right part alone.
pub proof fn lemma_upsert_combine(m1: Map<Seq<u8>, Agg>, m2: Map<Seq<u8>, Agg>, k: Seq<u8>, a: Agg)
    ensures
        table_upsert(combine_maps(m1, m2), k, a) == combine_maps(m1, table_upsert(m2, k, a)),
{
    assert(table_upsert(combine_maps(m1, m2), k, a) =~= combine_maps(m1, table_upsert(m2, k, a)));
}

/// Aggregating a concatenation of record sequences equals aggregating the
/// parts separately and merging the results: merging all at once and
/// merging pairwise agree.
pub proof fn lemma_aggregate_append(r1: Seq<(Seq<u8>, int)>, r2: Seq<(Seq<u8>, int)>)
    ensures
        aggregate_of(r1 + r2) == combine_maps(aggregate_of(r1), aggregate_of(r2)),
    decreases r2.len(),
{
    if r2.len() == 0 {
        assert(r1 + r2 =~= r1);
        lemma_combine_empty(aggregate_of(r1));
    } else {
        let r2p = r2.drop_last();
        lemma_aggregate_append(r1, r2p);
        assert((r1 + r2).drop_last() =~= r1 + r2p);
        assert((r1 + r2).last() == r2.last());
        lemma_upsert_combine(
            aggregate_of(r1),
            aggregate_of(r2p),
            r2.last().0,
            agg_one(r2.last().1),
        );
    }
}

/// The keys of an aggregate table are exactly the keys of the records it
/// was built from, and they are finitely many.
pub proof fn lemma_aggregate_dom(recs: Seq<(Seq<u8>, int)>)
    ensures
        aggregate_of(recs).dom() == rec_keys(recs),
        rec_keys(recs).finite(),
    decreases recs.len(),
{
    if recs.len() == 0 {
        assert(aggregate_of(recs).dom() =~= rec_keys(recs));
    } else {
        lemma_aggregate_dom(recs.drop_last());
        assert(aggregate_of(recs).dom() =~= rec_keys(recs));
    }
}

/// The keys of a concatenation are the union of the parts' keys.
pub proof fn lemma_rec_keys_append(r1: Seq<(Seq<u8>, int)>, r2: Seq<(Seq<u8>, int)>)
    ensures
        rec_keys(r1 + r2) == rec_keys(r1) + rec_keys(r2),
    decreases r2.len(),
{
    if r2.len() == 0 {
        assert(r1 + r2 =~= r1);
        assert(rec_keys(r1 + r2) =~= rec_keys(r1) + rec_keys(r2));
    } else {
        let r2p = r2.drop_last();
        lemma_rec_keys_append(r1, r2p);
        assert((r1 + r2).drop_last() =~= r1 + r2p);
        assert(rec_keys(r1 + r2) =~= rec_keys(r1) + rec_keys(r2));
    }
}

/// Sum of a sequence of values.
pub open spec fn seq_sum(vs: Seq<int>) -> int
    decreases vs.len(),
{
    if vs.len() == 0 {
        0
    } else {
        seq_sum(vs.drop_last()) + vs.last()
    }
}

/// Least value of a nonempty sequence.
pub open spec fn seq_min(vs: Seq<int>) -> int
    decreases vs.len(),
{
    if vs.len() <= 1 {
        vs[0]
    } else {
        min_i(seq_min(vs.drop_last()), vs.last())
    }
}

/// Greatest value of a nonempty sequence.
pub open spec fn seq_max(vs: Seq<int>) -> int
    decreases vs.len(),
{
    if vs.len() <= 1 {
        vs[0]
    } else {
        max_i(seq_max(vs.drop_last()), vs.last())
    }
}

/// The record sequence that observes one key once per value.
pub open spec fn const_key_recs(k: Seq<u8>, vs: Seq<int>) -> Seq<(Seq<u8>, int)> {
    vs.map_values(|v: int| (k, v))
}

/// Observing one key any number of times aggregates to exactly that
/// key, carrying the number of observations, their exact sum, and their
/// least and greatest value.
pub proof fn lemma_same_key_aggregate(k: Seq<u8>, vs: Seq<int>)
    requires
        vs.len() >= 1,
    ensures
        aggregate_of(const_key_recs(k, vs)).dom() =~= Set::<Seq<u8>>::empty().insert(k),
        aggregate_of(const_key_recs(k, vs))[k].count == vs.len(),
        aggregate_of(const_key_recs(k, vs))[k].sum == seq_sum(vs),
        aggregate_of(const_key_recs(k, vs))[k].lo == seq_min(vs),
        aggregate_of(const_key_recs(k, vs))[k].hi == seq_max(vs),
    decreases vs.len(),
{
    let recs = const_key_recs(k, vs);
    assert(recs.last() == (k, vs.last()));
    if vs.len() == 1 {
        assert(recs.drop_last() =~= Seq::<(Seq<u8>, int)>::empty());
        assert(aggregate_of(recs.drop_last()) =~= Map::<Seq<u8>, Agg>::empty());
        assert(seq_sum(vs.drop_last()) == 0);
        assert(seq_sum(vs) == vs[0]);
    } else {
        lemma_same_key_aggregate(k, vs.drop_last());
        assert(const_key_recs(k, vs.drop_last()) =~= recs.drop_last());
        assert(seq_sum(vs) == seq_sum(vs.drop_last()) + vs.last());
    }
}

/// Each record's key is among the keys of its sequence.
pub proof fn lemma_rec_keys_contains(recs: Seq<(Seq<u8>, int)>, q: int)
    requires
        0 <= q < recs.len(),
    ensures
        rec_keys(recs).contains(recs[q].0),
    decreases recs.len(),
{
    if q < recs.len() - 1 {
        lemma_rec_keys_contains(recs.drop_last(), q);
    }
}

/// Every key present in an aggregate table has been observed at least
/// once; a key observed exactly once carries that single observation:
/// its minimum, maximum and sum coincide.
pub proof fn lemma_single_observation(recs: Seq<(Seq<u8>, int)>, k: Seq<u8>)
    requires
        aggregate_of(recs).dom().contains(k),
    ensures
        aggregate_of(recs)[k].count >= 1,
        aggregate_of(recs)[k].count == 1 ==> {
            let a = aggregate_of(recs)[k];
            a.lo == a.hi && a.sum == a.lo
        },
    decreases recs.len(),
{
    if recs.len() == 0 {
    } else {
        let m = aggregate_of(recs.drop_last());
        if m.dom().contains(k) {
            lemma_single_observation(recs.drop_last(), k);
        }
    }
}

} // verus!
