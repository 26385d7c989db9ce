//! The aggregation table: a fixed-capacity open-addressing hash table
//! keyed by byte strings.
//!
//! Keys hash to a starting slot; collisions are resolved by linear
//! probing, and an exact byte comparison decides equality. There is no
//! deletion and no resizing, so an unoccupied slot definitively ends a
//! key's probe sequence. The table's abstract value is the map from each
//! stored key to its running aggregate; capacity is fixed, and filling
//! the table beyond it is reported as an error, never silent corruption.

use crate::model::agg_join;
use crate::model::agg_one;
use crate::model::combine_maps;
use crate::model::lemma_combine_empty;
use crate::model::lemma_upsert_combine;
use crate::model::table_upsert;
use crate::model::Agg;
use vstd::set_lib::lemma_len_subset;
use vstd::arithmetic::div_mod::lemma_fundamental_div_mod_converse;
use vstd::slice::slice_to_vec;
use vstd::prelude::*;

verus! {

/// Number of slots: a power of two sized to exceed the expected
/// distinct-key cardinality of the domain at a low load factor.
pub const CAP: usize = 32768;

/// Running aggregate of one key: count of observations and sum, minimum
/// and maximum of the observed values, all in tenths of a unit.
#[derive(Clone, Copy, PartialEq, Eq, Structural, Debug)]
pub struct StationData {
    pub min: i16,
    pub max: i16,
    pub count: u64,
    pub sum: i128,
}

impl Default for StationData {
    /// The state before any observation: sentinel extrema and zero
    /// count and sum.
    fn default() -> (d: Self)
        ensures
            d.min == i16::MAX,
            d.max == i16::MIN,
            d.count == 0,
            d.sum == 0,
    {
        StationData { min: i16::MAX, max: i16::MIN, count: 0, sum: 0 }
    }
}

/// The mathematical aggregate a `StationData` stands for.
pub open spec fn to_agg(sd: StationData) -> Agg {
    Agg { count: sd.count as int, sum: sd.sum as int, lo: sd.min as int, hi: sd.max as int }
}

/// A populated aggregate: at least one observation, extrema within the
/// decodable value range, and the sum bounded by count times the range.
pub open spec fn sd_wf(sd: StationData) -> bool {
    &&& 1 <= sd.count
    &&& -999 <= sd.min as int
    &&& sd.min as int <= sd.max as int
    &&& sd.max as int <= 999
    &&& -999 * (sd.count as int) <= sd.sum as int
    &&& sd.sum as int <= 999 * (sd.count as int)
}

/// Seed and multiplier of the byte-string hash.
pub const HASH_SEED: u64 = 0xcbf2_9ce4_8422_2325;

pub const HASH_PRIME: u64 = 0x100_0000_01b3;

/// A fast non-cryptographic hash over the key's bytes. Its distribution
/// is a performance concern only; correctness rests on exact byte
/// comparison.
pub open spec fn spec_hash(s: Seq<u8>) -> u64
    decreases s.len(),
{
    if s.len() == 0 {
        HASH_SEED
    } else {
        (spec_hash(s.drop_last()) ^ (s.last() as u64)).wrapping_mul(HASH_PRIME)
    }
}

/// The slot a key's probe sequence starts at.
pub open spec fn slot_of(k: Seq<u8>) -> int {
    spec_hash(k) as int % (CAP as int)
}

/// Cyclic distance from slot `h` forward to slot `i`.
pub open spec fn dist(h: int, i: int) -> int {
    (i - h) % (CAP as int)
}

/// Slot index `x` reduced into the table.
pub open spec fn wrap(x: int) -> int {
    x % (CAP as int)
}

fn hash_bytes(key: &[u8]) -> (h: u64)
    ensures
        h == spec_hash(key@),
{
    let n = key.len();
    let mut h = HASH_SEED;
    let mut i: usize = 0;
    while i < n
        invariant
            i <= n,
            n == key@.len(),
            h == spec_hash(key@.subrange(0, i as int)),
        decreases n - i,
    {
        h = (h ^ (key[i] as u64)).wrapping_mul(HASH_PRIME);
        proof {
            assert(key@.subrange(0, i + 1).drop_last() =~= key@.subrange(0, i as int));
            assert(key@.subrange(0, i + 1).last() == key@[i as int]);
        }
        i = i + 1;
    }
    proof {
        assert(key@.subrange(0, n as int) =~= key@);
    }
    h
}

/// Exact byte-for-byte comparison: the tie-break that makes hash
/// collisions harmless.
fn bytes_eq(a: &[u8], b: &[u8]) -> (r: bool)
    ensures
        r == (a@ == b@),
{
    let n = a.len();
    if n != b.len() {
        return false;
    }
    let mut i: usize = 0;
    while i < n
        invariant
            i <= n,
            n == a@.len(),
            n == b@.len(),
            forall|j: int| 0 <= j < i ==> a@[j] == b@[j],
        decreases n - i,
    {
        if a[i] != b[i] {
            return false;
        }
        i = i + 1;
    }
    proof {
        assert(a@ =~= b@);
    }
    true
}

/// Number of occupied slots among the first `n`.
pub open spec fn occ_count(keys: Seq<Option<Vec<u8>>>, n: int) -> int
    decreases n,
{
    if n <= 0 {
        0
    } else {
        occ_count(keys, n - 1) + if keys[n - 1] is Some {
            1int
        } else {
            0int
        }
    }
}

/// Total observation count stored in the occupied slots among the first
/// `n`.
pub open spec fn occ_sum(keys: Seq<Option<Vec<u8>>>, vals: Seq<StationData>, n: int) -> int
    decreases n,
{
    if n <= 0 {
        0
    } else {
        occ_sum(keys, vals, n - 1) + if keys[n - 1] is Some {
            vals[n - 1].count as int
        } else {
            0int
        }
    }
}

proof fn lemma_occ_count_bounds(keys: Seq<Option<Vec<u8>>>, n: int)
    ensures
        0 <= occ_count(keys, n) <= if n <= 0 {
            0
        } else {
            n
        },
    decreases n,
{
    if n > 0 {
        lemma_occ_count_bounds(keys, n - 1);
    }
}

proof fn lemma_occ_count_all_none(keys: Seq<Option<Vec<u8>>>, n: int)
    requires
        forall|j: int| 0 <= j < n ==> keys[j] is None,
    ensures
        occ_count(keys, n) == 0,
    decreases n,
{
    if n > 0 {
        lemma_occ_count_all_none(keys, n - 1);
    }
}

proof fn lemma_occ_sum_all_none(keys: Seq<Option<Vec<u8>>>, vals: Seq<StationData>, n: int)
    requires
        forall|j: int| 0 <= j < n ==> keys[j] is None,
    ensures
        occ_sum(keys, vals, n) == 0,
    decreases n,
{
    if n > 0 {
        lemma_occ_sum_all_none(keys, vals, n - 1);
    }
}

proof fn lemma_occ_count_all_some(keys: Seq<Option<Vec<u8>>>, n: int)
    requires
        forall|j: int| 0 <= j < n ==> keys[j] is Some,
    ensures
        occ_count(keys, n) == if n <= 0 {
            0
        } else {
            n
        },
    decreases n,
{
    if n > 0 {
        lemma_occ_count_all_some(keys, n - 1);
    }
}

proof fn lemma_occ_count_empty_slot(keys: Seq<Option<Vec<u8>>>, n: int, i: int)
    requires
        0 <= i < n,
        keys[i] is None,
    ensures
        occ_count(keys, n) <= n - 1,
    decreases n,
{
    lemma_occ_count_bounds(keys, n - 1);
    if i < n - 1 {
        lemma_occ_count_empty_slot(keys, n - 1, i);
    }
}

/// Filling one empty slot raises the occupied count by one.
proof fn lemma_occ_count_fill(keys: Seq<Option<Vec<u8>>>, i: int, kv: Vec<u8>, n: int)
    requires
        0 <= i < keys.len(),
        n <= keys.len(),
        keys[i] is None,
    ensures
        occ_count(keys.update(i, Some(kv)), n) == occ_count(keys, n) + if i < n {
            1int
        } else {
            0int
        },
    decreases n,
{
    if n > 0 {
        lemma_occ_count_fill(keys, i, kv, n - 1);
    }
}

/// Filling one empty slot adds that slot's count to the total.
proof fn lemma_occ_sum_fill(
    keys: Seq<Option<Vec<u8>>>,
    vals: Seq<StationData>,
    i: int,
    kv: Vec<u8>,
    sd: StationData,
    n: int,
)
    requires
        0 <= i < keys.len(),
        i < vals.len(),
        n <= keys.len(),
        n <= vals.len(),
        keys[i] is None,
    ensures
        occ_sum(keys.update(i, Some(kv)), vals.update(i, sd), n) == occ_sum(keys, vals, n)
            + if i < n {
            sd.count as int
        } else {
            0int
        },
    decreases n,
{
    if n > 0 {
        lemma_occ_sum_fill(keys, vals, i, kv, sd, n - 1);
    }
}

/// Replacing the aggregate of one occupied slot shifts the total by the
/// difference of the counts.
proof fn lemma_occ_sum_update(
    keys: Seq<Option<Vec<u8>>>,
    vals: Seq<StationData>,
    i: int,
    sd: StationData,
    n: int,
)
    requires
        0 <= i < keys.len(),
        i < vals.len(),
        n <= keys.len(),
        n <= vals.len(),
        keys[i] is Some,
    ensures
        occ_sum(keys, vals.update(i, sd), n) == occ_sum(keys, vals, n) + if i < n {
            sd.count as int - vals[i].count as int
        } else {
            0int
        },
    decreases n,
{
    if n > 0 {
        lemma_occ_sum_update(keys, vals, i, sd, n - 1);
    }
}

/// Any one occupied slot's count is at most the total, and the total is
/// nonnegative.
proof fn lemma_occ_sum_lower(keys: Seq<Option<Vec<u8>>>, vals: Seq<StationData>, i: int, n: int)
    requires
        0 <= i < n,
        keys[i] is Some,
    ensures
        vals[i].count as int <= occ_sum(keys, vals, n),
    decreases n,
{
    lemma_occ_sum_nonneg(keys, vals, n - 1);
    if i < n - 1 {
        lemma_occ_sum_lower(keys, vals, i, n - 1);
    }
}

proof fn lemma_occ_sum_nonneg(keys: Seq<Option<Vec<u8>>>, vals: Seq<StationData>, n: int)
    ensures
        0 <= occ_sum(keys, vals, n),
    decreases n,
{
    if n > 0 {
        lemma_occ_sum_nonneg(keys, vals, n - 1);
    }
}

/// The open-addressing aggregation table. Keys are stored as owned
/// copies of the record's key bytes, so a table never borrows from the
/// buffer it was filled from.
pub struct FastMap {
    keys: Vec<Option<Vec<u8>>>,
    vals: Vec<StationData>,
    used: u64,
    total: u64,
    view_gh: Ghost<Map<Seq<u8>, Agg>>,
}

impl View for FastMap {
    type V = Map<Seq<u8>, Agg>;

    /// The abstract value: each stored key mapped to its aggregate.
    closed spec fn view(&self) -> Map<Seq<u8>, Agg> {
        self.view_gh@
    }
}

impl FastMap {
    /// Slot `i` holds a key.
    pub closed spec fn occupied(self, i: int) -> bool {
        self.keys@[i] is Some
    }

    /// The key slot `i` holds.
    pub closed spec fn key_at(self, i: int) -> Seq<u8> {
        self.keys@[i].unwrap()@
    }

    /// Total number of observations folded into the table.
    pub closed spec fn total_obs(self) -> u64 {
        self.total
    }

    /// The probe chain of occupied slot `i`: every slot from its key's
    /// starting slot up to `i` (cyclically) is occupied, so a probe for
    /// that key never meets an empty slot before finding it.
    pub closed spec fn chain_ok(self, i: int) -> bool {
        forall|d: int|
            0 <= d < dist(slot_of(self.key_at(i)), i) ==> self.occupied(
                #[trigger] wrap(slot_of(self.key_at(i)) + d),
            )
    }

    /// Well-formedness: the arrays have the fixed capacity, the ghost
    /// map mirrors the occupied slots exactly, keys are stored at most
    /// once, probe chains are unbroken, every aggregate is populated and
    /// the occupancy and observation counters are correct.
    pub closed spec fn wf(self) -> bool {
        &&& self.keys@.len() == CAP
        &&& self.vals@.len() == CAP
        &&& self@.dom().finite()
        &&& self.used as int == self@.dom().len()
        &&& self.used as int == occ_count(self.keys@, CAP as int)
        &&& self.total as int == occ_sum(self.keys@, self.vals@, CAP as int)
        &&& forall|i: int|
            0 <= i < CAP && #[trigger] self.occupied(i) ==> self@.dom().contains(self.key_at(i))
                && self@[self.key_at(i)] == to_agg(self.vals@[i]) && sd_wf(self.vals@[i])
                && self.chain_ok(i)
        &&& forall|k: Seq<u8>|
            #[trigger] self@.dom().contains(k) ==> exists|i: int|
                0 <= i < CAP && self.occupied(i) && self.key_at(i) == k
        &&& forall|i: int, j: int|
            0 <= i < CAP && 0 <= j < CAP && i != j && #[trigger] self.occupied(i)
                && #[trigger] self.occupied(j) ==> self.key_at(i) != self.key_at(j)
    }

    /// An empty table.
    pub fn new() -> (t: FastMap)
        ensures
            t.wf(),
            t@ == Map::<Seq<u8>, Agg>::empty(),
            t.total_obs() == 0,
    {
        let mut keys: Vec<Option<Vec<u8>>> = Vec::new();
        let mut vals: Vec<StationData> = Vec::new();
        let mut i: usize = 0;
        while i < CAP
            invariant
                i <= CAP,
                keys@.len() == i as int,
                vals@.len() == i as int,
                forall|j: int| 0 <= j < i ==> keys@[j] is None,
            decreases CAP - i,
        {
            keys.push(None);
            vals.push(StationData::default());
            i = i + 1;
        }
        let t = FastMap {
            keys,
            vals,
            used: 0,
            total: 0,
            view_gh: Ghost(Map::empty()),
        };
        proof {
            lemma_occ_count_all_none(t.keys@, CAP as int);
            lemma_occ_sum_all_none(t.keys@, t.vals@, CAP as int);
            assert(t@.dom() =~= Set::<Seq<u8>>::empty());
        }
        t
    }
}

/// Wrapping one step of probe arithmetic: for a start slot and an
/// offset within the table, the wrapped slot and its distance from the
/// start.
proof fn lemma_wrap_dist(start: int, j: int)
    requires
        0 <= start < CAP,
        0 <= j < CAP,
    ensures
        wrap(start + j) == if start + j < CAP {
            start + j
        } else {
            start + j - CAP
        },
        0 <= wrap(start + j) < CAP,
        dist(start, wrap(start + j)) == j,
{
    let c = CAP as int;
    if start + j < c {
        lemma_fundamental_div_mod_converse(start + j, c, 0, start + j);
        lemma_fundamental_div_mod_converse(j, c, 0, j);
    } else {
        lemma_fundamental_div_mod_converse(start + j, c, 1, start + j - c);
        lemma_fundamental_div_mod_converse(j - c, c, -1, j);
    }
}

/// Every slot is reached by the probe sequence: the slot at the cyclic
/// distance from the start is the slot itself.
proof fn lemma_dist_inverse(start: int, t: int)
    requires
        0 <= start < CAP,
        0 <= t < CAP,
    ensures
        0 <= dist(start, t) < CAP,
        wrap(start + dist(start, t)) == t,
{
    let c = CAP as int;
    if t >= start {
        lemma_fundamental_div_mod_converse(t - start, c, 0, t - start);
        lemma_fundamental_div_mod_converse(t, c, 0, t);
    } else {
        lemma_fundamental_div_mod_converse(t - start, c, -1, t - start + c);
        lemma_fundamental_div_mod_converse(t + c, c, 1, t);
    }
}

/// The table held no free slot for a further distinct key.
#[derive(Clone, Copy, PartialEq, Eq, Structural, Debug)]
pub struct TableFull;

/// Where a key's probe sequence ends: at the key's own slot, at the
/// first unoccupied slot, or nowhere because every slot is occupied by
/// some other key.
enum Probe {
    At(usize),
    Free(usize),
    Full,
}

impl FastMap {
    /// Linear probing from the key's hashed slot: advance over occupied
    /// slots holding other keys; stop at the key itself or at the first
    /// unoccupied slot.
    fn probe_slot(&self, key: &[u8]) -> (r: Probe)
        requires
            self.wf(),
        ensures
            match r {
                Probe::At(i) => i < CAP && self.occupied(i as int) && self.key_at(i as int)
                    == key@ && self@.dom().contains(key@),
                Probe::Free(i) => {
                    &&& i < CAP
                    &&& !self.occupied(i as int)
                    &&& !self@.dom().contains(key@)
                    &&& self@.dom().len() < CAP
                    &&& forall|d: int|
                        0 <= d < dist(slot_of(key@), i as int) ==> self.occupied(
                            #[trigger] wrap(slot_of(key@) + d),
                        )
                },
                Probe::Full => !self@.dom().contains(key@) && self@.dom().len() == CAP,
            },
    {
        let h = hash_bytes(key);
        let start: usize = (h % (CAP as u64)) as usize;
        let mut j: usize = 0;
        while j < CAP
            invariant
                self.wf(),
                start as int == slot_of(key@),
                start < CAP,
                j <= CAP,
                forall|d: int|
                    0 <= d < j ==> self.occupied(#[trigger] wrap(start as int + d))
                        && self.key_at(wrap(start as int + d)) != key@,
            decreases CAP - j,
        {
            let idx: usize = (start + j) % CAP;
            proof {
                lemma_wrap_dist(start as int, j as int);
            }
            match &self.keys[idx] {
                None => {
                    proof {
                        if self@.dom().contains(key@) {
                            let i = choose|i: int|
                                0 <= i < CAP && self.occupied(i) && self.key_at(i) == key@;
                            let d = dist(start as int, i);
                            lemma_dist_inverse(start as int, i);
                            if d < j {
                                assert(self.occupied(wrap(start as int + d)));
                                assert(self.key_at(wrap(start as int + d)) != key@);
                                assert(false);
                            } else if d == j {
                                assert(false);
                            } else {
                                assert(self.chain_ok(i));
                                assert(self.occupied(wrap(slot_of(self.key_at(i)) + j)));
                                assert(false);
                            }
                        }
                        lemma_occ_count_empty_slot(self.keys@, CAP as int, idx as int);
                    }
                    return Probe::Free(idx);
                },
                Some(stored) => {
                    if bytes_eq(stored.as_slice(), key) {
                        proof {
                            assert(self.occupied(idx as int));
                            assert(self.key_at(idx as int) == key@);
                        }
                        return Probe::At(idx);
                    }
                },
            }
            j = j + 1;
        }
        proof {
            assert forall|t: int| 0 <= t < CAP implies self.keys@[t] is Some by {
                lemma_dist_inverse(start as int, t);
                assert(self.occupied(wrap(start as int + dist(start as int, t))));
                assert(self.occupied(t));
            }
            lemma_occ_count_all_some(self.keys@, CAP as int);
            if self@.dom().contains(key@) {
                let i = choose|i: int| 0 <= i < CAP && self.occupied(i) && self.key_at(i) == key@;
                let d = dist(start as int, i);
                lemma_dist_inverse(start as int, i);
                assert(self.key_at(wrap(start as int + d)) != key@);
                assert(false);
            }
        }
        Probe::Full
    }

    /// Folds one populated aggregate for `key` into the table: joins it
    /// with the key's current aggregate, or stores it in the first free
    /// slot of the key's probe sequence when the key is new. Fails
    /// exactly when the key is new and every slot is taken.
    pub fn upsert(&mut self, key: &[u8], sd: StationData) -> (r: Result<(), TableFull>)
        requires
            old(self).wf(),
            sd_wf(sd),
            old(self).total_obs() + sd.count <= u64::MAX,
        ensures
            final(self).wf(),
            match r {
                Ok(()) => {
                    &&& final(self)@ == table_upsert(old(self)@, key@, to_agg(sd))
                    &&& final(self).total_obs() == old(self).total_obs() + sd.count
                    &&& old(self)@.dom().contains(key@) || old(self)@.dom().len() < CAP
                },
                Err(_) => {
                    &&& final(self)@ == old(self)@
                    &&& final(self).total_obs() == old(self).total_obs()
                    &&& !old(self)@.dom().contains(key@)
                    &&& old(self)@.dom().len() == CAP
                },
            },
    {
        match self.probe_slot(key) {
            Probe::At(i) => {
                let cur = self.vals[i];
                proof {
                    lemma_occ_sum_lower(self.keys@, self.vals@, i as int, CAP as int);
                }
                let joined = StationData {
                    min: if sd.min < cur.min {
                        sd.min
                    } else {
                        cur.min
                    },
                    max: if sd.max > cur.max {
                        sd.max
                    } else {
                        cur.max
                    },
                    count: cur.count + sd.count,
                    sum: cur.sum + sd.sum,
                };
                proof {
                    lemma_occ_sum_update(self.keys@, self.vals@, i as int, joined, CAP as int);
                }
                self.vals[i] = joined;
                self.total = self.total + sd.count;
                self.view_gh = Ghost(
                    table_upsert(old(self).view_gh@, key@, to_agg(sd)),
                );
                proof {
                    assert(self@ == old(self)@.insert(key@, agg_join(old(self)@[key@], to_agg(sd))));
                    assert(self@.dom() =~= old(self)@.dom());
                    assert(to_agg(joined) == agg_join(to_agg(old(self).vals@[i as int]), to_agg(sd)));
                    assert forall|t: int|
                        0 <= t < CAP && #[trigger] self.occupied(t) implies self@.dom().contains(
                        self.key_at(t),
                    ) && self@[self.key_at(t)] == to_agg(self.vals@[t]) && sd_wf(self.vals@[t])
                        && self.chain_ok(t) by {
                        assert(old(self).occupied(t));
                        assert(old(self).chain_ok(t));
                        if t != i as int {
                            assert(self.key_at(t) != key@);
                        }
                        assert forall|d: int|
                            0 <= d < dist(slot_of(self.key_at(t)), t) implies self.occupied(
                            #[trigger] wrap(slot_of(self.key_at(t)) + d),
                        ) by {
                            assert(old(self).occupied(wrap(slot_of(old(self).key_at(t)) + d)));
                        }
                    }
                    assert forall|k2: Seq<u8>| #[trigger]
                        self@.dom().contains(k2) implies exists|t: int|
                        0 <= t < CAP && self.occupied(t) && self.key_at(t) == k2 by {
                        let t = choose|t: int|
                            0 <= t < CAP && old(self).occupied(t) && old(self).key_at(t) == k2;
                        assert(self.occupied(t) && self.key_at(t) == k2);
                    }
                    assert forall|a: int, b: int|
                        0 <= a < CAP && 0 <= b < CAP && a != b && #[trigger] self.occupied(a)
                            && #[trigger] self.occupied(b) implies self.key_at(a)
                        != self.key_at(b) by {
                        assert(old(self).occupied(a));
                        assert(old(self).occupied(b));
                    }
                    assert(self@.dom().finite());
                    assert(self.used as int == self@.dom().len());
                    assert(self.used as int == occ_count(self.keys@, CAP as int));
                    assert(self.total as int == occ_sum(self.keys@, self.vals@, CAP as int));
                }
                Ok(())
            },
            Probe::Free(i) => {
                let kv: Vec<u8> = slice_to_vec(key);
                proof {
                    lemma_occ_count_fill(self.keys@, i as int, kv, CAP as int);
                    lemma_occ_sum_fill(self.keys@, self.vals@, i as int, kv, sd, CAP as int);
                    vstd::set::axiom_set_insert_len(self@.dom(), key@);
                }
                self.keys[i] = Some(kv);
                self.vals[i] = sd;
                self.used = self.used + 1;
                self.total = self.total + sd.count;
                self.view_gh = Ghost(old(self).view_gh@.insert(key@, to_agg(sd)));
                proof {
                    assert(self@.dom() =~= old(self)@.dom().insert(key@));
                    assert forall|t: int|
                        0 <= t < CAP && #[trigger] self.occupied(t) implies self@.dom().contains(
                        self.key_at(t),
                    ) && self@[self.key_at(t)] == to_agg(self.vals@[t]) && sd_wf(self.vals@[t])
                        && self.chain_ok(t) by {
                        if t == i as int {
                            assert(self.key_at(t) == key@);
                            assert forall|d: int|
                                0 <= d < dist(slot_of(self.key_at(t)), t) implies self.occupied(
                                #[trigger] wrap(slot_of(self.key_at(t)) + d),
                            ) by {
                                assert(old(self).occupied(wrap(slot_of(key@) + d)));
                            }
                        } else {
                            assert(old(self).occupied(t));
                            assert(old(self).key_at(t) == self.key_at(t));
                            assert(self.key_at(t) != key@);
                            assert(old(self).chain_ok(t));
                            assert forall|d: int|
                                0 <= d < dist(slot_of(self.key_at(t)), t) implies self.occupied(
                                #[trigger] wrap(slot_of(self.key_at(t)) + d),
                            ) by {
                                assert(old(self).occupied(wrap(slot_of(old(self).key_at(t)) + d)));
                            }
                        }
                    }
                    assert forall|k2: Seq<u8>| #[trigger]
                        self@.dom().contains(k2) implies exists|t: int|
                        0 <= t < CAP && self.occupied(t) && self.key_at(t) == k2 by {
                        if k2 == key@ {
                            assert(self.occupied(i as int) && self.key_at(i as int) == k2);
                        } else {
                            let t = choose|t: int|
                                0 <= t < CAP && old(self).occupied(t) && old(self).key_at(t) == k2;
                            assert(self.occupied(t) && self.key_at(t) == k2);
                        }
                    }
                    assert(self@ == table_upsert(old(self)@, key@, to_agg(sd)));
                    assert forall|a: int, b: int|
                        0 <= a < CAP && 0 <= b < CAP && a != b && #[trigger] self.occupied(a)
                            && #[trigger] self.occupied(b) implies self.key_at(a)
                        != self.key_at(b) by {
                        if a == i as int {
                            assert(old(self).occupied(b));
                            assert(old(self)@.dom().contains(old(self).key_at(b)));
                        } else if b == i as int {
                            assert(old(self).occupied(a));
                            assert(old(self)@.dom().contains(old(self).key_at(a)));
                        } else {
                            assert(old(self).occupied(a));
                            assert(old(self).occupied(b));
                        }
                    }
                    assert(self@.dom().finite());
                    assert(self.used as int == self@.dom().len());
                    assert(self.used as int == occ_count(self.keys@, CAP as int));
                    assert(self.total as int == occ_sum(self.keys@, self.vals@, CAP as int));
                }
                Ok(())
            },
            Probe::Full => Err(TableFull),
        }
    }
}

proof fn lemma_occ_sum_mono(keys: Seq<Option<Vec<u8>>>, vals: Seq<StationData>, a: int, b: int)
    requires
        a <= b,
    ensures
        occ_sum(keys, vals, a) <= occ_sum(keys, vals, b),
    decreases b - a,
{
    if a < b {
        lemma_occ_sum_mono(keys, vals, a, b - 1);
    }
}

impl FastMap {
    /// Folds one observation of `key`, with value `v` in tenths, into
    /// the table. Fails exactly when the key is new and every slot is
    /// taken.
    pub fn observe(&mut self, key: &[u8], v: i16) -> (r: Result<(), TableFull>)
        requires
            old(self).wf(),
            -999 <= v <= 999,
            old(self).total_obs() < u64::MAX,
        ensures
            final(self).wf(),
            match r {
                Ok(()) => {
                    &&& final(self)@ == table_upsert(old(self)@, key@, agg_one(v as int))
                    &&& final(self).total_obs() == old(self).total_obs() + 1
                    &&& old(self)@.dom().contains(key@) || old(self)@.dom().len() < CAP
                },
                Err(_) => {
                    &&& final(self)@ == old(self)@
                    &&& final(self).total_obs() == old(self).total_obs()
                    &&& !old(self)@.dom().contains(key@)
                    &&& old(self)@.dom().len() == CAP
                },
            },
    {
        let sd = StationData { min: v, max: v, count: 1, sum: v as i128 };
        proof {
            assert(to_agg(sd) == agg_one(v as int));
        }
        self.upsert(key, sd)
    }

    /// Looks a key up by exact byte equality; `None` exactly when the
    /// key was never observed.
    pub fn get(&self, key: &[u8]) -> (r: Option<StationData>)
        requires
            self.wf(),
        ensures
            match r {
                Some(sd) => self@.dom().contains(key@) && to_agg(sd) == self@[key@],
                None => !self@.dom().contains(key@),
            },
    {
        match self.probe_slot(key) {
            Probe::At(i) => {
                proof {
                    assert(self.occupied(i as int));
                }
                Some(self.vals[i])
            },
            _ => None,
        }
    }

    /// Total number of observations folded into the table.
    pub fn observations(&self) -> (r: u64)
        ensures
            r == self.total_obs(),
    {
        self.total
    }

    /// Number of distinct keys stored.
    pub fn distinct_keys(&self) -> (r: u64)
        requires
            self.wf(),
        ensures
            r as int == self@.dom().len(),
    {
        self.used
    }

    /// Every `(key, aggregate)` pair of the table, each distinct key
    /// exactly once, in unspecified slot order.
    pub fn entries(&self) -> (r: Vec<(Vec<u8>, StationData)>)
        requires
            self.wf(),
        ensures
            r@.len() == self@.dom().len(),
            forall|n: int|
                0 <= n < r@.len() ==> self@.dom().contains(#[trigger] r@[n].0@) && to_agg(
                    r@[n].1,
                ) == self@[r@[n].0@],
            forall|n: int, m: int|
                0 <= n < r@.len() && 0 <= m < r@.len() && n != m ==> r@[n].0@ != r@[m].0@,
            forall|k: Seq<u8>|
                #[trigger] self@.dom().contains(k) ==> exists|n: int|
                    0 <= n < r@.len() && r@[n].0@ == k,
    {
        let mut r: Vec<(Vec<u8>, StationData)> = Vec::new();
        let ghost mut slots: Seq<int> = Seq::empty();
        let mut i: usize = 0;
        while i < CAP
            invariant
                self.wf(),
                i <= CAP,
                r@.len() == occ_count(self.keys@, i as int),
                slots.len() == r@.len(),
                forall|n: int|
                    0 <= n < slots.len() ==> 0 <= #[trigger] slots[n] < i && self.occupied(
                        slots[n],
                    ) && self.key_at(slots[n]) == r@[n].0@ && to_agg(r@[n].1) == self@[r@[n].0@],
                forall|n: int, m: int| 0 <= n < m < slots.len() ==> slots[n] < slots[m],
                forall|t: int|
                    0 <= t < i && #[trigger] self.occupied(t) ==> exists|n: int|
                        0 <= n < slots.len() && slots[n] == t,
            decreases CAP - i,
        {
            match &self.keys[i] {
                Some(kv) => {
                    proof {
                        assert(self.occupied(i as int));
                    }
                    let ghost slots0 = slots;
                    r.push((slice_to_vec(kv.as_slice()), self.vals[i]));
                    proof {
                        slots = slots0.push(i as int);
                        assert forall|t: int|
                            0 <= t < i + 1 && #[trigger] self.occupied(t) implies exists|n: int|
                            0 <= n < slots.len() && slots[n] == t by {
                            if t == i as int {
                                assert(slots[slots.len() - 1] == t);
                            } else {
                                let n = choose|n: int| 0 <= n < slots0.len() && slots0[n] == t;
                                assert(slots[n] == t);
                            }
                        }
                    }
                },
                None => {},
            }
            i = i + 1;
        }
        proof {
            assert(r@.len() == self@.dom().len());
            assert forall|n: int|
                0 <= n < r@.len() implies self@.dom().contains(#[trigger] r@[n].0@) && to_agg(
                r@[n].1,
            ) == self@[r@[n].0@] by {
                assert(self.occupied(slots[n]));
            }
            assert forall|n: int, m: int|
                0 <= n < r@.len() && 0 <= m < r@.len() && n != m implies r@[n].0@ != r@[m].0@ by {
                assert(slots[n] != slots[m]) by {
                    if n < m {
                        assert(slots[n] < slots[m]);
                    } else {
                        assert(slots[m] < slots[n]);
                    }
                }
                assert(self.occupied(slots[n]));
                assert(self.occupied(slots[m]));
            }
            assert forall|k: Seq<u8>| #[trigger]
                self@.dom().contains(k) implies exists|n: int|
                0 <= n < r@.len() && r@[n].0@ == k by {
                let t = choose|t: int| 0 <= t < CAP && self.occupied(t) && self.key_at(t) == k;
                assert(self.occupied(t));
                let n = choose|n: int| 0 <= n < slots.len() && slots[n] == t;
                assert(r@[n].0@ == k);
            }
        }
        r
    }

    /// The abstract value of the first `n` slots alone.
    pub closed spec fn prefix_view(self, n: int) -> Map<Seq<u8>, Agg>
        decreases n,
    {
        if n <= 0 {
            Map::empty()
        } else if self.keys@[n - 1] is Some {
            table_upsert(
                self.prefix_view(n - 1),
                self.key_at(n - 1),
                to_agg(self.vals@[n - 1]),
            )
        } else {
            self.prefix_view(n - 1)
        }
    }

    /// The prefix view holds exactly the keys of the occupied slots
    /// before `n`, each at its slot's aggregate.
    proof fn lemma_prefix_view_partial(self, n: int)
        requires
            self.wf(),
            0 <= n <= CAP,
        ensures
            self.prefix_view(n).dom().finite(),
            forall|k: Seq<u8>|
                #[trigger] self.prefix_view(n).dom().contains(k) ==> exists|t: int|
                    0 <= t < n && self.occupied(t) && self.key_at(t) == k,
            forall|t: int|
                0 <= t < n && #[trigger] self.occupied(t) ==> self.prefix_view(n).dom().contains(
                    self.key_at(t),
                ) && self.prefix_view(n)[self.key_at(t)] == to_agg(self.vals@[t]),
        decreases n,
    {
        if n > 0 {
            self.lemma_prefix_view_partial(n - 1);
            if self.keys@[n - 1] is Some {
                assert(self.occupied(n - 1));
                let kn = self.key_at(n - 1);
                assert(!self.prefix_view(n - 1).dom().contains(kn)) by {
                    if self.prefix_view(n - 1).dom().contains(kn) {
                        let t = choose|t: int|
                            0 <= t < n - 1 && self.occupied(t) && self.key_at(t) == kn;
                        assert(self.key_at(t) != self.key_at(n - 1));
                    }
                }
                assert forall|t: int|
                    0 <= t < n && #[trigger] self.occupied(t) implies self.prefix_view(
                    n,
                ).dom().contains(self.key_at(t)) && self.prefix_view(n)[self.key_at(t)] == to_agg(
                    self.vals@[t],
                ) by {
                    if t < n - 1 {
                        assert(self.key_at(t) != kn);
                    }
                }
            }
        }
    }

    /// The whole table's prefix view is its abstract value.
    proof fn lemma_prefix_view_full(self)
        requires
            self.wf(),
        ensures
            self.prefix_view(CAP as int) == self@,
    {
        self.lemma_prefix_view_partial(CAP as int);
        assert forall|k: Seq<u8>| #[trigger]
            self@.dom().contains(k) implies self.prefix_view(CAP as int).dom().contains(k)
            && self.prefix_view(CAP as int)[k] == self@[k] by {
            let t = choose|t: int| 0 <= t < CAP && self.occupied(t) && self.key_at(t) == k;
            assert(self.occupied(t));
        }
        assert forall|k: Seq<u8>| #[trigger]
            self.prefix_view(CAP as int).dom().contains(k) implies self@.dom().contains(k) by {
            let t = choose|t: int| 0 <= t < CAP && self.occupied(t) && self.key_at(t) == k;
            assert(self.occupied(t));
        }
        assert(self.prefix_view(CAP as int) =~= self@);
    }

    /// A table never holds more distinct keys than it has slots.
    pub proof fn lemma_dom_bound(self)
        requires
            self.wf(),
        ensures
            self@.dom().len() <= CAP,
    {
        lemma_occ_count_bounds(self.keys@, CAP as int);
    }

    /// Merges another table into this one: every key of `other` has its
    /// aggregate joined into this table. Fails exactly when the two key
    /// sets together exceed the capacity; the observation total then
    /// stays below the given bound either way.
    pub fn absorb(&mut self, other: &FastMap) -> (r: Result<(), TableFull>)
        requires
            old(self).wf(),
            other.wf(),
            old(self).total_obs() + other.total_obs() <= u64::MAX,
        ensures
            final(self).wf(),
            match r {
                Ok(()) => {
                    &&& final(self)@ == combine_maps(old(self)@, other@)
                    &&& final(self).total_obs() == old(self).total_obs() + other.total_obs()
                    &&& combine_maps(old(self)@, other@).dom().len() <= CAP
                },
                Err(_) => combine_maps(old(self)@, other@).dom().len() > CAP,
            },
    {
        let ghost m0: Map<Seq<u8>, Agg> = self@;
        let ghost t0: u64 = self.total;
        proof {
            other.lemma_prefix_view_full();
            lemma_combine_empty(m0);
        }
        let mut i: usize = 0;
        while i < CAP
            invariant
                self.wf(),
                other.wf(),
                i <= CAP,
                m0 == old(self)@,
                t0 == old(self).total_obs(),
                m0.dom().finite(),
                self@ == combine_maps(m0, other.prefix_view(i as int)),
                self.total_obs() as int == t0 as int + occ_sum(other.keys@, other.vals@, i as int),
                t0 as int + other.total_obs() as int <= u64::MAX as int,
                other.total_obs() as int == occ_sum(other.keys@, other.vals@, CAP as int),
            decreases CAP - i,
        {
            let ghost pv: Map<Seq<u8>, Agg> = other.prefix_view(i as int);
            match &other.keys[i] {
                Some(kv) => {
                    let sd = other.vals[i];
                    proof {
                        assert(other.occupied(i as int));
                        assert(sd_wf(sd));
                        lemma_occ_sum_mono(other.keys@, other.vals@, i as int + 1, CAP as int);
                        assert(occ_sum(other.keys@, other.vals@, i as int + 1) == occ_sum(
                            other.keys@,
                            other.vals@,
                            i as int,
                        ) + sd.count as int);
                    }
                    match self.upsert(kv.as_slice(), sd) {
                        Ok(()) => {
                            proof {
                                lemma_upsert_combine(m0, pv, kv@, to_agg(sd));
                                assert(other.prefix_view(i as int + 1) == table_upsert(
                                    pv,
                                    other.key_at(i as int),
                                    to_agg(other.vals@[i as int]),
                                ));
                            }
                        },
                        Err(e) => {
                            proof {
                                other.lemma_prefix_view_partial(i as int);
                                let big = combine_maps(m0, other@);
                                let small = combine_maps(m0, pv).dom().insert(kv@);
                                assert(big.dom() =~= m0.dom() + other@.dom());
                                assert(other.occupied(i as int));
                                assert(other@.dom().contains(kv@));
                                assert(big.dom().finite());
                                assert forall|k2: Seq<u8>| #[trigger]
                                    small.contains(k2) implies big.dom().contains(k2) by {
                                    if k2 != kv@ && !m0.dom().contains(k2) {
                                        assert(pv.dom().contains(k2));
                                        let t = choose|t: int|
                                            0 <= t < i && other.occupied(t) && other.key_at(t)
                                                == k2;
                                        assert(other.occupied(t));
                                        assert(other@.dom().contains(k2));
                                    }
                                }
                                assert(self@ == combine_maps(m0, pv));
                                assert(combine_maps(m0, pv).dom().finite());
                                assert(combine_maps(m0, pv).dom().len() == CAP);
                                assert(!combine_maps(m0, pv).dom().contains(kv@));
                                vstd::set::axiom_set_insert_len(combine_maps(m0, pv).dom(), kv@);
                                assert(small.len() == CAP + 1);
                                lemma_len_subset(small, big.dom());
                                assert(big.dom().len() > CAP);
                            }
                            return Err(e);
                        },
                    }
                },
                None => {
                    proof {
                        assert(other.prefix_view(i as int + 1) == pv);
                        assert(occ_sum(other.keys@, other.vals@, i as int + 1) == occ_sum(
                            other.keys@,
                            other.vals@,
                            i as int,
                        ));
                    }
                },
            }
            i = i + 1;
        }
        proof {
            other.lemma_prefix_view_full();
            lemma_occ_count_bounds(self.keys@, CAP as int);
            assert(self@.dom().len() <= CAP);
        }
        Ok(())
    }
}

} // verus!
