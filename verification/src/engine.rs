//! The aggregation engine: scanning a chunk of records into a table,
//! splitting a buffer into line-aligned partitions, and the partitioned
//! run whose merged result equals the single-pass aggregation of the
//! whole buffer.

use crate::decode::decode_value;
use crate::decode::lemma_decoded_value_bounds;
use crate::model::aggregate_of;
use crate::model::combine_maps;
use crate::model::lemma_aggregate_append;
use crate::model::lemma_aggregate_dom;
use crate::model::lemma_rec_keys_append;
use crate::model::lemma_rec_keys_contains;
use crate::model::rec_keys;
use crate::scan::decoded_records;
use crate::scan::find_byte;
use crate::scan::key_of;
use crate::scan::lemma_find_from_props;
use crate::scan::lemma_lines_from_count;
use crate::scan::lemma_lines_split;
use crate::scan::line_record;
use crate::scan::line_valid;
use crate::scan::lines_from;
use crate::scan::lines_of;
use crate::scan::raw_value_of;
use crate::scan::well_formed;
use crate::scan::BNL;
use crate::scan::BSEMI;
use crate::table::FastMap;
use crate::table::CAP;
use vstd::prelude::*;
use vstd::set_lib::lemma_len_subset;
use vstd::slice::slice_subrange;

verus! {

/// Why a run failed: a record violating the input contract, or more
/// distinct keys than the aggregation table's fixed capacity.
#[derive(Clone, Copy, PartialEq, Eq, Structural, Debug)]
pub enum EngineError {
    MalformedRecord,
    CapacityExceeded,
}

/// Scans one chunk in a single pass — next line, split at the field
/// delimiter, decode, fold into the table — and returns the chunk's
/// aggregate table. Fails on the first malformed record, or when the
/// chunk holds more distinct keys than the table's capacity; succeeds
/// on every other input.
pub fn process_chunk(chunk: &[u8]) -> (r: Result<FastMap, EngineError>)
    ensures
        match r {
            Ok(t) => {
                &&& t.wf()
                &&& well_formed(chunk@)
                &&& t@ == aggregate_of(decoded_records(chunk@))
                &&& t.total_obs() == decoded_records(chunk@).len()
                &&& rec_keys(decoded_records(chunk@)).len() <= CAP
            },
            Err(EngineError::MalformedRecord) => !well_formed(chunk@),
            Err(EngineError::CapacityExceeded) => rec_keys(decoded_records(chunk@)).len() > CAP,
        },
{
    let mut t = FastMap::new();
    let n = chunk.len();
    let mut pos: usize = 0;
    let ghost mut lns: Seq<Seq<u8>> = Seq::empty();
    let ghost mut recs: Seq<(Seq<u8>, int)> = Seq::empty();
    proof {
        assert(lines_of(chunk@) =~= lns + lines_from(chunk@, 0));
        assert(recs =~= lns.map_values(|l: Seq<u8>| line_record(l)));
    }
    while pos < n
        invariant
            t.wf(),
            n == chunk@.len(),
            pos <= n,
            t@ == aggregate_of(recs),
            t.total_obs() == recs.len(),
            recs.len() <= pos,
            recs == lns.map_values(|l: Seq<u8>| line_record(l)),
            forall|q: int| 0 <= q < lns.len() ==> line_valid(#[trigger] lns[q]),
            lines_of(chunk@) == lns + lines_from(chunk@, pos as int),
        decreases n - pos,
    {
        let e = find_byte(chunk, pos, BNL);
        proof {
            lemma_find_from_props(chunk@, BNL, pos as int);
        }
        let line = slice_subrange(chunk, pos, e);
        let ghost lseq = chunk@.subrange(pos as int, e as int);
        let ghost nxt: int = if e < n {
            e + 1
        } else {
            e as int
        };
        proof {
            assert(lines_from(chunk@, pos as int) == seq![lseq] + lines_from(chunk@, nxt));
            assert((lns + lines_from(chunk@, pos as int))[lns.len() as int] == lseq);
        }
        let s = find_byte(line, 0, BSEMI);
        proof {
            lemma_find_from_props(line@, BSEMI, 0);
        }
        if s == line.len() {
            proof {
                assert(!line_valid(lseq));
            }
            return Err(EngineError::MalformedRecord);
        }
        let valb = slice_subrange(line, s + 1, line.len());
        proof {
            assert(valb@ == raw_value_of(lseq));
        }
        let v = match decode_value(valb) {
            Ok(v) => v,
            Err(_) => {
                proof {
                    assert(!line_valid(lseq));
                }
                return Err(EngineError::MalformedRecord);
            },
        };
        let keyb = slice_subrange(line, 0, s);
        proof {
            lemma_decoded_value_bounds(valb@);
            assert(keyb@ == key_of(lseq));
            assert(line_valid(lseq));
            assert(line_record(lseq) == (keyb@, v as int));
        }
        match t.observe(keyb, v) {
            Ok(()) => {},
            Err(_) => {
                proof {
                    lemma_aggregate_dom(recs);
                    let whole = decoded_records(chunk@);
                    let tail = lines_from(chunk@, pos as int).map_values(
                        |l: Seq<u8>| line_record(l),
                    );
                    assert(whole =~= recs + tail);
                    assert(tail[0] == line_record(lseq));
                    lemma_rec_keys_append(recs, tail);
                    lemma_rec_keys_contains(tail, 0);
                    lemma_aggregate_dom(whole);
                    let grown = rec_keys(recs).insert(keyb@);
                    assert(grown.subset_of(rec_keys(whole)));
                    vstd::set::axiom_set_insert_len(rec_keys(recs), keyb@);
                    lemma_len_subset(grown, rec_keys(whole));
                }
                return Err(EngineError::CapacityExceeded);
            },
        }
        proof {
            let ghost recs0 = recs;
            let ghost lns0 = lns;
            lns = lns0.push(lseq);
            recs = recs0.push((keyb@, v as int));
            assert(recs.drop_last() =~= recs0);
            assert(recs =~= lns.map_values(|l: Seq<u8>| line_record(l)));
            assert(lns + lines_from(chunk@, nxt) =~= lns0 + lines_from(chunk@, pos as int));
        }
        pos = if e < n {
            e + 1
        } else {
            e
        };
    }
    proof {
        assert(lines_from(chunk@, pos as int) =~= Seq::<Seq<u8>>::empty());
        assert(lines_of(chunk@) =~= lns);
        assert(decoded_records(chunk@) =~= recs);
        assert(well_formed(chunk@));
        lemma_aggregate_dom(recs);
        t.lemma_dom_bound();
    }
    Ok(t)
}

/// Splitting a buffer just after any line break and merging the two
/// parts' aggregates yields the whole buffer's aggregate: for every
/// key, the partitioned result equals the single-threaded reference,
/// and no record at the boundary is dropped or counted twice.
pub proof fn lemma_partition_invariance(buf: Seq<u8>, k: int)
    requires
        0 < k <= buf.len(),
        buf[k - 1] == BNL,
    ensures
        aggregate_of(decoded_records(buf)) == combine_maps(
            aggregate_of(decoded_records(buf.subrange(0, k))),
            aggregate_of(decoded_records(buf.subrange(k, buf.len() as int))),
        ),
{
    lemma_lines_split(buf, k);
    assert(decoded_records(buf) =~= decoded_records(buf.subrange(0, k)) + decoded_records(
        buf.subrange(k, buf.len() as int),
    ));
    lemma_aggregate_append(
        decoded_records(buf.subrange(0, k)),
        decoded_records(buf.subrange(k, buf.len() as int)),
    );
}

/// A valid partitioning of `buf`: contiguous, exhaustive, nonempty
/// ranges, and every inner boundary sits just after a line break, so no
/// record is split across two ranges.
pub open spec fn parts_wf(ps: Seq<(usize, usize)>, buf: Seq<u8>) -> bool {
    &&& (buf.len() == 0 ==> ps.len() == 0)
    &&& (buf.len() > 0 ==> 1 <= ps.len())
    &&& forall|q: int| 0 <= q < ps.len() ==> (#[trigger] ps[q]).0 < ps[q].1 <= buf.len()
    &&& (ps.len() > 0 ==> ps[0].0 == 0 && ps[ps.len() - 1].1 == buf.len())
    &&& forall|q: int| 0 <= q < ps.len() - 1 ==> (#[trigger] ps[q]).1 == ps[q + 1].0
    &&& forall|q: int|
        0 <= q < ps.len() && (#[trigger] ps[q]).1 < buf.len() ==> buf[ps[q].1 - 1] == BNL
}

/// Splits the buffer into at most `n` contiguous byte ranges that cover
/// it exactly once. Even split points are moved forward to the position
/// just past the next line break, so a range boundary never falls
/// inside a record; trailing workers may receive nothing when the
/// buffer runs out of lines first.
pub fn partition(buf: &[u8], n: usize) -> (r: Vec<(usize, usize)>)
    requires
        1 <= n,
    ensures
        parts_wf(r@, buf@),
        r@.len() <= n,
{
    let len = buf.len();
    let chunk_size = len / n;
    let mut r: Vec<(usize, usize)> = Vec::new();
    if len == 0 {
        return r;
    }
    let mut start: usize = 0;
    let mut i: usize = 0;
    while start < len
        invariant
            1 <= n,
            len == buf@.len(),
            0 < len,
            start <= len,
            r@.len() == i,
            i <= n,
            start < len ==> i < n,
            r@.len() == 0 ==> start == 0,
            r@.len() > 0 ==> r@[0].0 == 0 && r@[r@.len() - 1].1 == start,
            forall|q: int| 0 <= q < r@.len() ==> (#[trigger] r@[q]).0 < r@[q].1 <= len,
            forall|q: int| 0 <= q < r@.len() - 1 ==> (#[trigger] r@[q]).1 == r@[q + 1].0,
            forall|q: int|
                0 <= q < r@.len() && (#[trigger] r@[q]).1 < len ==> buf@[r@[q].1 - 1] == BNL,
        decreases len - start,
    {
        let end: usize;
        if i + 1 == n {
            end = len;
        } else {
            let mut e: usize = if chunk_size > len - start {
                len
            } else {
                start + chunk_size
            };
            while e < len && buf[e] != BNL
                invariant
                    len == buf@.len(),
                    start <= len,
                    start <= e,
                    e <= len,
                decreases len - e,
            {
                e = e + 1;
            }
            if e < len {
                end = e + 1;
            } else {
                end = len;
            }
        }
        r.push((start, end));
        start = end;
        i = i + 1;
    }
    r
}

/// Runs the partitioned aggregation: splits the buffer for the given
/// worker count, scans each range independently, and merges the partial
/// tables in range order. The merged result equals the single-pass
/// aggregation of the whole buffer, whatever the worker count.
#[verifier::rlimit(80)]
pub fn aggregate_buffer(buf: &[u8], workers: usize) -> (r: Result<FastMap, EngineError>)
    requires
        1 <= workers,
    ensures
        match r {
            Ok(t) => {
                &&& t.wf()
                &&& well_formed(buf@)
                &&& t@ == aggregate_of(decoded_records(buf@))
                &&& t.total_obs() == decoded_records(buf@).len()
                &&& rec_keys(decoded_records(buf@)).len() <= CAP
            },
            Err(EngineError::MalformedRecord) => !well_formed(buf@),
            Err(EngineError::CapacityExceeded) => rec_keys(decoded_records(buf@)).len() > CAP,
        },
{
    let len = buf.len();
    let parts = partition(buf, workers);
    let mut acc = FastMap::new();
    let mut idx: usize = 0;
    let ghost mut cov: int = 0;
    proof {
        assert(buf@.subrange(0, 0) =~= Seq::<u8>::empty());
        assert(decoded_records(buf@.subrange(0, 0)) =~= Seq::<(Seq<u8>, int)>::empty());
    }
    while idx < parts.len()
        invariant
            acc.wf(),
            len == buf@.len(),
            parts_wf(parts@, buf@),
            idx <= parts@.len(),
            0 <= cov <= len,
            idx < parts@.len() ==> cov == (#[trigger] parts@[idx as int]).0 as int,
            idx == parts@.len() && parts@.len() > 0 ==> cov == len,
            idx == parts@.len() && parts@.len() == 0 ==> cov == 0,
            well_formed(buf@.subrange(0, cov)),
            acc@ == aggregate_of(decoded_records(buf@.subrange(0, cov))),
            acc.total_obs() == decoded_records(buf@.subrange(0, cov)).len(),
        decreases parts@.len() - idx,
    {
        let (s, e) = parts[idx];
        let chunk = slice_subrange(buf, s, e);
        let ghost pre_s = buf@.subrange(0, s as int);
        let ghost pre_e = buf@.subrange(0, e as int);
        let ghost suffix = buf@.subrange(e as int, len as int);
        proof {
            assert(s as int == cov);
            if s > 0 {
                assert(parts@[idx as int - 1].1 == s);
                assert(s < len);
                assert(buf@[s as int - 1] == BNL);
                assert(pre_e[s as int - 1] == BNL);
                lemma_lines_split(pre_e, s as int);
                assert(pre_e.subrange(0, s as int) =~= pre_s);
                assert(pre_e.subrange(s as int, e as int) =~= chunk@);
            } else {
                assert(pre_e =~= chunk@);
                assert(pre_s =~= Seq::<u8>::empty());
            }
            assert(lines_of(pre_e) =~= lines_of(pre_s) + lines_of(chunk@));
            assert(decoded_records(pre_e) =~= decoded_records(pre_s) + decoded_records(chunk@));
            if e < len {
                assert(buf@[e as int - 1] == BNL);
                lemma_lines_split(buf@, e as int);
                assert(buf@.subrange(0, e as int) =~= pre_e);
            } else {
                assert(pre_e =~= buf@);
                assert(suffix =~= Seq::<u8>::empty());
            }
            assert(lines_of(buf@) =~= lines_of(pre_e) + lines_of(suffix));
            assert(decoded_records(buf@) =~= decoded_records(pre_e) + decoded_records(suffix));
            lemma_rec_keys_append(decoded_records(pre_e), decoded_records(suffix));
            lemma_rec_keys_append(decoded_records(pre_s), decoded_records(chunk@));
            lemma_aggregate_dom(decoded_records(buf@));
        }
        match process_chunk(chunk) {
            Ok(t) => {
                proof {
                    lemma_aggregate_append(decoded_records(pre_s), decoded_records(chunk@));
                    lemma_lines_from_count(pre_e, 0);
                }
                match acc.absorb(&t) {
                    Ok(()) => {},
                    Err(_) => {
                        proof {
                            lemma_aggregate_dom(decoded_records(pre_s));
                            lemma_aggregate_dom(decoded_records(chunk@));
                            assert(combine_maps(
                                aggregate_of(decoded_records(pre_s)),
                                aggregate_of(decoded_records(chunk@)),
                            ).dom() =~= rec_keys(decoded_records(pre_e)));
                            assert(rec_keys(decoded_records(pre_e)).subset_of(
                                rec_keys(decoded_records(buf@)),
                            ));
                            lemma_len_subset(
                                rec_keys(decoded_records(pre_e)),
                                rec_keys(decoded_records(buf@)),
                            );
                        }
                        return Err(EngineError::CapacityExceeded);
                    },
                }
                proof {
                    assert forall|q: int|
                        0 <= q < lines_of(pre_e).len() implies line_valid(
                        #[trigger] lines_of(pre_e)[q],
                    ) by {
                        if q < lines_of(pre_s).len() {
                            assert(lines_of(pre_e)[q] == lines_of(pre_s)[q]);
                        } else {
                            assert(lines_of(pre_e)[q] == lines_of(chunk@)[
                                q - lines_of(pre_s).len()]);
                        }
                    }
                    assert(well_formed(pre_e));
                    cov = e as int;
                    if idx + 1 < parts@.len() {
                        assert(parts@[idx as int + 1].0 == parts@[idx as int].1);
                    }
                }
            },
            Err(err) => {
                proof {
                    match err {
                        EngineError::MalformedRecord => {
                            let q = choose|q: int|
                                0 <= q < lines_of(chunk@).len() && !line_valid(
                                    lines_of(chunk@)[q],
                                );
                            let p = lines_of(pre_s).len() as int + q;
                            assert(lines_of(buf@)[p] == lines_of(chunk@)[q]);
                            assert(!well_formed(buf@));
                        },
                        EngineError::CapacityExceeded => {
                            assert(rec_keys(decoded_records(chunk@)).subset_of(
                                rec_keys(decoded_records(buf@)),
                            ));
                            lemma_len_subset(
                                rec_keys(decoded_records(chunk@)),
                                rec_keys(decoded_records(buf@)),
                            );
                        },
                    }
                }
                return Err(err);
            },
        }
        idx = idx + 1;
    }
    proof {
        if parts.len() == 0 {
            assert(buf@.subrange(0, 0) =~= buf@);
        } else {
            assert(buf@.subrange(0, cov) =~= buf@);
        }
        lemma_aggregate_dom(decoded_records(buf@));
        acc.lemma_dom_bound();
    }
    Ok(acc)
}

} // verus!
