//! Ingestion decisions: the startup backfill and the subscription loops'
//! rules, separated from the connections that feed them.

use vstd::prelude::*;
use crate::errors::ApiError;
use crate::index::{LshIndex, copy_words, copy_sig_row};

verus! {

/// Inserts backfilled vectors one at a time, in order, stopping at the
/// first vector whose length does not match the index dimension. Everything
/// before the offending vector stays inserted; on success the count of
/// inserted vectors is returned. Startup aborts on the error, so the
/// process never serves from a partially backfilled index.
pub fn backfill_insert(
    index: &mut LshIndex,
    vectors: &Vec<Vec<u32>>,
    rows: &Vec<Vec<u64>>,
) -> (result: Result<usize, ApiError>)
    requires
        old(index).wf(),
        old(index).len_spec() + vectors@.len() <= usize::MAX,
        vectors@.len() == rows@.len(),
        forall|j: int|
            0 <= j < rows@.len() ==> (#[trigger] rows@[j])@.len() == old(index).table_count(),
    ensures
        final(index).wf(),
        final(index).table_count() == old(index).table_count(),
        final(index).dimension() == old(index).dimension(),
        final(index).projection_count() == old(index).projection_count(),
        match result {
            Ok(count) => {
                &&& count == vectors@.len()
                &&& forall|j: int|
                    0 <= j < vectors@.len() ==> (#[trigger] vectors@[j])@.len() == old(
                        index,
                    ).dimension()
                &&& final(index).vectors() == old(index).vectors() + vectors@.map_values(
                    |v: Vec<u32>| v@,
                )
                &&& final(index).sig_history() == old(index).sig_history() + rows@.map_values(
                    |r: Vec<u64>| r@,
                )
            },
            Err(e) => {
                &&& e is DimMismatch
                &&& exists|jb: int|
                    {
                        &&& 0 <= jb < vectors@.len()
                        &&& (#[trigger] vectors@[jb])@.len() != old(index).dimension()
                        &&& forall|kk: int|
                            0 <= kk < jb ==> (#[trigger] vectors@[kk])@.len() == old(
                                index,
                            ).dimension()
                        &&& final(index).vectors() == old(index).vectors() + vectors@.map_values(
                            |v: Vec<u32>| v@,
                        ).take(jb)
                        &&& final(index).sig_history() == old(index).sig_history()
                            + rows@.map_values(|r: Vec<u64>| r@).take(jb)
                    }
            },
        },
{
    let ghost vv = vectors@.map_values(|v: Vec<u32>| v@);
    let ghost rr = rows@.map_values(|r: Vec<u64>| r@);
    let mut j: usize = 0;
    while j < vectors.len()
        invariant
            index.wf(),
            j <= vectors@.len(),
            vectors@.len() == rows@.len(),
            vv == vectors@.map_values(|v: Vec<u32>| v@),
            rr == rows@.map_values(|r: Vec<u64>| r@),
            old(index).len_spec() + vectors@.len() <= usize::MAX,
            index.len_spec() == old(index).len_spec() + j,
            index.table_count() == old(index).table_count(),
            index.dimension() == old(index).dimension(),
            index.projection_count() == old(index).projection_count(),
            index.vectors() == old(index).vectors() + vv.take(j as int),
            index.sig_history() == old(index).sig_history() + rr.take(j as int),
            forall|kk: int|
                0 <= kk < j ==> (#[trigger] vectors@[kk])@.len() == old(index).dimension(),
            forall|k: int|
                0 <= k < rows@.len() ==> (#[trigger] rows@[k])@.len() == old(index).table_count(),
        decreases vectors@.len() - j,
    {
        let mut batch_v: Vec<Vec<u32>> = Vec::new();
        batch_v.push(copy_words(&vectors[j]));
        let mut batch_r: Vec<Vec<u64>> = Vec::new();
        batch_r.push(copy_sig_row(&rows[j]));
        proof {
            assert(batch_v@.map_values(|v: Vec<u32>| v@) =~= seq![vectors@[j as int]@]);
            assert(batch_r@.map_values(|r: Vec<u64>| r@) =~= seq![rows@[j as int]@]);
            assert(batch_r@[0]@.len() == old(index).table_count());
        }
        let ghost pre_vectors = index.vectors();
        let ghost pre_rows = index.sig_history();
        match index.store_vecs(&batch_v, &batch_r) {
            Ok(()) => {
                proof {
                    assert(index.vectors() =~= old(index).vectors() + vv.take(j + 1));
                    assert(index.sig_history() =~= old(index).sig_history() + rr.take(j + 1));
                    assert(batch_v@[0]@.len() == old(index).dimension());
                    assert(vectors@[j as int]@.len() == old(index).dimension());
                }
                j += 1;
            },
            Err(e) => {
                proof {
                    assert(vectors@[j as int]@.len() != old(index).dimension());
                }
                return Err(e);
            },
        }
    }
    proof {
        assert(vv.take(vectors@.len() as int) =~= vv);
        assert(rr.take(rows@.len() as int) =~= rr);
    }
    Ok(j)
}

/// Whether a pub/sub message arrived on the shutdown channel: the first such
/// message flips the stop flag and begins the graceful shutdown.
pub fn shutdown_requested(channel: &str) -> (stop: bool)
    ensures
        stop == (channel@ == "shutdown"@),
{
    let received: String = channel.to_owned();
    let expected: String = "shutdown".to_owned();
    received == expected
}

} // verus!
