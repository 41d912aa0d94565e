//! The in-memory steps of the replication workers: the sealer's drain-and-
//! append, and the puller's chain merge. The workers' timers and network
//! calls live with the process; everything that decides lives here.

use crate::block::{Block, BlockM};
use crate::chain::{block_hashes_of, block_views, blocks_valid_range, contains_str, record_hashes,
    unseen, Blockchain};
use crate::mempool::MemPool;
use crate::record::{record_valid, RecordM};
use vstd::prelude::*;

verus! {

/// What one sealer tick did: nothing when the pool was empty, otherwise the
/// outcome of appending the drained records.
pub open spec fn sealed_something(pool_before: Seq<RecordM>) -> bool {
    pool_before.len() > 0
}

/// One sealer tick: when the pool holds records, drain it and append the
/// batch (minus already-seen records) as one new block. An empty pool does
/// nothing. The drained records leave the pool even when the append refuses
/// a wholly duplicate batch, as the sealer's drain is destructive.
pub fn seal_pending(pool: &mut MemPool, chain: &mut Blockchain) -> (r: Option<
    Result<(), String>,
>)
    requires
        old(pool).wf(),
        old(chain).wf(),
    ensures
        final(pool).wf(),
        final(chain).wf(),
        final(pool).bound == old(pool).bound,
        !sealed_something(old(pool)@) ==> r is None && *final(pool) == *old(pool) && *final(chain)
            == *old(chain),
        sealed_something(old(pool)@) ==> {
            let kept = unseen(old(pool)@, old(chain).record_hashes_m());
            &&& final(pool)@.len() == 0
            &&& r matches Some(res)
            &&& (res is Err <==> kept.len() == 0)
            &&& (res is Err ==> *final(chain) == *old(chain))
            &&& (res is Ok ==> {
                let nb = final(chain).blocks_m().last();
                &&& final(chain).blocks_m() == old(chain).blocks_m().push(nb)
                &&& nb.data == kept
                &&& nb.previous_hash == old(chain).blocks_m().last().hash
                &&& final(chain).record_hashes_m() == old(chain).record_hashes_m()
                    + record_hashes(kept)
            })
            &&& forall|i: int|
                0 <= i < old(pool)@.len() ==> contains_str(
                    final(chain).record_hashes_m(),
                    #[trigger] old(pool)@[i].hash,
                )
            &&& (blocks_valid_range(
                old(chain).blocks_m(),
                0,
                old(chain).blocks_m().len() as int,
            ) && (forall|i: int|
                0 <= i < old(pool)@.len() ==> record_valid(#[trigger] old(pool)@[i]))
                ==> blocks_valid_range(
                final(chain).blocks_m(),
                0,
                final(chain).blocks_m().len() as int,
            ))
        },
{
    if pool.length() > 0 {
        let records = pool.reset();
        Some(chain.append_new_records(records))
    } else {
        None
    }
}

/// What the merge of one fetched partial chain did.
pub enum MergeOutcome {
    /// The peer's chain is no longer than ours; nothing to do.
    NotLonger,
    /// Every fetched block is already known; nothing to graft.
    NoGraft,
    /// The unseen suffix was appended.
    Merged,
    /// The unseen suffix does not link to our head.
    Mismatch(String),
}

/// The model of a merge outcome.
pub enum MergeM {
    NotLonger,
    NoGraft,
    Merged,
    Mismatch,
}

impl View for MergeOutcome {
    type V = MergeM;

    open spec fn view(&self) -> MergeM {
        match self {
            MergeOutcome::NotLonger => MergeM::NotLonger,
            MergeOutcome::NoGraft => MergeM::NoGraft,
            MergeOutcome::Merged => MergeM::Merged,
            MergeOutcome::Mismatch(_) => MergeM::Mismatch,
        }
    }
}

/// The first index of `bs` whose block hash is not among `hashes`, if any:
/// the graft point of a fetched partial chain.
pub open spec fn first_unseen_at(bs: Seq<BlockM>, hashes: Seq<Seq<char>>, i: int) -> Option<int>
    decreases bs.len() - i,
{
    if i < 0 || i >= bs.len() {
        None
    } else if !contains_str(hashes, bs[i].hash) {
        Some(i)
    } else {
        first_unseen_at(bs, hashes, i + 1)
    }
}

/// One puller step against one peer: if the peer reports a strictly longer
/// chain, find the first fetched block we have not seen and append the
/// fetched suffix from there; the append fails exactly when that suffix does
/// not link to our head. A peer no longer than us, or one whose every block
/// is known, changes nothing. Each outcome names its exact inputs: a merge
/// is owed whenever the peer is longer, a graft point exists, and the
/// grafted suffix links.
pub fn merge_from_peer(chain: &mut Blockchain, total_length: u64, partial: Vec<Block>) -> (r:
    MergeOutcome)
    requires
        old(chain).wf(),
    ensures
        final(chain).wf(),
        r@ is NotLonger <==> total_length <= old(chain).blocks_m().len(),
        r@ is NoGraft <==> total_length > old(chain).blocks_m().len() && first_unseen_at(
            block_views(partial@),
            old(chain).block_hashes_m(),
            0,
        ) is None,
        r@ is Mismatch <==> ({
            let g = first_unseen_at(block_views(partial@), old(chain).block_hashes_m(), 0);
            &&& total_length > old(chain).blocks_m().len()
            &&& g is Some
            &&& block_views(partial@)[g->0].previous_hash != old(chain).blocks_m().last().hash
        }),
        r@ is Merged <==> ({
            let g = first_unseen_at(block_views(partial@), old(chain).block_hashes_m(), 0);
            &&& total_length > old(chain).blocks_m().len()
            &&& g is Some
            &&& block_views(partial@)[g->0].previous_hash == old(chain).blocks_m().last().hash
        }),
        !(r@ is Merged) ==> *final(chain) == *old(chain),
        r@ is Merged ==> {
            let g = first_unseen_at(block_views(partial@), old(chain).block_hashes_m(), 0);
            &&& final(chain).blocks_m() == old(chain).blocks_m() + block_views(partial@).skip(
                g->0,
            )
            &&& final(chain).block_hashes_m() == old(chain).block_hashes_m() + block_hashes_of(
                block_views(partial@).skip(g->0),
            )
            &&& final(chain).record_hashes_m() == old(chain).record_hashes_m()
        },
{
    if total_length <= chain.length() {
        return MergeOutcome::NotLonger;
    }
    let graft = graft_scan(chain, &partial);
    match graft {
        None => MergeOutcome::NoGraft,
        Some(idx) => {
            let ghost pviews = block_views(partial@);
            let mut partial = partial;
            let suffix = partial.split_off(idx);
            proof {
                assert(block_views(suffix@) =~= pviews.skip(idx as int));
                assert(block_views(suffix@)[0] == pviews[idx as int]);
                assert(block_hashes_of(block_views(suffix@)) =~= block_hashes_of(
                    pviews.skip(idx as int),
                ));
            }
            match chain.append_blocks(suffix) {
                Ok(_) => MergeOutcome::Merged,
                Err(e) => MergeOutcome::Mismatch(e),
            }
        },
    }
}

/// The first fetched block whose hash the chain has not seen, if any.
fn graft_scan(chain: &Blockchain, partial: &Vec<Block>) -> (r: Option<usize>)
    ensures
        match r {
            Some(idx) => idx < partial@.len() && first_unseen_at(
                block_views(partial@),
                chain.block_hashes_m(),
                0,
            ) == Some(idx as int),
            None => first_unseen_at(block_views(partial@), chain.block_hashes_m(), 0) is None,
        },
{
    let ghost pviews = block_views(partial@);
    let mut idx: usize = 0;
    while idx < partial.len()
        invariant
            idx <= partial@.len(),
            pviews == block_views(partial@),
            first_unseen_at(pviews, chain.block_hashes_m(), 0) == first_unseen_at(
                pviews,
                chain.block_hashes_m(),
                idx as int,
            ),
        decreases partial@.len() - idx,
    {
        let seen = chain.block_seen(&partial[idx].hash);
        if !seen {
            proof {
                assert(first_unseen_at(pviews, chain.block_hashes_m(), idx as int) == Some(
                    idx as int,
                ));
            }
            return Some(idx);
        }
        idx = idx + 1;
    }
    None
}

} // verus!
