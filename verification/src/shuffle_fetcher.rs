use vstd::prelude::*;
use vstd::string::StringExecFns;

use crate::aggregator::{mc_of, MergeOp};
use crate::data::Data;
use crate::error::RddError;
use crate::partitioner::Key;
use crate::rdd::all_records;
use crate::shuffle_manager::{dec_str, u64_to_dec_string};
use crate::shuffled_rdd::{
    lemma_table_merge_pairs_concat, table_merge_pairs, CombinerTable,
};

verus! {

/// How many times one block is asked for before the fetch is given up.
pub const FETCH_ATTEMPT_BUDGET: u32 = 4;

/// The wait before the first retry of a block, in milliseconds.
pub const INITIAL_BACKOFF_MS: u32 = 100;

/// The ceiling the per-block backoff never exceeds, in milliseconds.
pub const BACKOFF_CAP_MS: u32 = 3200;

/// Pulls every map output for one reduce partition from the cluster. The
/// HTTP traffic happens at the worker's edge; the fetcher's decisions (the
/// URL for a block, when to retry, when a block has failed) and the
/// merging of what arrives are here.
pub struct ShuffleFetcher;

/// The path under which a block server serves one block:
/// `/shuffle/<shuffle_id>/<map_index>/<reduce_index>`.
pub fn shuffle_block_path(shuffle_id: usize, map_index: usize, reduce_index: usize) -> (r: String)
    ensures
        r@ == "/shuffle/"@ + dec_str(shuffle_id as int) + "/"@ + dec_str(map_index as int) + "/"@
            + dec_str(reduce_index as int),
{
    let mut out = String::new();
    out.append("/shuffle/");
    out.append(u64_to_dec_string(shuffle_id as u64).as_str());
    out.append("/");
    out.append(u64_to_dec_string(map_index as u64).as_str());
    out.append("/");
    out.append(u64_to_dec_string(reduce_index as u64).as_str());
    proof {
        assert(out@ =~= "/shuffle/"@ + dec_str(shuffle_id as int) + "/"@ + dec_str(
            map_index as int,
        ) + "/"@ + dec_str(reduce_index as int));
    }
    out
}

/// What the fetch loop observed for one request of one block.
pub enum FetchEvent {
    /// The block arrived and decoded.
    Delivered,
    /// A retriable condition: connection refused, 404, a 5xx answer, or a
    /// timeout.
    TransientFailure,
}

/// What the fetch loop must do next for the block.
pub enum FetchAction {
    /// The block is in; nothing more to do for it.
    Done,
    /// Ask again after waiting this many milliseconds.
    RetryAfter(u32),
    /// The budget is spent: surface the failure to the scheduler.
    GiveUp(RddError),
}

/// The per-block retry state: capped exponential backoff under a fixed
/// attempt budget, ending in `FetchFailed` for exactly this block.
pub struct FetchAttempt {
    pub shuffle_id: usize,
    pub map_index: usize,
    pub reduce_index: usize,
    pub attempts_used: u32,
    pub backoff_ms: u32,
}

impl FetchAttempt {
    pub fn new(shuffle_id: usize, map_index: usize, reduce_index: usize) -> (r: Self)
        ensures
            r.shuffle_id == shuffle_id,
            r.map_index == map_index,
            r.reduce_index == reduce_index,
            r.attempts_used == 0,
            r.backoff_ms == INITIAL_BACKOFF_MS,
    {
        FetchAttempt {
            shuffle_id,
            map_index,
            reduce_index,
            attempts_used: 0,
            backoff_ms: INITIAL_BACKOFF_MS,
        }
    }

    /// Accounts one request and decides: success ends the block; a
    /// transient failure waits the current backoff and doubles it up to
    /// the cap, until the budget is spent, which yields
    /// `FetchFailed(shuffle_id, map_index, reduce_index)`.
    pub fn step(&mut self, event: FetchEvent) -> (r: FetchAction)
        requires
            old(self).attempts_used < FETCH_ATTEMPT_BUDGET,
        ensures
            final(self).shuffle_id == old(self).shuffle_id,
            final(self).map_index == old(self).map_index,
            final(self).reduce_index == old(self).reduce_index,
            final(self).attempts_used == old(self).attempts_used + 1,
            match r {
                FetchAction::Done => event == FetchEvent::Delivered,
                FetchAction::RetryAfter(wait) => {
                    &&& event == FetchEvent::TransientFailure
                    &&& old(self).attempts_used + 1 < FETCH_ATTEMPT_BUDGET
                    &&& wait == old(self).backoff_ms
                    &&& final(self).backoff_ms == if old(self).backoff_ms * 2 > BACKOFF_CAP_MS {
                        BACKOFF_CAP_MS as int
                    } else {
                        old(self).backoff_ms * 2
                    }
                },
                FetchAction::GiveUp(e) => {
                    &&& event == FetchEvent::TransientFailure
                    &&& old(self).attempts_used + 1 == FETCH_ATTEMPT_BUDGET
                    &&& e == (RddError::FetchFailed {
                        shuffle_id: old(self).shuffle_id,
                        map_index: old(self).map_index,
                        reduce_index: old(self).reduce_index,
                    })
                },
            },
    {
        self.attempts_used += 1;
        match event {
            FetchEvent::Delivered => FetchAction::Done,
            FetchEvent::TransientFailure => {
                if self.attempts_used < FETCH_ATTEMPT_BUDGET {
                    let wait = self.backoff_ms;
                    if self.backoff_ms > BACKOFF_CAP_MS / 2 {
                        self.backoff_ms = BACKOFF_CAP_MS;
                    } else {
                        self.backoff_ms = self.backoff_ms * 2;
                    }
                    FetchAction::RetryAfter(wait)
                } else {
                    FetchAction::GiveUp(
                        RddError::FetchFailed {
                            shuffle_id: self.shuffle_id,
                            map_index: self.map_index,
                            reduce_index: self.reduce_index,
                        },
                    )
                }
            },
        }
    }
}

impl ShuffleFetcher {
    /// The reduce-side consumption of fetched blocks: feeds every decoded
    /// `(key, combiner)` pair, block by block in the given order, into one
    /// table with `merge_combiners`. Because every implementor of
    /// `MergeOp` proves its merge associative, the per-key result depends
    /// only on the per-key order of arrival.
    pub fn merge_fetched_blocks<K: Key, C: Data, OP: MergeOp<C>>(
        &self,
        blocks: Vec<Vec<(K, C)>>,
        op: &OP,
    ) -> (r: Vec<(K, C)>)
        ensures
            r.deep_view() == table_merge_pairs(
                Seq::<(K::V, C::V)>::empty(),
                all_records(blocks.deep_view()),
                mc_of(op),
            ),
    {
        let ghost all = blocks.deep_view();
        let total = blocks.len();
        let mut table = CombinerTable::<K, C>::new();
        let mut blocks = blocks;
        let mut j: usize = 0;
        proof {
            assert(all.take(0) =~= Seq::<Seq<(K::V, C::V)>>::empty());
        }
        while blocks.len() > 0
            invariant
                all.len() == total,
                j + blocks@.len() == all.len(),
                blocks.deep_view() =~= all.skip(j as int),
                table.wf(),
                table.view_spec() == table_merge_pairs(
                    Seq::<(K::V, C::V)>::empty(),
                    all_records(all.take(j as int)),
                    mc_of(op),
                ),
            decreases blocks@.len(),
        {
            let ghost before = blocks.deep_view();
            let block = blocks.remove(0);
            let ghost block_view = block.deep_view();
            proof {
                assert(blocks.deep_view() =~= before.drop_first());
                assert(block_view == before[0]);
                assert(before[0] == all.skip(j as int)[0]);
                assert(all.skip(j as int)[0] == all[j as int]);
                assert(before.drop_first() =~= all.skip(j + 1));
            }
            let ghost prefix = all_records(all.take(j as int));
            table.merge_block(block, op);
            proof {
                lemma_table_merge_pairs_concat(
                    Seq::<(K::V, C::V)>::empty(),
                    prefix,
                    block_view,
                    mc_of(op),
                );
                crate::rdd::lemma_all_records_take_step(all, j as int);
            }
            j += 1;
        }
        proof {
            assert(all.take(all.len() as int) =~= all);
        }
        table.into_entries()
    }
}

} // verus!
