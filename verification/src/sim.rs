use vstd::prelude::*;
use vstd::seq_lib::lemma_multiset_commutative;
use crate::transaction::{
    lemma_pool_append_all_multiset, lemma_pool_append_all_sorted, lemma_pool_rest_sorted,
    lemma_pool_take_greedy, lemma_pool_take_rest_multiset, pool_append_all, pool_rest, pool_take,
    sorted_by_fee, Time, Transaction, TransactionBroadcaster, TransactionPool,
};
use crate::block::{Block, BlockMiner, BlockModel, Network, UniformBlockMiner};

verus! {

/// The state of a run after `end` ticks: the broadcaster's state, the pool's
/// contents (ascending by fee), and the mined blocks in chronological order.
/// Each tick first folds the broadcaster's emissions into the pool, then
/// applies the miner's decision, so mining at a tick sees transactions
/// broadcast at that same tick.
pub open spec fn spec_run<T: TransactionBroadcaster, B: BlockMiner>(
    broadcaster: T,
    miner: B,
    end: Time,
) -> (T, Seq<Transaction>, Seq<BlockModel>)
    decreases end,
{
    if end == 0 {
        (broadcaster, Seq::empty(), Seq::empty())
    } else {
        let t = (end - 1) as Time;
        let prev = spec_run(broadcaster, miner, t);
        let pool_after = pool_append_all(prev.1, prev.0.emitted(t));
        let stepped = prev.0.stepped(t);
        match miner.budget_at(t) {
            Option::None => (stepped, pool_after, prev.2),
            Option::Some(budget) => (
                stepped,
                pool_rest(pool_after, budget as int),
                prev.2.push(
                    BlockModel {
                        mined_at: t,
                        transactions: pool_take(pool_after, budget as int),
                    },
                ),
            ),
        }
    }
}

/// Runs the simulation over the tick range `[0, end_time)`: each tick
/// invokes the broadcaster and then the miner, folding emitted transactions
/// into the pool and mined blocks into the chain. Returns the final network:
/// the residual pool of unconfirmed transactions and the mined blocks. The
/// result is exactly `spec_run` of the inputs, so any two runs from equal
/// configurations produce identical output.
pub fn run<T: TransactionBroadcaster, B: BlockMiner>(
    transaction_broad_caster: T,
    block_miner: B,
    end_time: Time,
) -> (network: Network)
    requires
        transaction_broad_caster.wf(),
        block_miner.wf(),
    ensures
        network.pool.well_formed(),
        network@.pool == spec_run(transaction_broad_caster, block_miner, end_time).1,
        network@.blocks == spec_run(transaction_broad_caster, block_miner, end_time).2,
{
    let mut broadcaster = transaction_broad_caster;
    let mut pool = TransactionPool::new();
    let mut blocks: Vec<Block> = Vec::new();
    let mut time: Time = 0;
    while time < end_time
        invariant
            broadcaster.wf(),
            block_miner.wf(),
            pool.well_formed(),
            time <= end_time,
            broadcaster == spec_run(transaction_broad_caster, block_miner, time).0,
            pool@ == spec_run(transaction_broad_caster, block_miner, time).1,
            blocks@.map_values(|b: Block| b@) == spec_run(
                transaction_broad_caster,
                block_miner,
                time,
            ).2,
        decreases end_time - time,
    {
        let ghost blocks_before = blocks@;
        broadcaster.broadcast_at(time, &mut pool);
        let mined = block_miner.mine_at(time, &mut pool);
        if let Some(block) = mined {
            blocks.push(block);
            proof {
                assert(blocks@.map_values(|b: Block| b@) =~= blocks_before.map_values(
                    |b: Block| b@,
                ).push(blocks@.last()@));
            }
        }
        time = time + 1;
    }
    Network { pool, blocks }
}

/// The broadcaster's state after acting at every tick in `[0, end)`; it
/// evolves independently of the miner.
pub open spec fn broadcaster_at<T: TransactionBroadcaster>(broadcaster: T, end: Time) -> T
    decreases end,
{
    if end == 0 {
        broadcaster
    } else {
        broadcaster_at(broadcaster, (end - 1) as Time).stepped((end - 1) as Time)
    }
}

/// Every transaction emitted during the ticks `[0, end)`, in emission order.
pub open spec fn all_emitted<T: TransactionBroadcaster>(broadcaster: T, end: Time) -> Seq<
    Transaction,
>
    decreases end,
{
    if end == 0 {
        Seq::empty()
    } else {
        all_emitted(broadcaster, (end - 1) as Time) + broadcaster_at(
            broadcaster,
            (end - 1) as Time,
        ).emitted((end - 1) as Time)
    }
}

/// Every transaction carried by a sequence of blocks, in order.
pub open spec fn blocks_transactions(blocks: Seq<BlockModel>) -> Seq<Transaction>
    decreases blocks.len(),
{
    if blocks.len() == 0 {
        Seq::empty()
    } else {
        blocks_transactions(blocks.drop_last()) + blocks.last().transactions
    }
}

/// The broadcaster state that a run threads along is the fold of `stepped`.
pub proof fn lemma_spec_run_broadcaster<T: TransactionBroadcaster, B: BlockMiner>(
    broadcaster: T,
    miner: B,
    end: Time,
)
    ensures
        spec_run(broadcaster, miner, end).0 == broadcaster_at(broadcaster, end),
    decreases end,
{
    if end > 0 {
        lemma_spec_run_broadcaster(broadcaster, miner, (end - 1) as Time);
    }
}

/// The pool is sorted by ascending fee price at every point of a run.
pub proof fn lemma_spec_run_pool_sorted<T: TransactionBroadcaster, B: BlockMiner>(
    broadcaster: T,
    miner: B,
    end: Time,
)
    ensures
        sorted_by_fee(spec_run(broadcaster, miner, end).1),
    decreases end,
{
    if end > 0 {
        let t = (end - 1) as Time;
        lemma_spec_run_pool_sorted(broadcaster, miner, t);
        let prev = spec_run(broadcaster, miner, t);
        let pool_after = pool_append_all(prev.1, prev.0.emitted(t));
        lemma_pool_append_all_sorted(prev.1, prev.0.emitted(t));
        match miner.budget_at(t) {
            Option::None => {},
            Option::Some(budget) => {
                lemma_pool_rest_sorted(pool_after, budget as int);
            },
        }
    }
}

/// Conservation: over any run, every broadcast transaction ends up in
/// exactly one of the mined blocks or the residual pool — none is lost and
/// none is duplicated.
pub proof fn lemma_conservation<T: TransactionBroadcaster, B: BlockMiner>(
    broadcaster: T,
    miner: B,
    end: Time,
)
    ensures
        all_emitted(broadcaster, end).to_multiset() == spec_run(
            broadcaster,
            miner,
            end,
        ).1.to_multiset().add(
            blocks_transactions(spec_run(broadcaster, miner, end).2).to_multiset(),
        ),
    decreases end,
{
    broadcast use vstd::seq_lib::group_to_multiset_ensures;
    broadcast use vstd::multiset::group_multiset_axioms;

    if end == 0 {
        assert(all_emitted(broadcaster, end).to_multiset() =~= spec_run(
            broadcaster,
            miner,
            end,
        ).1.to_multiset().add(
            blocks_transactions(spec_run(broadcaster, miner, end).2).to_multiset(),
        ));
    } else {
        let t = (end - 1) as Time;
        lemma_conservation(broadcaster, miner, t);
        lemma_spec_run_broadcaster(broadcaster, miner, t);
        let prev = spec_run(broadcaster, miner, t);
        let emitted = prev.0.emitted(t);
        let pool_after = pool_append_all(prev.1, emitted);
        lemma_pool_append_all_multiset(prev.1, emitted);
        lemma_multiset_commutative(all_emitted(broadcaster, t), emitted);
        assert(all_emitted(broadcaster, end).to_multiset() == all_emitted(
            broadcaster,
            t,
        ).to_multiset().add(emitted.to_multiset()));
        match miner.budget_at(t) {
            Option::None => {
                assert(all_emitted(broadcaster, end).to_multiset() =~= pool_after.to_multiset()
                    .add(blocks_transactions(prev.2).to_multiset()));
            },
            Option::Some(budget) => {
                let taken = pool_take(pool_after, budget as int);
                let rest = pool_rest(pool_after, budget as int);
                lemma_pool_take_rest_multiset(pool_after, budget as int);
                let blk = BlockModel { mined_at: t, transactions: taken };
                let blocks2 = prev.2.push(blk);
                assert(blocks2.drop_last() =~= prev.2);
                assert(blocks_transactions(blocks2) == blocks_transactions(prev.2)
                    + taken);
                lemma_multiset_commutative(blocks_transactions(prev.2), taken);
                assert(rest.to_multiset().add(blocks_transactions(blocks2).to_multiset())
                    =~= rest.to_multiset().add(taken.to_multiset()).add(
                    blocks_transactions(prev.2).to_multiset(),
                ));
                assert(rest.to_multiset().add(taken.to_multiset()).add(
                    blocks_transactions(prev.2).to_multiset(),
                ) == pool_after.to_multiset().add(blocks_transactions(prev.2).to_multiset()));
                assert(pool_after.to_multiset().add(blocks_transactions(prev.2).to_multiset())
                    =~= prev.1.to_multiset().add(blocks_transactions(prev.2).to_multiset()).add(
                    emitted.to_multiset(),
                ));
                assert(all_emitted(broadcaster, end).to_multiset() =~= prev.1.to_multiset().add(
                    blocks_transactions(prev.2).to_multiset(),
                ).add(emitted.to_multiset()));
            },
        }
    }
}

/// The mined blocks are chronological: each carries a tick within the run,
/// and their mining ticks strictly increase along the chain.
pub proof fn lemma_blocks_chronological<T: TransactionBroadcaster, B: BlockMiner>(
    broadcaster: T,
    miner: B,
    end: Time,
)
    ensures
        forall|k: int|
            0 <= k < spec_run(broadcaster, miner, end).2.len() ==> spec_run(
                broadcaster,
                miner,
                end,
            ).2[k].mined_at < end,
        forall|k1: int, k2: int|
            0 <= k1 < k2 < spec_run(broadcaster, miner, end).2.len() ==> spec_run(
                broadcaster,
                miner,
                end,
            ).2[k1].mined_at < spec_run(broadcaster, miner, end).2[k2].mined_at,
    decreases end,
{
    if end > 0 {
        let t = (end - 1) as Time;
        lemma_blocks_chronological(broadcaster, miner, t);
        let prev = spec_run(broadcaster, miner, t);
        let blocks2 = spec_run(broadcaster, miner, end).2;
        assert forall|k: int| 0 <= k < blocks2.len() implies blocks2[k].mined_at < end by {
            if k < prev.2.len() {
                assert(blocks2[k] == prev.2[k]);
            }
        }
        assert forall|k1: int, k2: int|
            0 <= k1 < k2 < blocks2.len() implies blocks2[k1].mined_at
            < blocks2[k2].mined_at by {
            assert(blocks2[k1] == prev.2[k1]);
            if k2 < prev.2.len() {
                assert(blocks2[k2] == prev.2[k2]);
            } else {
                assert(blocks2[k2].mined_at == t);
                assert(prev.2[k1].mined_at < t);
            }
        }
    }
}

/// Causality: mining at a tick sees only transactions broadcast at or
/// before it. Every transaction of every block was broadcast no later than
/// the block's own tick, and every unconfirmed transaction was broadcast
/// within the run.
pub proof fn lemma_causality<T: TransactionBroadcaster, B: BlockMiner>(
    broadcaster: T,
    miner: B,
    end: Time,
)
    ensures
        forall|i: int|
            0 <= i < spec_run(broadcaster, miner, end).1.len() ==> spec_run(
                broadcaster,
                miner,
                end,
            ).1[i].broadcasted_at < end,
        forall|k: int, j: int|
            0 <= k < spec_run(broadcaster, miner, end).2.len() && 0 <= j < spec_run(
                broadcaster,
                miner,
                end,
            ).2[k].transactions.len() ==> spec_run(
                broadcaster,
                miner,
                end,
            ).2[k].transactions[j].broadcasted_at <= spec_run(
                broadcaster,
                miner,
                end,
            ).2[k].mined_at,
    decreases end,
{
    if end > 0 {
        let t = (end - 1) as Time;
        lemma_causality(broadcaster, miner, t);
        let prev = spec_run(broadcaster, miner, t);
        let emitted = prev.0.emitted(t);
        prev.0.emitted_stamped(t);
        let pool_after = pool_append_all(prev.1, emitted);
        crate::transaction::lemma_pool_append_all_elements(prev.1, emitted);
        assert forall|i: int|
            0 <= i < pool_after.len() implies pool_after[i].broadcasted_at < end by {
            assert(pool_after.contains(pool_after[i]));
            let x = pool_after[i];
            if prev.1.contains(x) {
                let w = choose|w: int| 0 <= w < prev.1.len() && prev.1[w] == x;
                assert(prev.1[w].broadcasted_at < t);
            } else {
                let w = choose|w: int| 0 <= w < emitted.len() && emitted[w] == x;
                assert(emitted[w].broadcasted_at == t);
            }
        }
        match miner.budget_at(t) {
            Option::None => {},
            Option::Some(budget) => {
                crate::transaction::lemma_pool_split_elements(pool_after, budget as int);
                let taken = pool_take(pool_after, budget as int);
                let rest = pool_rest(pool_after, budget as int);
                assert forall|i: int|
                    0 <= i < rest.len() implies rest[i].broadcasted_at < end by {
                    let x = rest[i];
                    assert(rest.contains(x));
                    assert(pool_after.contains(x));
                    let w = choose|w: int| 0 <= w < pool_after.len() && pool_after[w] == x;
                    assert(pool_after[w].broadcasted_at < end);
                }
                assert forall|j: int|
                    0 <= j < taken.len() implies taken[j].broadcasted_at <= t by {
                    let x = taken[j];
                    assert(taken.contains(x));
                    assert(pool_after.contains(x));
                    let w = choose|w: int| 0 <= w < pool_after.len() && pool_after[w] == x;
                    assert(pool_after[w].broadcasted_at < end);
                }
                let blocks2 = spec_run(broadcaster, miner, end).2;
                assert forall|k: int, j: int|
                    0 <= k < blocks2.len() && 0 <= j
                        < blocks2[k].transactions.len() implies blocks2[k].transactions[j].broadcasted_at
                    <= blocks2[k].mined_at by {
                    if k < blocks2.len() - 1 {
                        assert(blocks2[k] == prev.2[k]);
                    } else {
                        assert(blocks2[k].transactions == taken);
                        assert(blocks2[k].mined_at == t);
                    }
                }
            },
        }
    }
}

/// Determinism: the outcome of a run is a function of the broadcaster's
/// initial state, the miner's configuration, and the tick count alone, so
/// two runs from equal configurations yield equal networks.
pub proof fn lemma_run_deterministic<T: TransactionBroadcaster, B: BlockMiner>(
    broadcaster1: T,
    miner1: B,
    end1: Time,
    broadcaster2: T,
    miner2: B,
    end2: Time,
)
    requires
        broadcaster1 == broadcaster2,
        miner1 == miner2,
        end1 == end2,
    ensures
        spec_run(broadcaster1, miner1, end1) == spec_run(broadcaster2, miner2, end2),
{
}

/// Boundary: a run over zero ticks produces an empty network — no blocks
/// and an empty pool.
pub proof fn lemma_run_zero_ticks<T: TransactionBroadcaster, B: BlockMiner>(
    broadcaster: T,
    miner: B,
)
    ensures
        spec_run(broadcaster, miner, 0).1 == Seq::<Transaction>::empty(),
        spec_run(broadcaster, miner, 0).2 == Seq::<BlockModel>::empty(),
{
}

/// Boundary: a uniform miner whose interval is at least the run length fires
/// at most once, at tick zero (every tick is a multiple of any interval at
/// tick zero, so only the later ticks stay silent).
pub proof fn lemma_sparse_miner<T: TransactionBroadcaster>(
    broadcaster: T,
    miner: UniformBlockMiner,
    end: Time,
)
    requires
        miner.interval > 0,
        end <= miner.interval,
    ensures
        spec_run(broadcaster, miner, end).2.len() <= 1,
        forall|k: int|
            0 <= k < spec_run(broadcaster, miner, end).2.len() ==> spec_run(
                broadcaster,
                miner,
                end,
            ).2[k].mined_at == 0,
    decreases end,
{
    if end > 0 {
        let t = (end - 1) as Time;
        lemma_sparse_miner(broadcaster, miner, t);
        if t > 0 {
            vstd::arithmetic::div_mod::lemma_small_mod(t as nat, miner.interval as nat);
            assert(t % miner.interval == t);
        }
    }
}

/// Boundary: a transaction larger than a uniform miner's fixed budget is
/// never carried by any mined block, so it stays unconfirmed forever.
pub proof fn lemma_oversized_never_mined<T: TransactionBroadcaster>(
    broadcaster: T,
    miner: UniformBlockMiner,
    end: Time,
)
    ensures
        forall|k: int, j: int|
            0 <= k < spec_run(broadcaster, miner, end).2.len() && 0 <= j < spec_run(
                broadcaster,
                miner,
                end,
            ).2[k].transactions.len() ==> spec_run(
                broadcaster,
                miner,
                end,
            ).2[k].transactions[j].size <= miner.budget,
    decreases end,
{
    if end > 0 {
        let t = (end - 1) as Time;
        lemma_oversized_never_mined(broadcaster, miner, t);
        lemma_spec_run_pool_sorted(broadcaster, miner, t);
        let prev = spec_run(broadcaster, miner, t);
        let pool_after = pool_append_all(prev.1, prev.0.emitted(t));
        lemma_pool_append_all_sorted(prev.1, prev.0.emitted(t));
        match miner.budget_at(t) {
            Option::None => {},
            Option::Some(budget) => {
                lemma_pool_take_greedy(pool_after, budget as int);
                let blocks2 = spec_run(broadcaster, miner, end).2;
                assert forall|k: int, j: int|
                    0 <= k < blocks2.len() && 0 <= j
                        < blocks2[k].transactions.len() implies blocks2[k].transactions[j].size
                    <= miner.budget by {
                    if k < blocks2.len() - 1 {
                        assert(blocks2[k] == prev.2[k]);
                    } else {
                        assert(blocks2[k].transactions == pool_take(pool_after, budget as int));
                    }
                }
            },
        }
    }
}

} // verus!
