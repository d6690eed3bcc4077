use chain_sim::block::UniformBlockMiner;
use chain_sim::sim::run;
use chain_sim::transaction::{
    FeeSample, SampledTransactionBroadCaster, TransactionBroadcaster,
    UniformTransactionBroadCaster,
};

#[test]
fn uniform_scenario_produces_two_blocks() {
    // Broadcaster: one size-10, fee-100 transaction every 5 ticks.
    // Miner: every 50 ticks, budget 100. Over [0, 100) that is exactly two
    // blocks, at ticks 0 and 50, each with at most 10 transactions.
    let broadcaster = UniformTransactionBroadCaster { interval: 5, fee_price: 100, tx_size: 10 };
    let miner = UniformBlockMiner { interval: 50, budget: 100 };
    let network = run(broadcaster, miner, 100);

    assert_eq!(network.blocks.len(), 2);
    assert_eq!(network.blocks[0].mined_at, 0);
    assert_eq!(network.blocks[1].mined_at, 50);
    assert!(network.blocks.iter().all(|b| b.transactions.len() <= 10));
    // Tick 0: only the tick-0 transaction is in the pool when mining runs.
    assert_eq!(network.blocks[0].transactions.len(), 1);
    // Tick 50: the nine from ticks 5..=45 plus the tick-50 one fill the block.
    assert_eq!(network.blocks[1].transactions.len(), 10);
    // Ticks 55..=95 stay unconfirmed.
    assert_eq!(network.pool.txs().len(), 9);
}

#[test]
fn zero_tick_run_produces_empty_network() {
    let broadcaster = UniformTransactionBroadCaster { interval: 5, fee_price: 100, tx_size: 10 };
    let miner = UniformBlockMiner { interval: 50, budget: 100 };
    let network = run(broadcaster, miner, 0);
    assert!(network.blocks.is_empty());
    assert!(network.pool.txs().is_empty());
}

#[test]
fn miner_interval_beyond_run_length_fires_only_at_tick_zero() {
    let broadcaster = UniformTransactionBroadCaster { interval: 5, fee_price: 100, tx_size: 10 };
    let miner = UniformBlockMiner { interval: 200, budget: 100 };
    let network = run(broadcaster, miner, 100);
    assert_eq!(network.blocks.len(), 1);
    assert_eq!(network.blocks[0].mined_at, 0);
}

#[test]
fn oversized_transactions_stay_unconfirmed_forever() {
    // Every emitted transaction (size 200) exceeds the miner's budget (100),
    // so no block ever carries one and all of them stay in the pool.
    let broadcaster = UniformTransactionBroadCaster { interval: 10, fee_price: 1, tx_size: 200 };
    let miner = UniformBlockMiner { interval: 10, budget: 100 };
    let network = run(broadcaster, miner, 100);
    assert!(network.blocks.iter().all(|b| b.transactions.is_empty()));
    assert_eq!(network.pool.txs().len(), 10);
}

#[test]
fn conservation_scenario_splits_pool_and_block() {
    // Three size-5 transactions with fees 10, 50, 30 all broadcast at tick 0;
    // mining at tick 0 with budget 10 takes the fee-50 and fee-30 ones and
    // leaves the fee-10 one unconfirmed.
    let samples = vec![
        FeeSample { gap: 0, fee_price: 10 },
        FeeSample { gap: 0, fee_price: 50 },
        FeeSample { gap: 1, fee_price: 30 },
    ];
    let broadcaster = SampledTransactionBroadCaster::new(0, samples, 5);
    let miner = UniformBlockMiner { interval: 1000, budget: 10 };
    let network = run(broadcaster, miner, 1);

    assert_eq!(network.blocks.len(), 1);
    let mined: Vec<usize> = network.blocks[0].transactions.iter().map(|t| t.fee_price).collect();
    assert_eq!(mined, vec![50, 30]);
    let unconfirmed: Vec<usize> = network.pool.txs().iter().map(|t| t.fee_price).collect();
    assert_eq!(unconfirmed, vec![10]);
}

#[test]
fn identical_configurations_give_identical_networks() {
    let samples = vec![
        FeeSample { gap: 3, fee_price: 40 },
        FeeSample { gap: 0, fee_price: 90 },
        FeeSample { gap: 7, fee_price: 25 },
        FeeSample { gap: 2, fee_price: 60 },
    ];
    let first = run(
        SampledTransactionBroadCaster::new(2, samples.clone(), 4),
        UniformBlockMiner { interval: 5, budget: 8 },
        30,
    );
    let second = run(
        SampledTransactionBroadCaster::new(2, samples, 4),
        UniformBlockMiner { interval: 5, budget: 8 },
        30,
    );
    assert_eq!(first, second);
}

#[test]
fn sampled_broadcaster_collapses_zero_gaps_onto_one_tick() {
    let samples = vec![
        FeeSample { gap: 0, fee_price: 1 },
        FeeSample { gap: 0, fee_price: 2 },
        FeeSample { gap: 4, fee_price: 3 },
        FeeSample { gap: 1, fee_price: 4 },
    ];
    let mut broadcaster = SampledTransactionBroadCaster::new(3, samples, 1);
    assert!(broadcaster.emit_at(0).is_empty());
    assert!(broadcaster.emit_at(2).is_empty());
    let burst = broadcaster.emit_at(3);
    let fees: Vec<usize> = burst.iter().map(|t| t.fee_price).collect();
    assert_eq!(fees, vec![1, 2, 3]);
    assert!(burst.iter().all(|t| t.broadcasted_at == 3));
    let late = broadcaster.emit_at(7);
    let late_fees: Vec<usize> = late.iter().map(|t| t.fee_price).collect();
    assert_eq!(late_fees, vec![4]);
    assert!(broadcaster.emit_at(8).is_empty());
}

#[test]
fn uniform_broadcaster_emits_on_multiples_of_its_interval() {
    let mut broadcaster = UniformTransactionBroadCaster { interval: 5, fee_price: 9, tx_size: 2 };
    let at_zero = broadcaster.emit_at(0);
    assert_eq!(at_zero.len(), 1);
    assert_eq!(at_zero[0].fee_price, 9);
    assert_eq!(at_zero[0].size, 2);
    assert_eq!(at_zero[0].broadcasted_at, 0);
    assert!(broadcaster.emit_at(3).is_empty());
    assert_eq!(broadcaster.emit_at(10).len(), 1);
}
