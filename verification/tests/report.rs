use chain_sim::block::UniformBlockMiner;
use chain_sim::report::TransactionReport;
use chain_sim::sim::run;
use chain_sim::transaction::UniformTransactionBroadCaster;

#[test]
fn report_lists_unconfirmed_then_mined_rows() {
    let broadcaster = UniformTransactionBroadCaster { interval: 5, fee_price: 100, tx_size: 10 };
    let miner = UniformBlockMiner { interval: 50, budget: 100 };
    let network = run(broadcaster, miner, 100);
    let unconfirmed = network.pool.txs().len();
    let mined: usize = network.blocks.iter().map(|b| b.transactions.len()).sum();

    let report = TransactionReport::build(network);
    let rows = report.rows();
    assert_eq!(rows.len(), unconfirmed + mined);
    assert!(rows[..unconfirmed].iter().all(|r| r.mined_at.is_none()));
    assert!(rows[unconfirmed..].iter().all(|r| r.mined_at.is_some()));
    assert!(rows.iter().all(|r| r.fee_price == 100));
}

#[test]
fn report_stamps_each_mined_row_with_its_block_tick() {
    let broadcaster = UniformTransactionBroadCaster { interval: 1, fee_price: 3, tx_size: 10 };
    let miner = UniformBlockMiner { interval: 2, budget: 20 };
    let network = run(broadcaster, miner, 4);
    let report = TransactionReport::build(network);
    let rows = report.rows();
    let stamps: Vec<Option<usize>> = rows.iter().map(|r| r.mined_at).collect();
    // Tick 0 mines the tick-0 transaction; tick 2 mines those of ticks 1 and
    // 2; the tick-3 transaction stays unconfirmed. Equal-fee transactions
    // are drained from the most recently inserted end first.
    assert_eq!(stamps, vec![None, Some(0), Some(2), Some(2)]);
    let broadcast_ticks: Vec<usize> = rows.iter().map(|r| r.broadcasted_at).collect();
    assert_eq!(broadcast_ticks, vec![3, 0, 2, 1]);
}

#[test]
fn rebuilding_a_report_yields_identical_rows() {
    let broadcaster = UniformTransactionBroadCaster { interval: 3, fee_price: 7, tx_size: 5 };
    let miner = UniformBlockMiner { interval: 4, budget: 10 };
    let network = run(broadcaster, miner, 20);
    let first = TransactionReport::build(network.clone());
    let second = TransactionReport::build(network);
    assert_eq!(first.rows(), second.rows());
}
