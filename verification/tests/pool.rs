use chain_sim::transaction::{Transaction, TransactionPool};

fn tx(fee_price: usize, size: usize, broadcasted_at: usize) -> Transaction {
    Transaction { fee_price, size, broadcasted_at }
}

#[test]
fn append_keeps_ascending_fee_order() {
    let mut pool = TransactionPool::new();
    pool.append(tx(10, 5, 0));
    pool.append(tx(50, 5, 0));
    pool.append(tx(30, 5, 0));
    let fees: Vec<usize> = pool.txs().iter().map(|t| t.fee_price).collect();
    assert_eq!(fees, vec![10, 30, 50]);
}

#[test]
fn append_is_stable_for_equal_fees() {
    let mut pool = TransactionPool::new();
    pool.append(tx(20, 1, 0));
    pool.append(tx(20, 2, 1));
    pool.append(tx(20, 3, 2));
    let ticks: Vec<usize> = pool.txs().iter().map(|t| t.broadcasted_at).collect();
    assert_eq!(ticks, vec![0, 1, 2]);
}

#[test]
fn extract_takes_highest_fees_within_budget() {
    let mut pool = TransactionPool::new();
    pool.append(tx(10, 5, 0));
    pool.append(tx(50, 5, 0));
    pool.append(tx(30, 5, 0));
    let taken = pool.pop_transactions(10);
    let fees: Vec<usize> = taken.iter().map(|t| t.fee_price).collect();
    assert_eq!(fees, vec![50, 30]);
    let left: Vec<usize> = pool.txs().iter().map(|t| t.fee_price).collect();
    assert_eq!(left, vec![10]);
}

#[test]
fn extract_with_zero_budget_returns_nothing() {
    let mut pool = TransactionPool::new();
    pool.append(tx(10, 5, 0));
    let taken = pool.pop_transactions(0);
    assert!(taken.is_empty());
    assert_eq!(pool.txs().len(), 1);
}

#[test]
fn extract_with_large_budget_drains_whole_pool() {
    let mut pool = TransactionPool::new();
    pool.append(tx(10, 5, 0));
    pool.append(tx(50, 5, 0));
    pool.append(tx(30, 5, 0));
    let taken = pool.pop_transactions(1000);
    let fees: Vec<usize> = taken.iter().map(|t| t.fee_price).collect();
    assert_eq!(fees, vec![50, 30, 10]);
    assert!(pool.txs().is_empty());
}

#[test]
fn extract_stops_at_first_transaction_that_does_not_fit() {
    let mut pool = TransactionPool::new();
    pool.append(tx(10, 2, 0));
    pool.append(tx(50, 8, 0));
    pool.append(tx(30, 6, 0));
    // Highest fee (size 8) fits in 10; the next (size 6) would overflow and
    // the scan stops there even though the size-2 transaction would fit.
    let taken = pool.pop_transactions(10);
    let fees: Vec<usize> = taken.iter().map(|t| t.fee_price).collect();
    assert_eq!(fees, vec![50]);
    assert_eq!(pool.txs().len(), 2);
}

#[test]
fn extract_when_top_transaction_exceeds_budget_returns_nothing() {
    let mut pool = TransactionPool::new();
    pool.append(tx(50, 20, 0));
    pool.append(tx(10, 1, 0));
    let taken = pool.pop_transactions(15);
    assert!(taken.is_empty());
    assert_eq!(pool.txs().len(), 2);
}

#[test]
fn extract_from_empty_pool_returns_nothing() {
    let mut pool = TransactionPool::new();
    let taken = pool.pop_transactions(100);
    assert!(taken.is_empty());
    assert!(pool.txs().is_empty());
}
