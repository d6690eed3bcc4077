use chain_sim::block::{Block, BlockError, BlockMiner, UniformBlockMiner, MAX_BLOCK_SIZE};
use chain_sim::transaction::{Transaction, TransactionPool};

fn tx(fee_price: usize, size: usize, broadcasted_at: usize) -> Transaction {
    Transaction { fee_price, size, broadcasted_at }
}

#[test]
fn block_new_rejects_empty_transaction_list() {
    let r = Block::new(7, vec![]);
    assert_eq!(r, Err(BlockError::Empty));
}

#[test]
fn block_new_rejects_oversized_total() {
    let r = Block::new(7, vec![tx(1, MAX_BLOCK_SIZE, 0), tx(2, 1, 0)]);
    assert_eq!(r, Err(BlockError::Oversized));
}

#[test]
fn block_new_accepts_a_full_block() {
    let txs = vec![tx(5, MAX_BLOCK_SIZE / 2, 0), tx(6, MAX_BLOCK_SIZE / 2, 1)];
    let block = Block::new(7, txs.clone()).unwrap();
    assert_eq!(block.mined_at, 7);
    assert_eq!(block.transactions, txs);
}

#[test]
fn uniform_miner_decides_on_multiples_of_its_interval() {
    let miner = UniformBlockMiner { interval: 50, budget: 100 };
    assert_eq!(miner.is_mine_at(0), Some(100));
    assert_eq!(miner.is_mine_at(49), None);
    assert_eq!(miner.is_mine_at(50), Some(100));
    assert_eq!(miner.is_mine_at(51), None);
}

#[test]
fn uniform_miner_drains_the_pool_into_a_block() {
    let miner = UniformBlockMiner { interval: 2, budget: 10 };
    let mut pool = TransactionPool::new();
    pool.append(tx(10, 5, 0));
    pool.append(tx(50, 5, 0));
    pool.append(tx(30, 5, 0));

    let block = miner.mine_at(2, &mut pool).unwrap();
    assert_eq!(block.mined_at, 2);
    let fees: Vec<usize> = block.transactions.iter().map(|t| t.fee_price).collect();
    assert_eq!(fees, vec![50, 30]);
    assert_eq!(pool.txs().len(), 1);

    assert!(miner.mine_at(3, &mut pool).is_none());
    assert_eq!(pool.txs().len(), 1);
}
