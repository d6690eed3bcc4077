use vstd::prelude::*;
use crate::transaction::{Time, Transaction};
use crate::block::{BlockModel, Network};

verus! {

/// One row of the flat per-transaction report: when the transaction was
/// broadcast, what fee it bid, and the tick of the block that mined it —
/// `None` for a transaction still unconfirmed at run end.
#[derive(Debug, PartialEq, Eq, Clone, Copy)]
pub struct TransactionReportRow {
    pub broadcasted_at: Time,
    pub fee_price: usize,
    pub mined_at: Option<Time>,
}

/// The row reporting a transaction still in the pool at run end.
pub open spec fn row_unconfirmed(tx: Transaction) -> TransactionReportRow {
    TransactionReportRow {
        broadcasted_at: tx.broadcasted_at,
        fee_price: tx.fee_price,
        mined_at: Option::None,
    }
}

/// The row reporting a transaction mined at tick `at`.
pub open spec fn row_mined(tx: Transaction, at: Time) -> TransactionReportRow {
    TransactionReportRow {
        broadcasted_at: tx.broadcasted_at,
        fee_price: tx.fee_price,
        mined_at: Option::Some(at),
    }
}

/// The rows for the residual pool, in pool order.
pub open spec fn pool_rows(pool: Seq<Transaction>) -> Seq<TransactionReportRow> {
    pool.map_values(|tx: Transaction| row_unconfirmed(tx))
}

/// The rows for one block's transactions, in block order.
pub open spec fn block_rows(block: BlockModel) -> Seq<TransactionReportRow> {
    block.transactions.map_values(|tx: Transaction| row_mined(tx, block.mined_at))
}

/// The rows for a chain of blocks, chronologically.
pub open spec fn blocks_rows(blocks: Seq<BlockModel>) -> Seq<TransactionReportRow>
    decreases blocks.len(),
{
    if blocks.len() == 0 {
        Seq::empty()
    } else {
        blocks_rows(blocks.drop_last()) + block_rows(blocks.last())
    }
}

/// The full report of a network: first the unconfirmed transactions, then
/// each block's transactions in chain order.
pub open spec fn report_rows(network: crate::block::NetworkModel) -> Seq<TransactionReportRow> {
    pool_rows(network.pool) + blocks_rows(network.blocks)
}

/// A flat per-transaction view of a completed network, ready for export.
#[derive(Debug, PartialEq, Eq, Clone)]
pub struct TransactionReport {
    rows: Vec<TransactionReportRow>,
}

impl View for TransactionReport {
    type V = Seq<TransactionReportRow>;

    closed spec fn view(&self) -> Seq<TransactionReportRow> {
        self.rows@
    }
}

impl TransactionReport {
    /// Flattens a completed network into one row per transaction: a row with
    /// no mining tick for each unconfirmed transaction in the pool, then a
    /// row per transaction of each block, stamped with its block's tick.
    /// The rows are a function of the network alone, so building a report
    /// twice from the same network yields identical rows.
    pub fn build(network: Network) -> (report: Self)
        ensures
            report@ == report_rows(network@),
    {
        let mut rows: Vec<TransactionReportRow> = Vec::new();
        let pool_txs = network.pool.txs();
        let mut i: usize = 0;
        while i < pool_txs.len()
            invariant
                i <= pool_txs.len(),
                pool_txs@ == network.pool@,
                rows@ == pool_rows(network.pool@.subrange(0, i as int)),
            decreases pool_txs.len() - i,
        {
            let tx = pool_txs[i];
            rows.push(
                TransactionReportRow {
                    broadcasted_at: tx.broadcasted_at,
                    fee_price: tx.fee_price,
                    mined_at: None,
                },
            );
            proof {
                assert(rows@ =~= pool_rows(network.pool@.subrange(0, i + 1)));
            }
            i = i + 1;
        }
        proof {
            assert(network.pool@.subrange(0, network.pool@.len() as int) =~= network.pool@);
        }
        let mut k: usize = 0;
        while k < network.blocks.len()
            invariant
                k <= network.blocks.len(),
                rows@ == pool_rows(network.pool@) + blocks_rows(
                    network@.blocks.subrange(0, k as int),
                ),
            decreases network.blocks.len() - k,
        {
            let block = &network.blocks[k];
            let mined_at = block.mined_at;
            let mut j: usize = 0;
            while j < block.transactions.len()
                invariant
                    j <= block.transactions.len(),
                    0 <= k < network.blocks.len(),
                    block == network.blocks[k as int],
                    mined_at == block.mined_at,
                    rows@ == pool_rows(network.pool@) + blocks_rows(
                        network@.blocks.subrange(0, k as int),
                    ) + block.transactions@.subrange(0, j as int).map_values(
                        |tx: Transaction| row_mined(tx, mined_at),
                    ),
                decreases block.transactions.len() - j,
            {
                let tx = block.transactions[j];
                rows.push(
                    TransactionReportRow {
                        broadcasted_at: tx.broadcasted_at,
                        fee_price: tx.fee_price,
                        mined_at: Some(mined_at),
                    },
                );
                proof {
                    assert(rows@ =~= pool_rows(network.pool@) + blocks_rows(
                        network@.blocks.subrange(0, k as int),
                    ) + block.transactions@.subrange(0, j + 1).map_values(
                        |tx: Transaction| row_mined(tx, mined_at),
                    ));
                }
                j = j + 1;
            }
            proof {
                let prefix = network@.blocks.subrange(0, k as int);
                let next_prefix = network@.blocks.subrange(0, k + 1);
                assert(next_prefix.drop_last() =~= prefix);
                assert(next_prefix.last() == network@.blocks[k as int]);
                assert(block.transactions@.subrange(0, block.transactions@.len() as int)
                    =~= block.transactions@);
                assert(block_rows(network@.blocks[k as int]) == block.transactions@.map_values(
                    |tx: Transaction| row_mined(tx, mined_at),
                ));
                assert(rows@ =~= pool_rows(network.pool@) + blocks_rows(next_prefix));
            }
            k = k + 1;
        }
        proof {
            assert(network@.blocks.subrange(0, network@.blocks.len() as int) =~= network@.blocks);
        }
        Self { rows }
    }

    /// Read-only access to the report's rows.
    pub fn rows(&self) -> (r: &Vec<TransactionReportRow>)
        ensures
            r@ == self@,
    {
        &self.rows
    }
}

/// Re-reporting is idempotent: the rows are a function of the network alone,
/// so two reports built from the same completed network are identical.
pub proof fn lemma_report_idempotent(first: Network, second: Network)
    requires
        first@ == second@,
    ensures
        report_rows(first@) == report_rows(second@),
{
}

} // verus!
