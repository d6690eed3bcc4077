use vstd::prelude::*;
use crate::transaction::{
    lemma_total_size_concat, lemma_total_size_nonneg, pool_rest, pool_take, total_size,
    Time, Transaction, TransactionPool,
};

verus! {

/// The largest cumulative transaction size a valid block may carry.
pub const MAX_BLOCK_SIZE: usize = 100;

/// Why a block failed validation on construction.
#[derive(Debug, PartialEq, Eq, Clone, Copy, Structural)]
pub enum BlockError {
    /// The block carries no transaction at all.
    Empty,
    /// The block's cumulative transaction size exceeds `MAX_BLOCK_SIZE`.
    Oversized,
}

/// An immutable mined block: the tick at which it was mined, and the
/// transactions pulled from the pool then, in descending fee order.
#[derive(Debug, PartialEq, Eq, Clone)]
pub struct Block {
    pub mined_at: Time,
    pub transactions: Vec<Transaction>,
}

/// The mathematical content of a block.
pub ghost struct BlockModel {
    pub mined_at: Time,
    pub transactions: Seq<Transaction>,
}

impl View for Block {
    type V = BlockModel;

    open spec fn view(&self) -> BlockModel {
        BlockModel { mined_at: self.mined_at, transactions: self.transactions@ }
    }
}

impl Block {
    /// Validating constructor: a block must carry at least one transaction
    /// and must not exceed `MAX_BLOCK_SIZE` in cumulative size; anything else
    /// is reported as an error instead of a panic.
    pub fn new(mined_at: Time, transactions: Vec<Transaction>) -> (r: Result<Block, BlockError>)
        ensures
            transactions@.len() == 0 ==> r == Err::<Block, BlockError>(BlockError::Empty),
            transactions@.len() > 0 && total_size(transactions@) > MAX_BLOCK_SIZE ==> r
                == Err::<Block, BlockError>(BlockError::Oversized),
            transactions@.len() > 0 && total_size(transactions@) <= MAX_BLOCK_SIZE ==> (
            r matches Ok(b) && b@.mined_at == mined_at && b@.transactions == transactions@),
    {
        if transactions.len() == 0 {
            return Err(BlockError::Empty);
        }
        let mut total: usize = 0;
        let mut i: usize = 0;
        while i < transactions.len()
            invariant
                i <= transactions.len(),
                total == total_size(transactions@.subrange(0, i as int)),
                total <= MAX_BLOCK_SIZE,
            decreases transactions.len() - i,
        {
            let tx = transactions[i];
            proof {
                let pre = transactions@.subrange(0, i as int);
                let at = transactions@.subrange(i as int, i + 1);
                let post = transactions@.subrange(i + 1, transactions@.len() as int);
                assert(at =~= seq![tx]);
                assert(transactions@ =~= pre + (at + post));
                lemma_total_size_concat(pre, at + post);
                lemma_total_size_concat(at, post);
                lemma_total_size_nonneg(post);
                assert(at.first() == tx);
                assert(at.drop_first() =~= Seq::<Transaction>::empty());
                assert(total_size(Seq::<Transaction>::empty()) == 0);
                assert(total_size(at) == tx.size);
                assert(transactions@.subrange(0, i + 1) =~= pre + at);
                lemma_total_size_concat(pre, at);
            }
            if tx.size > MAX_BLOCK_SIZE - total {
                return Err(BlockError::Oversized);
            }
            total = total + tx.size;
            i = i + 1;
        }
        proof {
            assert(transactions@.subrange(0, transactions@.len() as int) =~= transactions@);
        }
        Ok(Block { mined_at, transactions })
    }
}

/// A mining policy, queried once per tick: whether a block is produced at a
/// tick and with what size budget the pool is drained for it.
pub trait BlockMiner: Sized {
    /// Validity of the miner's configuration.
    spec fn wf(&self) -> bool;

    /// The extraction budget granted at `time`, or `None` when no block is
    /// mined then.
    spec fn budget_at(&self, time: Time) -> Option<usize>;

    /// The mining decision at `time`.
    fn is_mine_at(&self, time: Time) -> (r: Option<usize>)
        requires
            self.wf(),
        ensures
            r == self.budget_at(time),
    ;

    /// On a positive decision, drains the pool under the granted budget and
    /// wraps the result in a block stamped with the current tick; otherwise
    /// leaves the pool untouched. A block may legitimately be empty when the
    /// pool was empty at mining time.
    fn mine_at(&self, time: Time, pool: &mut TransactionPool) -> (r: Option<Block>)
        requires
            self.wf(),
            old(pool).well_formed(),
        ensures
            final(pool).well_formed(),
            match self.budget_at(time) {
                None => r is None && final(pool)@ == old(pool)@,
                Some(budget) => {
                    &&& (r matches Some(b) && b@.mined_at == time && b@.transactions == pool_take(
                        old(pool)@,
                        budget as int,
                    ))
                    &&& final(pool)@ == pool_rest(old(pool)@, budget as int)
                },
            },
    {
        if let Some(budget) = self.is_mine_at(time) {
            let transactions = pool.pop_transactions(budget);
            Some(Block { mined_at: time, transactions })
        } else {
            None
        }
    }
}

/// Mines a block with a fixed size budget whenever the tick is a multiple of
/// `interval`.
pub struct UniformBlockMiner {
    pub interval: Time,
    pub budget: usize,
}

impl BlockMiner for UniformBlockMiner {
    open spec fn wf(&self) -> bool {
        self.interval > 0
    }

    open spec fn budget_at(&self, time: Time) -> Option<usize> {
        if time % self.interval == 0 {
            Some(self.budget)
        } else {
            None
        }
    }

    fn is_mine_at(&self, time: Time) -> (r: Option<usize>) {
        if time % self.interval == 0 {
            Some(self.budget)
        } else {
            None
        }
    }
}

/// The engine's output: the pool's final state (the unconfirmed
/// transactions) plus the chronological sequence of mined blocks.
#[derive(Debug, PartialEq, Eq, Clone)]
pub struct Network {
    pub pool: TransactionPool,
    pub blocks: Vec<Block>,
}

/// The mathematical content of a network.
pub ghost struct NetworkModel {
    pub pool: Seq<Transaction>,
    pub blocks: Seq<BlockModel>,
}

impl View for Network {
    type V = NetworkModel;

    open spec fn view(&self) -> NetworkModel {
        NetworkModel {
            pool: self.pool@,
            blocks: self.blocks@.map_values(|b: Block| b@),
        }
    }
}

} // verus!
