use vstd::prelude::*;
use vstd::multiset::Multiset;
use vstd::seq_lib::lemma_multiset_commutative;

verus! {

/// One discrete unit of simulated time.
pub type Time = usize;

/// An immutable transaction: a fee bid, a byte size, and the tick at which it
/// entered the network. Duplicates with identical fields are indistinguishable.
#[derive(Debug, PartialEq, Eq, Clone, Copy, Structural)]
pub struct Transaction {
    pub fee_price: usize,
    pub size: usize,
    pub broadcasted_at: Time,
}

/// A sequence is ordered by ascending fee price.
pub open spec fn sorted_by_fee(s: Seq<Transaction>) -> bool {
    forall|i: int, j: int| 0 <= i < j < s.len() ==> s[i].fee_price <= s[j].fee_price
}

/// The position at which a transaction with fee price `fee` is inserted into
/// `s`: past every element whose fee price is at most `fee`, so that insertion
/// is stable among equal fees.
pub open spec fn fee_upper_index(s: Seq<Transaction>, fee: usize) -> int
    decreases s.len(),
{
    if s.len() == 0 {
        0
    } else if s.last().fee_price <= fee {
        s.len() as int
    } else {
        fee_upper_index(s.drop_last(), fee)
    }
}

/// The pool after inserting `tx` at its fee-ordered position.
pub open spec fn pool_append(s: Seq<Transaction>, tx: Transaction) -> Seq<Transaction> {
    s.insert(fee_upper_index(s, tx.fee_price), tx)
}

pub proof fn lemma_fee_upper_index_bounds(s: Seq<Transaction>, fee: usize)
    ensures
        0 <= fee_upper_index(s, fee) <= s.len(),
        forall|k: int| fee_upper_index(s, fee) <= k < s.len() ==> s[k].fee_price > fee,
    decreases s.len(),
{
    if s.len() > 0 && s.last().fee_price > fee {
        lemma_fee_upper_index_bounds(s.drop_last(), fee);
        assert forall|k: int| fee_upper_index(s, fee) <= k < s.len() implies s[k].fee_price
            > fee by {
            if k < s.len() - 1 {
                assert(s.drop_last()[k] == s[k]);
            }
        }
    }
}

pub proof fn lemma_fee_upper_index_sorted(s: Seq<Transaction>, fee: usize)
    requires
        sorted_by_fee(s),
    ensures
        forall|k: int| 0 <= k < fee_upper_index(s, fee) ==> s[k].fee_price <= fee,
    decreases s.len(),
{
    if s.len() > 0 && s.last().fee_price > fee {
        assert(sorted_by_fee(s.drop_last())) by {
            assert forall|i: int, j: int|
                0 <= i < j < s.drop_last().len() implies s.drop_last()[i].fee_price
                <= s.drop_last()[j].fee_price by {
                assert(s.drop_last()[i] == s[i]);
                assert(s.drop_last()[j] == s[j]);
            }
        }
        lemma_fee_upper_index_sorted(s.drop_last(), fee);
        lemma_fee_upper_index_bounds(s.drop_last(), fee);
        assert forall|k: int| 0 <= k < fee_upper_index(s, fee) implies s[k].fee_price <= fee by {
            assert(s.drop_last()[k] == s[k]);
        }
    }
}

/// Stable fee-ordered insertion keeps the pool sorted.
pub proof fn lemma_pool_append_sorted(s: Seq<Transaction>, tx: Transaction)
    requires
        sorted_by_fee(s),
    ensures
        sorted_by_fee(pool_append(s, tx)),
{
    let idx = fee_upper_index(s, tx.fee_price);
    lemma_fee_upper_index_bounds(s, tx.fee_price);
    lemma_fee_upper_index_sorted(s, tx.fee_price);
    let t = pool_append(s, tx);
    assert forall|i: int, j: int| 0 <= i < j < t.len() implies t[i].fee_price
        <= t[j].fee_price by {
        if i < idx {
            assert(t[i] == s[i]);
        } else if i == idx {
            assert(t[i] == tx);
        } else {
            assert(t[i] == s[i - 1]);
        }
        if j < idx {
            assert(t[j] == s[j]);
        } else if j == idx {
            assert(t[j] == tx);
        } else {
            assert(t[j] == s[j - 1]);
        }
    }
}

/// The transactions taken by a greedy extraction with size budget `budget`
/// from the pool `s` (ascending by fee): scan from the highest-fee end,
/// keep each transaction that still fits, and stop at the first one that
/// would push the running total over the budget. The result is ordered by
/// descending fee price.
pub open spec fn pool_take(s: Seq<Transaction>, budget: int) -> Seq<Transaction>
    decreases s.len(),
{
    if s.len() == 0 {
        Seq::empty()
    } else if s.last().size > budget {
        Seq::empty()
    } else {
        seq![s.last()] + pool_take(s.drop_last(), budget - s.last().size)
    }
}

/// The transactions left behind by the same greedy extraction: the prefix of
/// `s` below the first transaction that no longer fits.
pub open spec fn pool_rest(s: Seq<Transaction>, budget: int) -> Seq<Transaction>
    decreases s.len(),
{
    if s.len() == 0 {
        s
    } else if s.last().size > budget {
        s
    } else {
        pool_rest(s.drop_last(), budget - s.last().size)
    }
}

/// The cumulative byte size of a sequence of transactions.
pub open spec fn total_size(s: Seq<Transaction>) -> int
    decreases s.len(),
{
    if s.len() == 0 {
        0
    } else {
        s.first().size + total_size(s.drop_first())
    }
}

pub proof fn lemma_total_size_nonneg(s: Seq<Transaction>)
    ensures
        total_size(s) >= 0,
    decreases s.len(),
{
    if s.len() > 0 {
        lemma_total_size_nonneg(s.drop_first());
    }
}

/// Cumulative size is additive over concatenation.
pub proof fn lemma_total_size_concat(a: Seq<Transaction>, b: Seq<Transaction>)
    ensures
        total_size(a + b) == total_size(a) + total_size(b),
    decreases a.len(),
{
    if a.len() == 0 {
        assert(a + b =~= b);
    } else {
        assert((a + b).first() == a.first());
        assert((a + b).drop_first() =~= a.drop_first() + b);
        lemma_total_size_concat(a.drop_first(), b);
    }
}

pub proof fn lemma_sorted_drop_last(s: Seq<Transaction>)
    requires
        sorted_by_fee(s),
        s.len() > 0,
    ensures
        sorted_by_fee(s.drop_last()),
{
    assert forall|i: int, j: int|
        0 <= i < j < s.drop_last().len() implies s.drop_last()[i].fee_price
        <= s.drop_last()[j].fee_price by {
        assert(s.drop_last()[i] == s[i]);
        assert(s.drop_last()[j] == s[j]);
    }
}

/// The extraction never exceeds its budget.
pub proof fn lemma_pool_take_within_budget(s: Seq<Transaction>, budget: int)
    requires
        budget >= 0,
    ensures
        total_size(pool_take(s, budget)) <= budget,
    decreases s.len(),
{
    if s.len() > 0 && s.last().size <= budget {
        lemma_pool_take_within_budget(s.drop_last(), budget - s.last().size);
        let rec = pool_take(s.drop_last(), budget - s.last().size);
        let whole = seq![s.last()] + rec;
        assert(whole.first() == s.last());
        assert(whole.drop_first() =~= rec);
    }
}

/// What stays behind is the untouched low-fee prefix of the pool, element for
/// element, and together with what was taken it accounts for the whole pool.
pub proof fn lemma_pool_rest_prefix(s: Seq<Transaction>, budget: int)
    ensures
        pool_rest(s, budget).len() + pool_take(s, budget).len() == s.len(),
        forall|i: int| 0 <= i < pool_rest(s, budget).len() ==> pool_rest(s, budget)[i] == s[i],
    decreases s.len(),
{
    if s.len() > 0 && s.last().size <= budget {
        lemma_pool_rest_prefix(s.drop_last(), budget - s.last().size);
        assert(forall|i: int|
            0 <= i < s.drop_last().len() ==> s.drop_last()[i] == s[i]);
        assert((seq![s.last()] + pool_take(s.drop_last(), budget - s.last().size)).len() == 1
            + pool_take(s.drop_last(), budget - s.last().size).len());
    }
}

/// Extraction leaves a sorted pool behind.
pub proof fn lemma_pool_rest_sorted(s: Seq<Transaction>, budget: int)
    requires
        sorted_by_fee(s),
    ensures
        sorted_by_fee(pool_rest(s, budget)),
{
    lemma_pool_rest_prefix(s, budget);
    let rest = pool_rest(s, budget);
    assert forall|i: int, j: int| 0 <= i < j < rest.len() implies rest[i].fee_price
        <= rest[j].fee_price by {
        assert(rest[i] == s[i]);
        assert(rest[j] == s[j]);
    }
}

/// The greedy choice is fee-prioritized: nothing left behind outbids anything
/// taken, and if anything was left behind, the highest-fee transaction among
/// it no longer fit beside what was taken.
pub proof fn lemma_pool_take_greedy(s: Seq<Transaction>, budget: int)
    requires
        sorted_by_fee(s),
        budget >= 0,
    ensures
        forall|i: int, j: int|
            0 <= i < pool_rest(s, budget).len() && 0 <= j < pool_take(s, budget).len()
                ==> pool_rest(s, budget)[i].fee_price <= pool_take(s, budget)[j].fee_price,
        pool_rest(s, budget).len() > 0 ==> total_size(pool_take(s, budget)) + pool_rest(
            s,
            budget,
        ).last().size > budget,
        forall|j: int| 0 <= j < pool_take(s, budget).len() ==> pool_take(s, budget)[j].size
            <= budget,
    decreases s.len(),
{
    if s.len() == 0 {
    } else if s.last().size > budget {
        assert(total_size(pool_take(s, budget)) == 0);
    } else {
        let budget2 = budget - s.last().size;
        let take2 = pool_take(s.drop_last(), budget2);
        let rest = pool_rest(s, budget);
        let take = pool_take(s, budget);
        lemma_sorted_drop_last(s);
        lemma_pool_take_greedy(s.drop_last(), budget2);
        lemma_pool_rest_prefix(s.drop_last(), budget2);
        lemma_pool_rest_prefix(s, budget);
        assert(take =~= seq![s.last()] + take2);
        assert forall|i: int, j: int|
            0 <= i < rest.len() && 0 <= j < take.len() implies rest[i].fee_price
            <= take[j].fee_price by {
            assert(rest[i] == s[i]);
            if j == 0 {
                assert(take[j] == s.last());
                assert(rest.len() + take.len() == s.len());
                assert(i < s.len() - 1);
            } else {
                assert(take[j] == take2[j - 1]);
                assert(pool_rest(s.drop_last(), budget2)[i] == s.drop_last()[i]);
                assert(s.drop_last()[i] == s[i]);
            }
        }
        if rest.len() > 0 {
            assert(pool_rest(s.drop_last(), budget2).last() == rest.last());
            assert(total_size(take) == s.last().size + total_size(take2)) by {
                assert(take.first() == s.last());
                assert(take.drop_first() =~= take2);
            }
        }
        assert forall|j: int| 0 <= j < take.len() implies take[j].size <= budget by {
            if j > 0 {
                assert(take[j] == take2[j - 1]);
            }
        }
    }
}

/// Conservation at the pool level: an extraction splits the pool's contents
/// into the taken and the remaining transactions, losing and duplicating
/// nothing.
pub proof fn lemma_pool_take_rest_multiset(s: Seq<Transaction>, budget: int)
    ensures
        pool_rest(s, budget).to_multiset().add(pool_take(s, budget).to_multiset())
            == s.to_multiset(),
    decreases s.len(),
{
    broadcast use vstd::seq_lib::group_to_multiset_ensures;
    broadcast use vstd::multiset::group_multiset_axioms;

    if s.len() == 0 {
        assert(pool_rest(s, budget).to_multiset().add(pool_take(s, budget).to_multiset())
            =~= s.to_multiset());
    } else if s.last().size > budget {
        assert(pool_take(s, budget).to_multiset() =~= Multiset::<Transaction>::empty());
        assert(pool_rest(s, budget).to_multiset().add(pool_take(s, budget).to_multiset())
            =~= s.to_multiset());
    } else {
        let budget2 = budget - s.last().size;
        lemma_pool_take_rest_multiset(s.drop_last(), budget2);
        let take2 = pool_take(s.drop_last(), budget2);
        let rest = pool_rest(s, budget);
        assert(s.drop_last().push(s.last()) =~= s);
        assert(s.to_multiset() == s.drop_last().to_multiset().insert(s.last()));
        lemma_multiset_commutative(seq![s.last()], take2);
        assert(seq![s.last()].to_multiset() =~= Multiset::<Transaction>::empty().insert(
            s.last(),
        )) by {
            assert(Seq::<Transaction>::empty().push(s.last()) =~= seq![s.last()]);
        }
        assert(pool_take(s, budget).to_multiset() =~= take2.to_multiset().insert(s.last()));
        assert(rest.to_multiset().add(pool_take(s, budget).to_multiset()) =~= rest.to_multiset()
            .add(take2.to_multiset()).insert(s.last()));
    }
}

/// The pool after inserting a batch of transactions one by one, in order.
pub open spec fn pool_append_all(s: Seq<Transaction>, txs: Seq<Transaction>) -> Seq<Transaction>
    decreases txs.len(),
{
    if txs.len() == 0 {
        s
    } else {
        pool_append(pool_append_all(s, txs.drop_last()), txs.last())
    }
}

/// Batch insertion keeps the pool sorted.
pub proof fn lemma_pool_append_all_sorted(s: Seq<Transaction>, txs: Seq<Transaction>)
    requires
        sorted_by_fee(s),
    ensures
        sorted_by_fee(pool_append_all(s, txs)),
    decreases txs.len(),
{
    if txs.len() > 0 {
        lemma_pool_append_all_sorted(s, txs.drop_last());
        lemma_pool_append_sorted(pool_append_all(s, txs.drop_last()), txs.last());
    }
}

/// Insertion adds exactly the inserted transaction to the pool's contents.
pub proof fn lemma_pool_append_multiset(s: Seq<Transaction>, tx: Transaction)
    ensures
        pool_append(s, tx).to_multiset() == s.to_multiset().insert(tx),
{
    broadcast use vstd::seq_lib::to_multiset_insert;

    lemma_fee_upper_index_bounds(s, tx.fee_price);
}

/// Batch insertion adds exactly the inserted batch to the pool's contents.
pub proof fn lemma_pool_append_all_multiset(s: Seq<Transaction>, txs: Seq<Transaction>)
    ensures
        pool_append_all(s, txs).to_multiset() == s.to_multiset().add(txs.to_multiset()),
    decreases txs.len(),
{
    broadcast use vstd::seq_lib::group_to_multiset_ensures;
    broadcast use vstd::multiset::group_multiset_axioms;

    if txs.len() == 0 {
        assert(pool_append_all(s, txs).to_multiset() =~= s.to_multiset().add(txs.to_multiset()));
    } else {
        lemma_pool_append_all_multiset(s, txs.drop_last());
        lemma_pool_append_multiset(pool_append_all(s, txs.drop_last()), txs.last());
        assert(txs.drop_last().push(txs.last()) =~= txs);
        assert(txs.to_multiset() == txs.drop_last().to_multiset().insert(txs.last()));
        assert(s.to_multiset().add(txs.drop_last().to_multiset()).insert(txs.last())
            =~= s.to_multiset().add(txs.to_multiset()));
    }
}

/// Batch insertion introduces no transaction beyond the pool's and the
/// batch's own.
pub proof fn lemma_pool_append_all_elements(s: Seq<Transaction>, txs: Seq<Transaction>)
    ensures
        forall|x: Transaction|
            pool_append_all(s, txs).contains(x) ==> s.contains(x) || txs.contains(x),
{
    broadcast use vstd::seq_lib::group_to_multiset_ensures;
    broadcast use vstd::multiset::group_multiset_axioms;

    lemma_pool_append_all_multiset(s, txs);
    assert forall|x: Transaction| pool_append_all(s, txs).contains(x) implies s.contains(x)
        || txs.contains(x) by {
        assert(pool_append_all(s, txs).to_multiset().count(x) > 0);
        assert(s.to_multiset().count(x) + txs.to_multiset().count(x) > 0);
    }
}

/// Extraction invents no transaction: both what is taken and what stays come
/// from the pool.
pub proof fn lemma_pool_split_elements(s: Seq<Transaction>, budget: int)
    ensures
        forall|x: Transaction| pool_take(s, budget).contains(x) ==> s.contains(x),
        forall|x: Transaction| pool_rest(s, budget).contains(x) ==> s.contains(x),
{
    broadcast use vstd::seq_lib::group_to_multiset_ensures;
    broadcast use vstd::multiset::group_multiset_axioms;

    lemma_pool_take_rest_multiset(s, budget);
    assert forall|x: Transaction| pool_take(s, budget).contains(x) implies s.contains(x) by {
        assert(pool_take(s, budget).to_multiset().count(x) > 0);
        assert(s.to_multiset().count(x) > 0);
    }
    assert forall|x: Transaction| pool_rest(s, budget).contains(x) implies s.contains(x) by {
        assert(pool_rest(s, budget).to_multiset().count(x) > 0);
        assert(s.to_multiset().count(x) > 0);
    }
}

/// The ordered pool of pending transactions, sorted ascending by fee price.
#[derive(Debug, PartialEq, Eq, Clone)]
pub struct TransactionPool {
    transactions: Vec<Transaction>,
}

impl View for TransactionPool {
    type V = Seq<Transaction>;

    closed spec fn view(&self) -> Seq<Transaction> {
        self.transactions@
    }
}

impl TransactionPool {
    /// The pool's invariant: contents ordered by ascending fee price.
    pub open spec fn well_formed(&self) -> bool {
        sorted_by_fee(self@)
    }

    pub fn new() -> (pool: Self)
        ensures
            pool@ == Seq::<Transaction>::empty(),
            pool.well_formed(),
    {
        Self { transactions: Vec::new() }
    }

    /// Inserts `transaction` at its fee-ordered position, stably after any
    /// pending transaction with the same fee price.
    pub fn append(&mut self, transaction: Transaction)
        requires
            old(self).well_formed(),
        ensures
            final(self).well_formed(),
            final(self)@ == pool_append(old(self)@, transaction),
    {
        let mut lo: usize = 0;
        let mut hi: usize = self.transactions.len();
        while lo < hi
            invariant
                lo <= hi <= self.transactions.len(),
                self == old(self),
                sorted_by_fee(self.transactions@),
                forall|k: int| 0 <= k < lo ==> self.transactions@[k].fee_price
                    <= transaction.fee_price,
                forall|k: int| hi <= k < self.transactions@.len() ==> self.transactions@[k].fee_price
                    > transaction.fee_price,
            decreases hi - lo,
        {
            let mid = lo + (hi - lo) / 2;
            if self.transactions[mid].fee_price <= transaction.fee_price {
                lo = mid + 1;
            } else {
                hi = mid;
            }
        }
        proof {
            let idx = fee_upper_index(self@, transaction.fee_price);
            lemma_fee_upper_index_bounds(self@, transaction.fee_price);
            lemma_fee_upper_index_sorted(self@, transaction.fee_price);
            if (lo as int) < idx {
                assert(self@[lo as int].fee_price > transaction.fee_price);
                assert(self@[lo as int].fee_price <= transaction.fee_price);
            }
            if idx < lo as int {
                assert(self@[idx].fee_price > transaction.fee_price);
                assert(self@[idx].fee_price <= transaction.fee_price);
            }
            assert(lo as int == idx);
            lemma_pool_append_sorted(self@, transaction);
        }
        self.transactions.insert(lo, transaction);
    }

    /// Removes and returns the highest-fee transactions whose cumulative size
    /// fits within `max_total_size`, greedily from the highest-fee end,
    /// stopping at (and excluding) the first transaction that would exceed
    /// the budget. The result is ordered by descending fee price.
    pub fn pop_transactions(&mut self, max_total_size: usize) -> (txs: Vec<Transaction>)
        requires
            old(self).well_formed(),
        ensures
            final(self).well_formed(),
            txs@ == pool_take(old(self)@, max_total_size as int),
            final(self)@ == pool_rest(old(self)@, max_total_size as int),
    {
        let mut txs: Vec<Transaction> = Vec::new();
        let mut remaining: usize = max_total_size;
        loop
            invariant
                sorted_by_fee(self.transactions@),
                remaining <= max_total_size,
                pool_take(old(self)@, max_total_size as int) == txs@ + pool_take(
                    self.transactions@,
                    remaining as int,
                ),
                pool_rest(old(self)@, max_total_size as int) == pool_rest(
                    self.transactions@,
                    remaining as int,
                ),
            ensures
                sorted_by_fee(self.transactions@),
                txs@ == pool_take(old(self)@, max_total_size as int),
                self.transactions@ == pool_rest(old(self)@, max_total_size as int),
            decreases self.transactions.len(),
        {
            let n = self.transactions.len();
            if n == 0 {
                proof {
                    assert(txs@ + pool_take(self.transactions@, remaining as int) =~= txs@);
                }
                break;
            }
            let tx = self.transactions[n - 1];
            proof {
                assert(tx == self.transactions@.last());
            }
            if tx.size > remaining {
                proof {
                    assert(txs@ + pool_take(self.transactions@, remaining as int) =~= txs@);
                }
                break;
            }
            let ghost before = self.transactions@;
            let ghost txs_before = txs@;
            let ghost rem_before = remaining as int;
            self.transactions.pop();
            remaining = remaining - tx.size;
            txs.push(tx);
            proof {
                assert(self.transactions@ =~= before.drop_last());
                lemma_sorted_drop_last(before);
                assert(pool_take(before, rem_before) == seq![tx] + pool_take(
                    self.transactions@,
                    remaining as int,
                ));
                assert(txs@ + pool_take(self.transactions@, remaining as int) =~= txs_before + (
                seq![tx] + pool_take(self.transactions@, remaining as int)));
            }
        }
        txs
    }

    /// Read-only access to the pending transactions, ascending by fee price.
    pub fn txs(&self) -> (r: &Vec<Transaction>)
        ensures
            r@ == self@,
    {
        &self.transactions
    }
}

/// A source of new transactions, queried once per tick. A broadcaster is a
/// deterministic state machine: `emitted` and `stepped` pin down exactly
/// which transactions come out at a tick and how the internal state advances,
/// so a whole run is a function of the initial state.
pub trait TransactionBroadcaster: Sized {
    /// Validity of the broadcaster's configuration and state.
    spec fn wf(&self) -> bool;

    /// The transactions emitted at `time`, in emission order.
    spec fn emitted(&self, time: Time) -> Seq<Transaction>;

    /// The broadcaster's state after acting at `time`.
    spec fn stepped(&self, time: Time) -> Self;

    /// Produces this tick's transactions and advances the internal state.
    fn emit_at(&mut self, time: Time) -> (txs: Vec<Transaction>)
        requires
            old(self).wf(),
        ensures
            final(self).wf(),
            *final(self) == old(self).stepped(time),
            txs@ == old(self).emitted(time),
            forall|i: int| 0 <= i < txs@.len() ==> txs@[i].broadcasted_at == time,
    ;

    /// Every transaction a broadcaster emits at a tick is stamped with that
    /// tick.
    proof fn emitted_stamped(&self, time: Time)
        ensures
            forall|i: int|
                0 <= i < self.emitted(time).len() ==> self.emitted(time)[i].broadcasted_at
                    == time,
    ;

    /// Emits this tick's transactions and inserts each into the pool.
    fn broadcast_at(&mut self, time: Time, pool: &mut TransactionPool)
        requires
            old(self).wf(),
            old(pool).well_formed(),
        ensures
            final(self).wf(),
            *final(self) == old(self).stepped(time),
            final(pool).well_formed(),
            final(pool)@ == pool_append_all(old(pool)@, old(self).emitted(time)),
    {
        let txs = self.emit_at(time);
        let ghost batch = txs@;
        let mut i: usize = 0;
        while i < txs.len()
            invariant
                i <= txs.len(),
                txs@ == batch,
                pool.well_formed(),
                pool@ == pool_append_all(old(pool)@, batch.subrange(0, i as int)),
            decreases txs.len() - i,
        {
            let tx = txs[i];
            pool.append(tx);
            proof {
                assert(batch.subrange(0, i + 1).drop_last() =~= batch.subrange(0, i as int));
                assert(batch.subrange(0, i + 1).last() == batch[i as int]);
            }
            i = i + 1;
        }
        proof {
            assert(batch.subrange(0, batch.len() as int) =~= batch);
        }
    }
}

/// Emits one fixed-fee, fixed-size transaction whenever the tick is a
/// multiple of `interval`. Stateless.
pub struct UniformTransactionBroadCaster {
    pub interval: Time,
    pub fee_price: usize,
    pub tx_size: usize,
}

impl TransactionBroadcaster for UniformTransactionBroadCaster {
    open spec fn wf(&self) -> bool {
        self.interval > 0
    }

    open spec fn emitted(&self, time: Time) -> Seq<Transaction> {
        if time % self.interval == 0 {
            seq![
                Transaction {
                    fee_price: self.fee_price,
                    size: self.tx_size,
                    broadcasted_at: time,
                },
            ]
        } else {
            Seq::empty()
        }
    }

    open spec fn stepped(&self, time: Time) -> Self {
        *self
    }

    proof fn emitted_stamped(&self, time: Time) {
    }

    fn emit_at(&mut self, time: Time) -> (txs: Vec<Transaction>) {
        let mut txs: Vec<Transaction> = Vec::new();
        if time % self.interval == 0 {
            txs.push(
                Transaction {
                    fee_price: self.fee_price,
                    size: self.tx_size,
                    broadcasted_at: time,
                },
            );
        }
        proof {
            assert(txs@ =~= old(self).emitted(time));
        }
        txs
    }
}

/// One pre-drawn random sample: the inter-arrival gap to the next emission
/// and the fee price of the transaction emitted then. Continuous draws are
/// truncated to integers before they reach the engine, so several arrivals
/// may collapse onto one tick through zero gaps.
#[derive(Debug, PartialEq, Eq, Clone, Copy, Structural)]
pub struct FeeSample {
    pub gap: usize,
    pub fee_price: usize,
}

/// Emits transactions at sampled inter-arrival times with sampled fee
/// prices. The samples are drawn ahead of the run (by whatever random or
/// deterministic source the caller prefers) and consumed in order, so the
/// broadcaster itself is a deterministic state machine and a run is
/// reproducible from the sample sequence alone.
pub struct SampledTransactionBroadCaster {
    pub next_emit_at: Time,
    pub samples: Vec<FeeSample>,
    pub pos: usize,
    pub tx_size: usize,
}

impl SampledTransactionBroadCaster {
    /// One emission step: while the tick equals the next scheduled emission
    /// and samples remain, consume one sample, schedule the next emission
    /// after its gap, and emit one transaction at its fee price.
    pub open spec fn spec_emit(self, time: Time) -> (Self, Seq<Transaction>)
        decreases self.samples@.len() - self.pos,
    {
        if self.pos < self.samples.len() && time == self.next_emit_at {
            let sample = self.samples@[self.pos as int];
            let tx = Transaction {
                fee_price: sample.fee_price,
                size: self.tx_size,
                broadcasted_at: time,
            };
            let advanced = Self {
                next_emit_at: self.next_emit_at.saturating_add(sample.gap),
                pos: (self.pos + 1) as usize,
                ..self
            };
            let (done, rest) = advanced.spec_emit(time);
            (done, seq![tx] + rest)
        } else {
            (self, Seq::empty())
        }
    }

    /// Every transaction of an emission burst carries the tick of the burst.
    pub proof fn lemma_spec_emit_stamped(self, time: Time)
        ensures
            forall|i: int|
                0 <= i < self.spec_emit(time).1.len() ==> self.spec_emit(time).1[i].broadcasted_at
                    == time,
        decreases self.samples@.len() - self.pos,
    {
        if self.pos < self.samples.len() && time == self.next_emit_at {
            let sample = self.samples@[self.pos as int];
            let advanced = Self {
                next_emit_at: self.next_emit_at.saturating_add(sample.gap),
                pos: (self.pos + 1) as usize,
                ..self
            };
            advanced.lemma_spec_emit_stamped(time);
            let tx = Transaction {
                fee_price: sample.fee_price,
                size: self.tx_size,
                broadcasted_at: time,
            };
            let rest = advanced.spec_emit(time).1;
            assert forall|i: int|
                0 <= i < self.spec_emit(time).1.len() implies self.spec_emit(
                time,
            ).1[i].broadcasted_at == time by {
                if i == 0 {
                    assert(self.spec_emit(time).1[i] == tx);
                } else {
                    assert(self.spec_emit(time).1[i] == rest[i - 1]);
                }
            }
        }
    }

    /// A new broadcaster that first emits at `first_emit_at` and then follows
    /// `samples`, giving every transaction byte size `tx_size`.
    pub fn new(first_emit_at: Time, samples: Vec<FeeSample>, tx_size: usize) -> (b: Self)
        ensures
            b.wf(),
            b.next_emit_at == first_emit_at,
            b.samples@ == samples@,
            b.pos == 0,
            b.tx_size == tx_size,
    {
        Self { next_emit_at: first_emit_at, samples, pos: 0, tx_size }
    }
}

impl TransactionBroadcaster for SampledTransactionBroadCaster {
    open spec fn wf(&self) -> bool {
        self.pos <= self.samples@.len()
    }

    open spec fn emitted(&self, time: Time) -> Seq<Transaction> {
        self.spec_emit(time).1
    }

    open spec fn stepped(&self, time: Time) -> Self {
        self.spec_emit(time).0
    }

    proof fn emitted_stamped(&self, time: Time) {
        self.lemma_spec_emit_stamped(time);
    }

    fn emit_at(&mut self, time: Time) -> (txs: Vec<Transaction>) {
        let mut txs: Vec<Transaction> = Vec::new();
        while self.pos < self.samples.len() && time == self.next_emit_at
            invariant
                self.wf(),
                old(self).spec_emit(time).0 == self.spec_emit(time).0,
                old(self).spec_emit(time).1 == txs@ + self.spec_emit(time).1,
                forall|i: int| 0 <= i < txs@.len() ==> txs@[i].broadcasted_at == time,
            decreases self.samples.len() - self.pos,
        {
            let ghost before = *self;
            let ghost txs_before = txs@;
            let sample = self.samples[self.pos];
            let tx = Transaction {
                fee_price: sample.fee_price,
                size: self.tx_size,
                broadcasted_at: time,
            };
            self.next_emit_at = self.next_emit_at.saturating_add(sample.gap);
            self.pos = self.pos + 1;
            txs.push(tx);
            proof {
                assert(before.spec_emit(time).0 == self.spec_emit(time).0);
                assert(before.spec_emit(time).1 == seq![tx] + self.spec_emit(time).1);
                assert(txs@ + self.spec_emit(time).1 =~= txs_before + (seq![tx]
                    + self.spec_emit(time).1));
            }
        }
        proof {
            assert(old(self).spec_emit(time).1 =~= txs@);
        }
        txs
    }
}

} // verus!
