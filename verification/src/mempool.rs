use vstd::prelude::*;
use crate::transaction::Transaction;

verus! {

/// Waiting room for transactions before a block is produced from them.
#[derive(Debug)]
pub struct Mempool {
    transactions: Vec<Transaction>,
}

impl Mempool {
    /// View of the queued transactions, in arrival order.
    pub closed spec fn view(&self) -> Seq<Transaction> {
        self.transactions@
    }

    /// Empty pool.
    pub fn new() -> (m: Mempool)
        ensures
            m@ == Seq::<Transaction>::empty(),
    {
        let m = Mempool { transactions: Vec::new() };
        proof {
            assert(m@ =~= Seq::<Transaction>::empty());
        }
        m
    }

    /// Queue one transaction at the back.
    pub fn add_transaction(&mut self, transaction: Transaction)
        ensures
            final(self)@ == old(self)@.push(transaction),
    {
        self.transactions.push(transaction);
    }

    /// Drain the pool: every queued transaction, in arrival order.
    pub fn get_transactions(&mut self) -> (r: Vec<Transaction>)
        ensures
            r@ == old(self)@,
            final(self)@ == Seq::<Transaction>::empty(),
    {
        let mut drained: Vec<Transaction> = Vec::new();
        core::mem::swap(&mut drained, &mut self.transactions);
        proof {
            assert(self@ =~= Seq::<Transaction>::empty());
        }
        drained
    }
}

} // verus!
