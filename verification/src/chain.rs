use vstd::prelude::*;
use crate::block::{Block, block_wf, spec_block_hash};
use crate::config;
use crate::transaction::{Transaction, TransactionType};

verus! {

/// The genesis transfer: the whole initial supply, from the origin account
/// to the system account, free of fee.
pub open spec fn is_genesis_tx(t: Transaction) -> bool {
    &&& t.sender@ == config::GENESIS@
    &&& t.fee == 0
    &&& t.tx_type matches TransactionType::Transfer { sender, receiver, amount } && sender@
        == config::GENESIS@ && receiver@ == "System"@ && amount == config::BLOCK_CHAIN_WORTH
}

/// The genesis block: previous hash `"0"`, produced by the origin account,
/// carrying the single genesis transfer.
pub open spec fn is_genesis_block(b: Block) -> bool {
    &&& b.previous_hash@ == "0"@
    &&& b.validator@ == config::GENESIS@
    &&& b.transactions@.len() == 1
    &&& is_genesis_tx(b.transactions@[0])
}

/// Append-only vector of sealed blocks, starting at the genesis block.
#[derive(Debug)]
pub struct Chain {
    chain: Vec<Block>,
}

impl View for Chain {
    type V = Seq<Block>;

    closed spec fn view(&self) -> Seq<Block> {
        self.chain@
    }
}

impl Chain {
    /// Chain holding only the genesis block, whose state root is given.
    pub fn new(state_root: String) -> (c: Chain)
        ensures
            c@.len() == 1,
            is_genesis_block(c@[0]),
            block_wf(c@[0]),
            c@[0].state_root == state_root,
    {
        let mut transactions: Vec<Transaction> = Vec::new();
        transactions.push(
            Transaction::new(
                config::GENESIS.to_owned(),
                TransactionType::Transfer {
                    sender: config::GENESIS.to_owned(),
                    receiver: "System".to_owned(),
                    amount: config::BLOCK_CHAIN_WORTH,
                },
                0,
            ),
        );
        let genesis_block = Block::new(
            transactions,
            "0".to_owned(),
            config::GENESIS.to_owned(),
            state_root,
        );
        let mut chain: Vec<Block> = Vec::new();
        chain.push(genesis_block);
        Chain { chain }
    }

    /// Number of blocks, the chain height.
    pub fn len(&self) -> (n: usize)
        ensures
            n == self@.len(),
    {
        self.chain.len()
    }

    /// Block at index `idx`, if in range.
    pub fn get_block_by_idx(&self, idx: usize) -> (r: Option<&Block>)
        ensures
            (match r {
                Some(b) => idx < self@.len() && *b == self@[idx as int],
                None => idx >= self@.len(),
            }),
    {
        if idx < self.chain.len() {
            Some(&self.chain[idx])
        } else {
            None
        }
    }

    /// Newest block, the chain tip, if any.
    pub fn get_last_block(&self) -> (r: Option<&Block>)
        ensures
            (match r {
                Some(b) => self@.len() > 0 && *b == self@[self@.len() - 1],
                None => self@.len() == 0,
            }),
    {
        if self.chain.len() > 0 {
            Some(&self.chain[self.chain.len() - 1])
        } else {
            None
        }
    }

    /// Append a block at the tip.
    pub fn push(&mut self, block: Block)
        ensures
            final(self)@ == old(self)@.push(block),
    {
        self.chain.push(block);
    }
}

} // verus!
