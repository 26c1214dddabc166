use vstd::prelude::*;
use crate::text::dec_str;
use crate::text::push_dec;
use crate::hashing::{sha_hex, sha256_hex};
use crate::transaction::{Transaction, txs_json, push_txs_json, total_fees_of, sum_fees};

verus! {

/// One sealed block of the chain.
#[derive(Debug)]
pub struct Block {
    pub timestamp: u64,
    pub transactions: Vec<Transaction>,
    pub previous_hash: String,
    pub hash: String,
    pub validator: String,
    pub state_root: String,
    pub total_fees: u64,
}

/// Canonical hashing input of a block: the UTF-8 concatenation, in order, of
/// the decimal timestamp, the canonical JSON of the transactions, the
/// previous hash, the validator, the state root, and the decimal total fees.
pub open spec fn block_hash_input(
    timestamp: u64,
    transactions: Seq<Transaction>,
    previous_hash: Seq<char>,
    validator: Seq<char>,
    state_root: Seq<char>,
    total_fees: u64,
) -> Seq<char> {
    dec_str(timestamp as int) + txs_json(transactions) + previous_hash + validator + state_root
        + dec_str(total_fees as int)
}

/// Hash that a block's fields seal to: the hex SHA-256 of its canonical input.
pub open spec fn spec_block_hash(b: Block) -> Seq<char> {
    sha_hex(
        block_hash_input(
            b.timestamp,
            b.transactions@,
            b.previous_hash@,
            b.validator@,
            b.state_root@,
            b.total_fees,
        ),
    )
}

/// A block is sealed: its stored hash and fee total match its contents.
pub open spec fn block_wf(b: Block) -> bool {
    &&& b.hash@ == spec_block_hash(b)
    &&& b.total_fees == total_fees_of(b.transactions@)
}

/// Relies on chrono's `Utc::now`: seconds since the Unix epoch, read from
/// the wall clock.  Nothing is assumed of the value; timestamps are
/// informational and never drive consensus.
#[verifier::external_body]
fn now_timestamp() -> u64 {
    chrono::Utc::now().timestamp() as u64
}

impl Block {
    /// Seal a block over the given contents, timestamped from the wall
    /// clock, with the fee total summed and the hash computed from the
    /// canonical input.
    pub fn new(
        transactions: Vec<Transaction>,
        previous_hash: String,
        validator: String,
        state_root: String,
    ) -> (b: Block)
        ensures
            b.transactions == transactions,
            b.previous_hash == previous_hash,
            b.validator == validator,
            b.state_root == state_root,
            b.total_fees == total_fees_of(transactions@),
            b.hash@ == spec_block_hash(b),
            block_wf(b),
    {
        let timestamp = now_timestamp();
        let total_fees = sum_fees(&transactions);
        let mut input = String::new();
        push_dec(&mut input, timestamp);
        push_txs_json(&mut input, &transactions);
        input.append(previous_hash.as_str());
        input.append(validator.as_str());
        input.append(state_root.as_str());
        push_dec(&mut input, total_fees);
        let hash = sha256_hex(input.as_str());
        let b = Block {
            timestamp,
            transactions,
            previous_hash,
            hash,
            validator,
            state_root,
            total_fees,
        };
        proof {
            assert(input@ =~= block_hash_input(
                b.timestamp,
                b.transactions@,
                b.previous_hash@,
                b.validator@,
                b.state_root@,
                b.total_fees,
            ));
        }
        b
    }

    /// Recompute the hash that this block's contents seal to.
    pub fn calculate_hash(&self) -> (r: String)
        ensures
            r@ == spec_block_hash(*self),
    {
        let mut input = String::new();
        push_dec(&mut input, self.timestamp);
        push_txs_json(&mut input, &self.transactions);
        input.append(self.previous_hash.as_str());
        input.append(self.validator.as_str());
        input.append(self.state_root.as_str());
        push_dec(&mut input, self.total_fees);
        proof {
            assert(input@ =~= block_hash_input(
                self.timestamp,
                self.transactions@,
                self.previous_hash@,
                self.validator@,
                self.state_root@,
                self.total_fees,
            ));
        }
        sha256_hex(input.as_str())
    }
}

} // verus!
