use vstd::prelude::*;
use crate::text::dec_str;
use crate::text::push_dec;
use crate::json::{json_str, bytes_json, push_json_str, push_bytes_json};
use crate::wallets::{sat_add, sat_add_exec};

verus! {

/// Body of a transaction: what it does and to whom.
#[derive(Debug)]
pub enum TransactionType {
    Transfer { sender: String, receiver: String, amount: u64 },
    Stake { user: String, amount: u64 },
    Unstake { user: String, amount: u64 },
    DeployContract { code: Vec<u8> },
    CallContract { contract_address: String },
}

/// One transaction: the paying sender, the body, and the fee.
#[derive(Debug)]
pub struct Transaction {
    pub sender: String,
    pub tx_type: TransactionType,
    pub fee: u64,
}

impl Transaction {
    pub fn new(sender: String, tx_type: TransactionType, fee: u64) -> (t: Transaction)
        ensures
            t == (Transaction { sender, tx_type, fee }),
    {
        Transaction { sender, tx_type, fee }
    }
}

// ---------------------------------------------------------------------------
// Canonical JSON of transactions, the hashing input.
// ---------------------------------------------------------------------------

/// Canonical JSON of a transaction body, tagged by its variant name.
pub open spec fn tx_type_json(t: TransactionType) -> Seq<char> {
    match t {
        TransactionType::Transfer { sender, receiver, amount } => "{\"Transfer\":{\"sender\":"@
            + json_str(sender@) + ",\"receiver\":"@ + json_str(receiver@) + ",\"amount\":"@
            + dec_str(amount as int) + "}}"@,
        TransactionType::Stake { user, amount } => "{\"Stake\":{\"user\":"@ + json_str(user@)
            + ",\"amount\":"@ + dec_str(amount as int) + "}}"@,
        TransactionType::Unstake { user, amount } => "{\"Unstake\":{\"user\":"@ + json_str(user@)
            + ",\"amount\":"@ + dec_str(amount as int) + "}}"@,
        TransactionType::DeployContract { code } => "{\"DeployContract\":{\"code\":"@ + bytes_json(
            code@,
        ) + "}}"@,
        TransactionType::CallContract { contract_address } => "{\"CallContract\":{\"contract_address\":"@
            + json_str(contract_address@) + "}}"@,
    }
}

/// Canonical JSON of one transaction, fields in declaration order.
pub open spec fn tx_json(t: Transaction) -> Seq<char> {
    "{\"sender\":"@ + json_str(t.sender@) + ",\"tx_type\":"@ + tx_type_json(t.tx_type) + ",\"fee\":"@
        + dec_str(t.fee as int) + "}"@
}

/// Comma-separated canonical JSON of several transactions.
pub open spec fn txs_items(ts: Seq<Transaction>) -> Seq<char>
    decreases ts.len(),
{
    if ts.len() == 0 {
        Seq::empty()
    } else if ts.len() == 1 {
        tx_json(ts[0])
    } else {
        tx_json(ts[0]) + seq![','] + txs_items(ts.skip(1))
    }
}

/// Canonical JSON of a transaction vector.
pub open spec fn txs_json(ts: Seq<Transaction>) -> Seq<char> {
    seq!['['] + txs_items(ts) + seq![']']
}

/// Sum of the fees, saturating at the largest representable amount.
pub open spec fn total_fees_of(ts: Seq<Transaction>) -> u64
    decreases ts.len(),
{
    if ts.len() == 0 {
        0
    } else {
        sat_add(total_fees_of(ts.drop_last()), ts.last().fee)
    }
}

/// Append the canonical JSON of a transaction body to `out`.
fn push_tx_type_json(out: &mut String, t: &TransactionType)
    ensures
        final(out)@ == old(out)@ + tx_type_json(*t),
{
    match t {
        TransactionType::Transfer { sender, receiver, amount } => {
            out.append("{\"Transfer\":{\"sender\":");
            push_json_str(out, sender.as_str());
            out.append(",\"receiver\":");
            push_json_str(out, receiver.as_str());
            out.append(",\"amount\":");
            push_dec(out, *amount);
            out.append("}}");
            proof {
                assert(out@ =~= old(out)@ + tx_type_json(*t));
            }
        },
        TransactionType::Stake { user, amount } => {
            out.append("{\"Stake\":{\"user\":");
            push_json_str(out, user.as_str());
            out.append(",\"amount\":");
            push_dec(out, *amount);
            out.append("}}");
            proof {
                assert(out@ =~= old(out)@ + tx_type_json(*t));
            }
        },
        TransactionType::Unstake { user, amount } => {
            out.append("{\"Unstake\":{\"user\":");
            push_json_str(out, user.as_str());
            out.append(",\"amount\":");
            push_dec(out, *amount);
            out.append("}}");
            proof {
                assert(out@ =~= old(out)@ + tx_type_json(*t));
            }
        },
        TransactionType::DeployContract { code } => {
            out.append("{\"DeployContract\":{\"code\":");
            push_bytes_json(out, code.as_slice());
            out.append("}}");
            proof {
                assert(out@ =~= old(out)@ + tx_type_json(*t));
            }
        },
        TransactionType::CallContract { contract_address } => {
            out.append("{\"CallContract\":{\"contract_address\":");
            push_json_str(out, contract_address.as_str());
            out.append("}}");
            proof {
                assert(out@ =~= old(out)@ + tx_type_json(*t));
            }
        },
    }
}

/// Append the canonical JSON of one transaction to `out`.
fn push_tx_json(out: &mut String, t: &Transaction)
    ensures
        final(out)@ == old(out)@ + tx_json(*t),
{
    out.append("{\"sender\":");
    push_json_str(out, t.sender.as_str());
    out.append(",\"tx_type\":");
    push_tx_type_json(out, &t.tx_type);
    out.append(",\"fee\":");
    push_dec(out, t.fee);
    out.append("}");
    proof {
        assert(out@ =~= old(out)@ + tx_json(*t));
    }
}

/// Appending one transaction extends the comma-separated item list.
proof fn lemma_txs_items_take(ts: Seq<Transaction>, i: int)
    requires
        0 <= i < ts.len(),
    ensures
        i > 0 ==> txs_items(ts.take(i)) + seq![','] + tx_json(ts[i]) == txs_items(ts.take(i + 1)),
        i == 0 ==> txs_items(ts.take(1)) == tx_json(ts[0]),
    decreases i,
{
    if i == 0 {
        assert(ts.take(1).len() == 1);
        assert(ts.take(1)[0] == ts[0]);
    } else {
        lemma_txs_items_take(ts.skip(1), i - 1);
        assert(ts.take(i).skip(1) =~= ts.skip(1).take(i - 1));
        assert(ts.take(i + 1).skip(1) =~= ts.skip(1).take(i));
        assert(ts.take(i)[0] == ts[0]);
        assert(ts.take(i + 1)[0] == ts[0]);
        assert(ts.skip(1)[i - 1] == ts[i]);
        assert(txs_items(ts.take(i)) + seq![','] + tx_json(ts[i]) =~= txs_items(ts.take(i + 1)));
    }
}

/// Append the canonical JSON of a transaction vector to `out`.
pub fn push_txs_json(out: &mut String, ts: &Vec<Transaction>)
    ensures
        final(out)@ == old(out)@ + txs_json(ts@),
{
    out.append("[");
    proof {
        reveal_strlit("[");
    }
    let ghost opened = old(out)@ + seq!['['];
    assert(out@ =~= opened);
    let n = ts.len();
    let mut i: usize = 0;
    while i < n
        invariant
            i <= n,
            n == ts@.len(),
            out@ == opened + txs_items(ts@.take(i as int)) + (
            if 0 < i < n {
                seq![',']
            } else {
                Seq::<char>::empty()
            }),
        decreases n - i,
    {
        push_tx_json(out, &ts[i]);
        if i + 1 < n {
            out.append(",");
            proof {
                reveal_strlit(",");
            }
        }
        proof {
            lemma_txs_items_take(ts@, i as int);
            assert(out@ =~= opened + txs_items(ts@.take(i + 1)) + (
            if i + 1 < n {
                seq![',']
            } else {
                Seq::<char>::empty()
            }));
        }
        i = i + 1;
    }
    out.append("]");
    proof {
        reveal_strlit("]");
        assert(ts@.take(i as int) =~= ts@);
        assert(out@ =~= old(out)@ + txs_json(ts@));
    }
}

/// Sum the fees of `ts`, saturating at the largest representable amount.
pub fn sum_fees(ts: &Vec<Transaction>) -> (total: u64)
    ensures
        total == total_fees_of(ts@),
{
    let mut total: u64 = 0;
    let n = ts.len();
    let mut i: usize = 0;
    while i < n
        invariant
            i <= n,
            n == ts@.len(),
            total == total_fees_of(ts@.take(i as int)),
        decreases n - i,
    {
        total = sat_add_exec(total, ts[i].fee);
        proof {
            assert(ts@.take(i + 1).drop_last() =~= ts@.take(i as int));
            assert(ts@.take(i + 1).last() == ts@[i as int]);
        }
        i = i + 1;
    }
    proof {
        assert(ts@.take(i as int) =~= ts@);
    }
    total
}

/// Mathematical sum of the fees.
pub open spec fn fee_sum(ts: Seq<Transaction>) -> int
    decreases ts.len(),
{
    if ts.len() == 0 {
        0
    } else {
        fee_sum(ts.drop_last()) + ts.last().fee
    }
}

/// A block's fee total is the sum of its transactions' fees, exactly,
/// whenever that sum is representable; beyond that the total saturates.
pub proof fn lemma_total_fees_is_sum(ts: Seq<Transaction>)
    requires
        fee_sum(ts) <= u64::MAX,
    ensures
        total_fees_of(ts) == fee_sum(ts),
    decreases ts.len(),
{
    if ts.len() > 0 {
        assert(fee_sum(ts.drop_last()) <= fee_sum(ts)) by {
            lemma_fee_sum_nonnegative(ts.drop_last());
        }
        lemma_total_fees_is_sum(ts.drop_last());
    }
}

pub proof fn lemma_fee_sum_nonnegative(ts: Seq<Transaction>)
    ensures
        fee_sum(ts) >= 0,
    decreases ts.len(),
{
    if ts.len() > 0 {
        lemma_fee_sum_nonnegative(ts.drop_last());
    }
}

} // verus!
