use vstd::prelude::*;

pub mod config;
pub mod text;
pub mod hashing;
pub mod json;
pub mod bchain_error;
pub mod wallets;
pub mod transaction;
pub mod block;
pub mod chain;
pub mod validators;
pub mod patricia_merkle_trie;
pub mod contracts;
pub mod message;
pub mod mempool;

pub use crate::config::GENESIS;

use crate::bchain_error::{BChainError, ErrKind};
use crate::block::{Block, block_wf, spec_block_hash};
use crate::chain::{Chain, is_genesis_block};
use crate::config::{EPOCH_HEIGHT, BLOCK_CHAIN_WORTH, REWARD_RATE_DENOM};
use crate::contracts::{ContractEntry, StorageEntry, contracts_view, storage_view, assoc_get, assoc_set,
    contract_address_str};
use crate::message::{Message, MessageType};
use crate::patricia_merkle_trie::state_root;
use crate::patricia_merkle_trie::state_root::state_root_of;
use crate::text::dec_str;
use crate::text::u64_to_dec;
use crate::transaction::{Transaction, TransactionType};
use crate::validators::{TwoEpochValidators, slot_validator, lemma_select_member};
use crate::wallets::{Wallet, WalletModel, Wallets, LedgerModel, ledger_wf, ledger_get, ledger_has,
    ledger_upsert, spec_transfer, spec_stake, spec_unstake, spec_return_stakes, stake_pool_of,
    sat_add, spec_credit, preserves_users, lemma_upsert_get, lemma_return_stakes_get,
    lemma_stake_pool_member_has, lemma_upsert_preserves_users, lemma_transfer_preserves_users,
    lemma_stake_preserves_users, lemma_unstake_preserves_users, lemma_credit_preserves_users};

verus! {

// ---------------------------------------------------------------------------
// The kernel and its mathematical state.
// ---------------------------------------------------------------------------

/// What the block pipeline asks of its caller next: nothing, the block is
/// sealed; or run the named contract's bytecode for the given sender and
/// hand the guest's exit code back to `resume_block`.
#[derive(Debug)]
pub enum BlockStep {
    Sealed,
    RunContract { contract_address: String, sender: String, code: Vec<u8> },
}

/// A block under construction, waiting for a contract call to finish.
#[derive(Debug)]
struct PendingBlock {
    transactions: Vec<Transaction>,
    next_idx: usize,
    validator: String,
    in_call: bool,
}

/// Mathematical value of a pending block.
pub struct PendingModel {
    pub txs: Seq<Transaction>,
    pub next_idx: int,
    pub validator: Seq<char>,
    pub in_call: bool,
}

/// Mathematical value of the transaction-facing kernel state: the wallet
/// ledger, the contract registry, and the contract storage.
pub struct KernelState {
    pub ledger: LedgerModel,
    pub contracts: Seq<(Seq<char>, Seq<u8>)>,
    pub storage: Seq<(Seq<char>, Seq<(Seq<char>, Seq<u8>)>)>,
}

/// Where transaction processing stands: all applied, stopped at a contract
/// call (with its index), or failed, keeping the effects of the earlier
/// transactions.
pub enum SpecStep {
    Done(KernelState),
    Call(KernelState, int),
    Fail(KernelState, ErrKind),
}

/// The proof-of-stake blockchain kernel: the chain, the wallet ledger, the
/// deployed contracts with their storage, and the validator schedule.
#[derive(Debug)]
pub struct Blockchain {
    chain: Chain,
    wallets: Wallets,
    contracts: Vec<ContractEntry>,
    contract_storage: Vec<StorageEntry>,
    validators: TwoEpochValidators,
    pending: Option<PendingBlock>,
}

// ---------------------------------------------------------------------------
// Spec-level transitions.
// ---------------------------------------------------------------------------

/// Seed of the validator draw for `epoch`: a constant for the first two
/// epochs, else the hash of the last block of the epoch before the previous.
pub open spec fn spec_epoch_seed(c: Seq<Block>, epoch: int) -> Seq<char> {
    let x = crate::config::spec_consensus_block(epoch);
    if x < 2 {
        dec_str(x)
    } else {
        c[x].hash@
    }
}

/// One validator slot's reward: its holder's staked amount divided by the
/// reward denominator, credited to balance.
pub open spec fn spec_reward_one(l: LedgerModel, u: Seq<char>) -> LedgerModel {
    match ledger_get(l, u) {
        None => l,
        Some(w) => ledger_upsert(
            l,
            u,
            WalletModel {
                balance: sat_add(w.balance, (w.staked / REWARD_RATE_DENOM) as u64),
                staked: w.staked,
                pending: w.pending,
            },
        ),
    }
}

/// Rewards credited slot by slot, in schedule order; a user holding several
/// slots is paid once per slot.
pub open spec fn spec_distribute_rewards(l: LedgerModel, schedule: Seq<Seq<char>>) -> LedgerModel
    decreases schedule.len(),
{
    if schedule.len() == 0 {
        l
    } else {
        spec_distribute_rewards(spec_reward_one(l, schedule[0]), schedule.skip(1))
    }
}

/// Outcome of the epoch hook on the ledger and the two schedules.
pub struct HookResult {
    pub ledger: LedgerModel,
    pub current: Seq<Seq<char>>,
    pub next: Seq<Seq<char>>,
}

/// The epoch hook: at the first block of an epoch, pay the ending epoch's
/// validators, rotate the schedules, draw the next schedule from the stake
/// pool under the epoch seed, and release due unstakes.  At any other
/// height nothing happens.
pub open spec fn spec_epoch_hook(
    c: Seq<Block>,
    l: LedgerModel,
    cur: Seq<Seq<char>>,
    nxt: Seq<Seq<char>>,
) -> HookResult {
    if c.len() as int % (EPOCH_HEIGHT as int) != 0 {
        HookResult { ledger: l, current: cur, next: nxt }
    } else {
        let epoch = c.len() as int / (EPOCH_HEIGHT as int);
        let seed = spec_epoch_seed(c, epoch + 1);
        let l1 = spec_distribute_rewards(l, cur);
        let pool = stake_pool_of(l1);
        HookResult {
            ledger: spec_return_stakes(l1, epoch),
            current: nxt,
            next: Seq::new(EPOCH_HEIGHT as nat, |i: int| slot_validator(pool, seed, i)),
        }
    }
}

/// Set-up of a contract call: the fee leaves the sender, then the bytecode
/// is looked up.  A failed lookup keeps the fee debit, since transaction
/// failures are not rolled back.
pub open spec fn spec_call_setup(ks: KernelState, tx: Transaction) -> Result<
    KernelState,
    (KernelState, ErrKind),
> {
    match tx.tx_type {
        TransactionType::CallContract { contract_address } => match ledger_get(
            ks.ledger,
            tx.sender@,
        ) {
            None => Err((ks, ErrKind::UserNotFound)),
            Some(w) => if w.balance < tx.fee {
                Err((ks, ErrKind::InsufficientFee))
            } else {
                let ks1 = KernelState {
                    ledger: ledger_upsert(
                        ks.ledger,
                        tx.sender@,
                        WalletModel {
                            balance: (w.balance - tx.fee) as u64,
                            staked: w.staked,
                            pending: w.pending,
                        },
                    ),
                    contracts: ks.contracts,
                    storage: ks.storage,
                };
                match assoc_get(ks.contracts, contract_address@) {
                    None => Err((ks1, ErrKind::ContractNotFound)),
                    Some(_) => Ok(ks1),
                }
            },
        },
        _ => Err((ks, ErrKind::ContractExecutionFailure)),
    }
}

/// Effect of one transaction that is not a contract call.
pub open spec fn apply_plain_tx(ks: KernelState, tx: Transaction, height: int) -> Result<
    KernelState,
    ErrKind,
> {
    match tx.tx_type {
        TransactionType::Transfer { sender, receiver, amount } => match spec_transfer(
            ks.ledger,
            sender@,
            receiver@,
            amount,
            tx.fee,
        ) {
            Ok(l) => Ok(KernelState { ledger: l, contracts: ks.contracts, storage: ks.storage }),
            Err(e) => Err(e),
        },
        TransactionType::Stake { user, amount } => match spec_stake(
            ks.ledger,
            user@,
            amount,
            tx.fee,
        ) {
            Ok(l) => Ok(KernelState { ledger: l, contracts: ks.contracts, storage: ks.storage }),
            Err(e) => Err(e),
        },
        TransactionType::Unstake { user, amount } => match spec_unstake(
            ks.ledger,
            user@,
            height,
            amount,
            tx.fee,
        ) {
            Ok(l) => Ok(KernelState { ledger: l, contracts: ks.contracts, storage: ks.storage }),
            Err(e) => Err(e),
        },
        TransactionType::DeployContract { code } => Ok(
            KernelState {
                ledger: ks.ledger,
                contracts: ks.contracts.push(
                    (contract_address_str(ks.contracts.len() as int), code@),
                ),
                storage: ks.storage,
            },
        ),
        TransactionType::CallContract { .. } => Err(ErrKind::ContractExecutionFailure),
    }
}

/// Apply transactions in order from index `i`: finish cleanly at the end,
/// hand over at a contract call, or stop at the first failure, keeping the
/// effects of the earlier transactions.
pub open spec fn run_txs(ks: KernelState, txs: Seq<Transaction>, i: int, height: int) -> SpecStep
    decreases txs.len() - i,
{
    if i < 0 || i >= txs.len() {
        SpecStep::Done(ks)
    } else {
        match txs[i].tx_type {
            TransactionType::CallContract { .. } => match spec_call_setup(ks, txs[i]) {
                Ok(ks1) => SpecStep::Call(ks1, i),
                Err((ksf, e)) => SpecStep::Fail(ksf, e),
            },
            _ => match apply_plain_tx(ks, txs[i], height) {
                Ok(ks1) => run_txs(ks1, txs, i + 1, height),
                Err(e) => SpecStep::Fail(ks, e),
            },
        }
    }
}

/// A chain is valid when every block after the genesis seals its contents
/// and links to the hash of the block before it.
pub open spec fn spec_chain_valid(c: Seq<Block>) -> bool {
    forall|i: int|
        1 <= i < c.len() ==> (#[trigger] c[i]).hash@ == spec_block_hash(c[i]) && c[i].previous_hash@
            == c[i - 1].hash@
}

/// Shape of a healthy chain: at least the genesis block, every block
/// sealed over its contents and fees, every link intact.
pub open spec fn chain_ok(c: Seq<Block>) -> bool {
    &&& c.len() >= 1
    &&& is_genesis_block(c[0])
    &&& forall|i: int| 0 <= i < c.len() ==> block_wf(#[trigger] c[i])
    &&& forall|i: int| 1 <= i < c.len() ==> (#[trigger] c[i]).previous_hash@ == c[i - 1].hash@
}

// ---------------------------------------------------------------------------
// Lemmas on the spec transitions.
// ---------------------------------------------------------------------------

/// Paying rewards keeps exactly the users the ledger had.
pub proof fn lemma_rewards_has(l: LedgerModel, schedule: Seq<Seq<char>>, v: Seq<char>)
    ensures
        ledger_has(spec_distribute_rewards(l, schedule), v) == ledger_has(l, v),
    decreases schedule.len(),
{
    if schedule.len() > 0 {
        let u = schedule[0];
        match ledger_get(l, u) {
            None => {},
            Some(w) => {
                lemma_upsert_get(
                    l,
                    u,
                    WalletModel {
                        balance: sat_add(w.balance, (w.staked / REWARD_RATE_DENOM) as u64),
                        staked: w.staked,
                        pending: w.pending,
                    },
                    v,
                );
            },
        }
        lemma_rewards_has(spec_reward_one(l, u), schedule.skip(1), v);
    }
}

/// Every healthy chain is valid: the stored hashes recompute and the links
/// hold, block by block.
pub proof fn lemma_chain_ok_valid(c: Seq<Block>)
    requires
        chain_ok(c),
    ensures
        spec_chain_valid(c),
{
}

/// Balances and stakes are never negative: every ledger amount is held in
/// an unsigned representation, so non-negativity holds of every wallet in
/// every reachable state.
pub proof fn lemma_balances_nonnegative(l: LedgerModel, i: int)
    requires
        0 <= i < l.len(),
    ensures
        l[i].1.balance >= 0,
        l[i].1.staked >= 0,
        forall|j: int| 0 <= j < l[i].1.pending.len() ==> (#[trigger] l[i].1.pending[j]).amount >= 0,
{
}

impl Blockchain {
    /// The wallet ledger.
    pub closed spec fn ledger(&self) -> LedgerModel {
        self.wallets@
    }

    /// The chain of sealed blocks.
    pub closed spec fn chain_view(&self) -> Seq<Block> {
        self.chain@
    }

    /// The contract registry, in deployment order.
    pub closed spec fn contracts_model(&self) -> Seq<(Seq<char>, Seq<u8>)> {
        contracts_view(self.contracts@)
    }

    /// The contract storage, per contract in creation order.
    pub closed spec fn storage_model(&self) -> Seq<(Seq<char>, Seq<(Seq<char>, Seq<u8>)>)> {
        storage_view(self.contract_storage@)
    }

    /// The running epoch's validator schedule.
    pub closed spec fn validators_current(&self) -> Seq<Seq<char>> {
        self.validators.current()
    }

    /// The next epoch's validator schedule.
    pub closed spec fn validators_next(&self) -> Seq<Seq<char>> {
        self.validators.next()
    }

    /// The block under construction, if any.
    pub closed spec fn pending_model(&self) -> Option<PendingModel> {
        match self.pending {
            None => None,
            Some(p) => Some(
                PendingModel {
                    txs: p.transactions@,
                    next_idx: p.next_idx as int,
                    validator: p.validator@,
                    in_call: p.in_call,
                },
            ),
        }
    }

    /// The transaction-facing state as one value.
    pub open spec fn kernel_state(&self) -> KernelState {
        KernelState {
            ledger: self.ledger(),
            contracts: self.contracts_model(),
            storage: self.storage_model(),
        }
    }

    /// Kernel invariant: the ledger is sorted and holds the origin account,
    /// both schedules are full and name only users with wallets, the chain
    /// is healthy, and any pending block is consistent.
    pub open spec fn inv(&self) -> bool {
        &&& ledger_wf(self.ledger())
        &&& ledger_has(self.ledger(), GENESIS@)
        &&& self.validators_current().len() == EPOCH_HEIGHT
        &&& self.validators_next().len() == EPOCH_HEIGHT
        &&& forall|i: int|
            0 <= i < self.validators_current().len() ==> ledger_has(
                self.ledger(),
                #[trigger] self.validators_current()[i],
            )
        &&& forall|i: int|
            0 <= i < self.validators_next().len() ==> ledger_has(
                self.ledger(),
                #[trigger] self.validators_next()[i],
            )
        &&& chain_ok(self.chain_view())
        &&& match self.pending_model() {
            None => true,
            Some(p) => p.next_idx <= p.txs.len() && ledger_has(self.ledger(), p.validator) && (
            p.in_call ==> p.next_idx < p.txs.len()
                && p.txs[p.next_idx].tx_type matches TransactionType::CallContract { .. })
        }
    }

    /// Fresh blockchain: the origin account holds the initial supply, the
    /// chain holds the genesis block sealing that ledger's state root, and
    /// the origin account fills both validator schedules.
    pub fn new() -> (b: Blockchain)
        ensures
            b.inv(),
            b.ledger() == ledger_upsert(
                Seq::<(Seq<char>, WalletModel)>::empty(),
                GENESIS@,
                WalletModel { balance: BLOCK_CHAIN_WORTH, staked: 0, pending: Seq::empty() },
            ),
            b.chain_view().len() == 1,
            is_genesis_block(b.chain_view()[0]),
            b.chain_view()[0].state_root@ == state_root_of(b.ledger()),
            b.contracts_model() == Seq::<(Seq<char>, Seq<u8>)>::empty(),
            b.storage_model() == Seq::<(Seq<char>, Seq<(Seq<char>, Seq<u8>)>)>::empty(),
            b.pending_model() is None,
            forall|i: int|
                0 <= i < EPOCH_HEIGHT ==> #[trigger] b.validators_current()[i] == GENESIS@,
    {
        let mut wallets = Wallets::new();
        wallets.insert_wallet(GENESIS, BLOCK_CHAIN_WORTH);
        let (root, _) = state_root::compute(&wallets);
        let b = Blockchain {
            chain: Chain::new(root),
            wallets,
            contracts: Vec::new(),
            contract_storage: Vec::new(),
            validators: TwoEpochValidators::new(EPOCH_HEIGHT),
            pending: None,
        };
        proof {
            assert(b.contracts_model() =~= Seq::<(Seq<char>, Seq<u8>)>::empty());
            assert(b.storage_model() =~= Seq::<(Seq<char>, Seq<(Seq<char>, Seq<u8>)>)>::empty());
        }
        b
    }

    /// Wallet of `user`, or `UserNotFound`.
    pub fn get_wallet(&self, user: &str) -> (r: Result<&Wallet, BChainError>)
        ensures
            (match r {
                Ok(w) => ledger_get(self.ledger(), user@) == Some(w@),
                Err(e) => ledger_get(self.ledger(), user@) is None && e.kind()
                    == ErrKind::UserNotFound,
            }),
    {
        match self.wallets.get_wallet(user) {
            Some(w) => Ok(w),
            None => Err(BChainError::UserNotFound(user.to_owned())),
        }
    }

    /// Seed of the validator draw for `epoch`, read from the chain.  The
    /// chain must already reach the seeding block; the epoch engine only
    /// asks once it does.
    fn get_epoch_seed(&self, epoch: usize) -> (s: String)
        requires
            crate::config::spec_consensus_block(epoch as int) < self.chain_view().len(),
        ensures
            s@ == spec_epoch_seed(self.chain_view(), epoch as int),
    {
        if epoch < 2 {
            u64_to_dec(0)
        } else {
            let n = self.chain.len();
            proof {
                assert((epoch - 1) * (EPOCH_HEIGHT as int) - 1 < n);
            }
            let x = (epoch - 1) * EPOCH_HEIGHT - 1;
            match self.chain.get_block_by_idx(x) {
                Some(b) => b.hash.clone(),
                None => vstd::pervasive::unreached(),
            }
        }
    }

    /// Pay each slot of the running schedule its holder's per-epoch reward.
    fn distribute_rewards(&mut self)
        requires
            ledger_wf(old(self).ledger()),
        ensures
            ledger_wf(final(self).ledger()),
            final(self).ledger() == spec_distribute_rewards(
                old(self).ledger(),
                old(self).validators_current(),
            ),
            final(self).chain_view() == old(self).chain_view(),
            final(self).validators_current() == old(self).validators_current(),
            final(self).validators_next() == old(self).validators_next(),
            final(self).contracts_model() == old(self).contracts_model(),
            final(self).storage_model() == old(self).storage_model(),
            final(self).pending_model() == old(self).pending_model(),
    {
        let ghost l0 = self.ledger();
        let ghost sched = self.validators_current();
        let ghost c0 = self.chain_view();
        let ghost nxt0 = self.validators_next();
        let ghost con0 = self.contracts_model();
        let ghost st0 = self.storage_model();
        let ghost p0 = self.pending_model();
        let count = self.validators.get_current_epoch_validators().len();
        let mut i: usize = 0;
        proof {
            assert(sched.skip(0) =~= sched);
        }
        while i < count
            invariant
                i <= count,
                count == sched.len(),
                sched == self.validators.current(),
                self.chain_view() == c0,
                self.validators_next() == nxt0,
                self.contracts_model() == con0,
                self.storage_model() == st0,
                self.pending_model() == p0,
                ledger_wf(self.wallets@),
                spec_distribute_rewards(l0, sched) == spec_distribute_rewards(
                    self.wallets@,
                    sched.skip(i as int),
                ),
            decreases count - i,
        {
            let user: String = self.validators.get_current_epoch_validators()[i].clone();
            proof {
                assert(user@ == sched[i as int]);
            }
            let staked_now: Option<u64> = (match self.wallets.get_wallet(user.as_str()) {
                Some(w) => Some(w.staked),
                None => None,
            });
            let ghost l_cur = self.wallets@;
            match staked_now {
                Some(staked) => {
                    let reward = staked / REWARD_RATE_DENOM;
                    let _ = self.wallets.credit(user.as_str(), reward);
                    proof {
                        assert(self.wallets@ == spec_reward_one(l_cur, sched[i as int]));
                    }
                },
                None => {
                    proof {
                        assert(self.wallets@ == spec_reward_one(l_cur, sched[i as int]));
                    }
                },
            }
            proof {
                assert(sched.skip(i as int)[0] == sched[i as int]);
                assert(sched.skip(i as int).skip(1) =~= sched.skip(i + 1));
            }
            i = i + 1;
        }
        proof {
            assert(sched.skip(i as int) =~= Seq::<Seq<char>>::empty());
        }
    }

    /// The epoch hook: at the first block of an epoch, pay rewards, rotate
    /// the schedules, draw the next one, and release due unstakes.
    fn on_first_block_of_epoch(&mut self)
        requires
            old(self).inv(),
        ensures
            final(self).inv(),
            ({
                let h = spec_epoch_hook(
                    old(self).chain_view(),
                    old(self).ledger(),
                    old(self).validators_current(),
                    old(self).validators_next(),
                );
                final(self).ledger() == h.ledger && final(self).validators_current() == h.current
                    && final(self).validators_next() == h.next
            }),
            final(self).chain_view() == old(self).chain_view(),
            final(self).contracts_model() == old(self).contracts_model(),
            final(self).storage_model() == old(self).storage_model(),
            final(self).pending_model() == old(self).pending_model(),
    {
        let block_height = self.chain.len();
        if block_height % EPOCH_HEIGHT != 0 {
            return ;
        }
        let epoch = crate::config::get_epoch(block_height);
        proof {
            assert(epoch >= 1) by {
                if block_height < EPOCH_HEIGHT {
                    assert(block_height as int % (EPOCH_HEIGHT as int) == block_height as int);
                }
            }
            assert(epoch * (EPOCH_HEIGHT as int) == block_height as int) by (nonlinear_arith)
                requires
                    epoch == block_height as int / (EPOCH_HEIGHT as int),
                    block_height as int % (EPOCH_HEIGHT as int) == 0,
                    (EPOCH_HEIGHT as int) > 0,
            ;
            assert(crate::config::spec_consensus_block(epoch + 1) == block_height - 1);
        }
        let seed = self.get_epoch_seed(epoch + 1);
        self.distribute_rewards();
        let ghost l1 = self.ledger();
        let ghost pool = stake_pool_of(l1);
        let stake_pool = self.wallets.get_stake_pool();
        self.validators.update_validators(&stake_pool, seed);
        self.wallets.return_stakes(epoch);
        proof {
            let c = old(self).chain_view();
            let l0 = old(self).ledger();
            let cur0 = old(self).validators_current();
            let nxt0 = old(self).validators_next();
            let h = spec_epoch_hook(c, l0, cur0, nxt0);
            let sd = spec_epoch_seed(c, (epoch + 1) as int);
            assert(self.validators_next() =~= h.next);
            assert(self.ledger() == h.ledger);
            assert forall|v: Seq<char>| #[trigger] ledger_has(l1, v) implies ledger_has(
                self.ledger(),
                v,
            ) by {
                lemma_return_stakes_get(l1, epoch as int, v);
            }
            assert forall|v: Seq<char>| #[trigger] ledger_has(l0, v) implies ledger_has(l1, v) by {
                lemma_rewards_has(l0, cur0, v);
            }
            assert forall|i: int|
                0 <= i < self.validators_current().len() implies ledger_has(
                self.ledger(),
                #[trigger] self.validators_current()[i],
            ) by {
                assert(self.validators_current()[i] == nxt0[i]);
            }
            assert forall|i: int|
                0 <= i < self.validators_next().len() implies ledger_has(
                self.ledger(),
                #[trigger] self.validators_next()[i],
            ) by {
                assert(self.validators_next()[i] == slot_validator(pool, sd, i));
                lemma_select_member(
                    pool,
                    crate::hashing::sha_lead_u64(crate::validators::slot_seed_str(sd, i))
                        % crate::validators::total_stake_of(pool),
                );
                if slot_validator(pool, sd, i) != GENESIS@ {
                    let k = choose|k: int|
                        0 <= k < pool.len() && slot_validator(pool, sd, i) == #[trigger] pool[k].0;
                    lemma_stake_pool_member_has(l1, k);
                }
            }
            match self.pending_model() {
                None => {},
                Some(p) => {
                    assert(ledger_has(self.ledger(), p.validator));
                },
            }
        }
    }
}

// ---------------------------------------------------------------------------
// The block pipeline.
// ---------------------------------------------------------------------------

/// Address named by a contract-call transaction.
pub open spec fn call_addr(tx: Transaction) -> Seq<char> {
    match tx.tx_type {
        TransactionType::CallContract { contract_address } => contract_address@,
        _ => Seq::empty(),
    }
}

/// State of the kernel after a sealed block: the chain grew by one block
/// sealing the post-transaction ledger's root, the validator collected the
/// fees, and nothing is pending.
pub open spec fn sealed_state(
    base_chain: Seq<Block>,
    ks: KernelState,
    txs: Seq<Transaction>,
    validator: Seq<char>,
    post: Blockchain,
) -> bool {
    &&& post.chain_view().len() == base_chain.len() + 1
    &&& post.chain_view().drop_last() == base_chain
    &&& ({
        let b = post.chain_view().last();
        &&& b.transactions@ == txs
        &&& b.previous_hash@ == base_chain.last().hash@
        &&& b.validator@ == validator
        &&& b.state_root@ == state_root_of(ks.ledger)
        &&& b.total_fees == crate::transaction::total_fees_of(txs)
        &&& block_wf(b)
    })
    &&& post.ledger() == spec_credit(ks.ledger, validator, crate::transaction::total_fees_of(txs))
    &&& post.contracts_model() == ks.contracts
    &&& post.storage_model() == ks.storage
    &&& post.pending_model() is None
}

/// State of the kernel stopped at a contract call: the fee is debited, the
/// chain untouched, and the pending block records where to resume.
pub open spec fn call_state(
    base_chain: Seq<Block>,
    ks: KernelState,
    i: int,
    txs: Seq<Transaction>,
    validator: Seq<char>,
    post: Blockchain,
) -> bool {
    &&& post.ledger() == ks.ledger
    &&& post.contracts_model() == ks.contracts
    &&& post.storage_model() == ks.storage
    &&& post.chain_view() == base_chain
    &&& post.pending_model() matches Some(p) && p.txs == txs && p.next_idx == i && p.validator
        == validator && p.in_call
}

/// State of the kernel after a failed transaction: the failure's state is
/// kept (no rollback), the chain untouched, nothing pending.
pub open spec fn fail_state(base_chain: Seq<Block>, ks: KernelState, post: Blockchain) -> bool {
    &&& post.ledger() == ks.ledger
    &&& post.contracts_model() == ks.contracts
    &&& post.storage_model() == ks.storage
    &&& post.chain_view() == base_chain
    &&& post.pending_model() is None
}

/// The state a pipeline run leaves behind, by where `run_txs` stops.
pub open spec fn post_state_ok(
    base_chain: Seq<Block>,
    ks_start: KernelState,
    txs: Seq<Transaction>,
    start: int,
    validator: Seq<char>,
    post: Blockchain,
) -> bool {
    match run_txs(ks_start, txs, start, base_chain.len() as int) {
        SpecStep::Done(ks) => sealed_state(base_chain, ks, txs, validator, post),
        SpecStep::Call(ks, i) => call_state(base_chain, ks, i, txs, validator, post),
        SpecStep::Fail(ks, _) => fail_state(base_chain, ks, post),
    }
}

/// The step or error a pipeline run returns, by where `run_txs` stops.
pub open spec fn result_ok(
    ks_start: KernelState,
    txs: Seq<Transaction>,
    start: int,
    height: int,
    r: Result<BlockStep, BChainError>,
) -> bool {
    match run_txs(ks_start, txs, start, height) {
        SpecStep::Done(_) => r matches Ok(BlockStep::Sealed),
        SpecStep::Call(ks, i) => r matches Ok(
            BlockStep::RunContract { contract_address, sender, code },
        ) && contract_address@ == call_addr(txs[i]) && sender@ == txs[i].sender@ && Some(code@)
            == assoc_get(ks.contracts, call_addr(txs[i])),
        SpecStep::Fail(_, e) => r matches Err(err) && err.kind() == e,
    }
}

impl Blockchain {
    /// Bytecode of the contract at `address`, if deployed.
    fn find_contract(&self, address: &str) -> (r: Option<&Vec<u8>>)
        ensures
            (match r {
                Some(c) => assoc_get(self.contracts_model(), address@) == Some(c@),
                None => assoc_get(self.contracts_model(), address@) is None,
            }),
    {
        let n = self.contracts.len();
        let mut i: usize = 0;
        while i < n
            invariant
                i <= n,
                n == self.contracts@.len(),
                forall|j: int|
                    0 <= j < i ==> (#[trigger] contracts_view(self.contracts@)[j].0) != address@,
            decreases n - i,
        {
            if crate::text::str_eq(self.contracts[i].address.as_str(), address) {
                proof {
                    crate::contracts::lemma_assoc_get_at_index(
                        self.contracts_model(),
                        address@,
                        i as int,
                    );
                }
                return Some(&self.contracts[i].code);
            }
            proof {
                assert(contracts_view(self.contracts@)[i as int].0 == self.contracts@[
                    i as int].address@);
            }
            i = i + 1;
        }
        proof {
            crate::contracts::lemma_assoc_get_absent(self.contracts_model(), address@);
        }
        None
    }

    /// Apply the pending block's transactions from its next index: seal the
    /// block if all apply, stop at a contract call, or return the first
    /// failure with the earlier effects kept.
    #[verifier::loop_isolation(false)]
    fn step_txs(&mut self, pb: PendingBlock) -> (r: Result<BlockStep, BChainError>)
        requires
            old(self).pending_model() is None,
            ledger_wf(old(self).ledger()),
            ledger_has(old(self).ledger(), GENESIS@),
            old(self).validators_current().len() == EPOCH_HEIGHT,
            old(self).validators_next().len() == EPOCH_HEIGHT,
            forall|i: int|
                0 <= i < old(self).validators_current().len() ==> ledger_has(
                    old(self).ledger(),
                    #[trigger] old(self).validators_current()[i],
                ),
            forall|i: int|
                0 <= i < old(self).validators_next().len() ==> ledger_has(
                    old(self).ledger(),
                    #[trigger] old(self).validators_next()[i],
                ),
            chain_ok(old(self).chain_view()),
            pb.next_idx <= pb.transactions@.len(),
            ledger_has(old(self).ledger(), pb.validator@),
            !pb.in_call,
        ensures
            final(self).inv(),
            final(self).validators_current() == old(self).validators_current(),
            final(self).validators_next() == old(self).validators_next(),
            post_state_ok(
                old(self).chain_view(),
                old(self).kernel_state(),
                pb.transactions@,
                pb.next_idx as int,
                pb.validator@,
                *final(self),
            ),
            result_ok(
                old(self).kernel_state(),
                pb.transactions@,
                pb.next_idx as int,
                old(self).chain_view().len() as int,
                r,
            ),
    {
        let ghost ks_start = self.kernel_state();
        let ghost txs0 = pb.transactions@;
        let ghost start = pb.next_idx as int;
        let ghost val0 = pb.validator@;
        let ghost c0 = self.chain_view();
        let ghost vc0 = self.validators_current();
        let ghost vn0 = self.validators_next();
        let height = self.chain.len();
        let mut pb = pb;
        while pb.next_idx < pb.transactions.len()
            invariant
                self.pending_model() is None,
                ledger_wf(self.ledger()),
                ledger_has(self.ledger(), GENESIS@),
                self.validators_current() == vc0,
                self.validators_next() == vn0,
                vc0.len() == EPOCH_HEIGHT,
                vn0.len() == EPOCH_HEIGHT,
                forall|i: int|
                    0 <= i < vc0.len() ==> ledger_has(self.ledger(), #[trigger] vc0[i]),
                forall|i: int|
                    0 <= i < vn0.len() ==> ledger_has(self.ledger(), #[trigger] vn0[i]),
                self.chain_view() == c0,
                chain_ok(c0),
                height == c0.len(),
                pb.next_idx <= pb.transactions@.len(),
                pb.transactions@ == txs0,
                pb.validator@ == val0,
                !pb.in_call,
                ledger_has(self.ledger(), val0),
                run_txs(ks_start, txs0, start, height as int) == run_txs(
                    self.kernel_state(),
                    txs0,
                    pb.next_idx as int,
                    height as int,
                ),
            decreases pb.transactions@.len() - pb.next_idx,
        {
            let idx = pb.next_idx;
            let ghost ks_cur = self.kernel_state();
            let fee = pb.transactions[idx].fee;
            match &pb.transactions[idx].tx_type {
                TransactionType::Transfer { sender, receiver, amount } => {
                    let outcome = self.wallets.transfer(
                        sender.as_str(),
                        receiver.as_str(),
                        *amount,
                        fee,
                    );
                    match outcome {
                        Ok(_) => {
                            proof {
                                lemma_transfer_preserves_users(ks_cur.ledger, sender@, receiver@,
                                    *amount, fee);
                            }
                        },
                        Err(e) => {
                            proof {
                                assert(run_txs(ks_start, txs0, start, height as int)
                                    == SpecStep::Fail(ks_cur, e.kind()));
                            }
                            return Err(e);
                        },
                    }
                },
                TransactionType::Stake { user, amount } => {
                    let outcome = self.wallets.stake(user.as_str(), *amount, fee);
                    match outcome {
                        Ok(_) => {
                            proof {
                                lemma_stake_preserves_users(ks_cur.ledger, user@, *amount, fee);
                            }
                        },
                        Err(e) => {
                            proof {
                                assert(run_txs(ks_start, txs0, start, height as int)
                                    == SpecStep::Fail(ks_cur, e.kind()));
                            }
                            return Err(e);
                        },
                    }
                },
                TransactionType::Unstake { user, amount } => {
                    let outcome = self.wallets.unstake(user.as_str(), height, *amount, fee);
                    match outcome {
                        Ok(_) => {
                            proof {
                                lemma_unstake_preserves_users(ks_cur.ledger, user@,
                                    height as int, *amount, fee);
                            }
                        },
                        Err(e) => {
                            proof {
                                assert(run_txs(ks_start, txs0, start, height as int)
                                    == SpecStep::Fail(ks_cur, e.kind()));
                            }
                            return Err(e);
                        },
                    }
                },
                TransactionType::DeployContract { code } => {
                    let address = crate::contracts::make_contract_address(
                        self.contracts.len() as u64,
                    );
                    let deployed_code = code.clone();
                    let ghost cv = self.contracts_model();
                    self.contracts.push(ContractEntry { address, code: deployed_code });
                    proof {
                        assert(self.contracts_model() =~= cv.push(
                            (contract_address_str(cv.len() as int), code@),
                        ));
                    }
                },
                TransactionType::CallContract { contract_address } => {
                    let sender = pb.transactions[idx].sender.clone();
                    let target = contract_address.clone();
                    let charge = self.wallets.charge_fee(sender.as_str(), fee);
                    match charge {
                        Ok(_) => {},
                        Err(e) => {
                            proof {
                                assert(run_txs(ks_start, txs0, start, height as int)
                                    == SpecStep::Fail(ks_cur, e.kind()));
                            }
                            return Err(e);
                        },
                    }
                    proof {
                        assert(preserves_users(ks_cur.ledger, self.ledger())) by {
                            let w = ledger_get(ks_cur.ledger, sender@).unwrap();
                            lemma_upsert_preserves_users(
                                ks_cur.ledger,
                                sender@,
                                WalletModel {
                                    balance: (w.balance - fee) as u64,
                                    staked: w.staked,
                                    pending: w.pending,
                                },
                            );
                        }
                    }
                    let code = (match self.find_contract(target.as_str()) {
                        Some(c) => c.clone(),
                        None => {
                            proof {
                                assert(run_txs(ks_start, txs0, start, height as int) matches
                                    SpecStep::Fail(ksf, e) && fail_state(c0, ksf, *self) && e
                                    == ErrKind::ContractNotFound);
                            }
                            return Err(BChainError::ContractNotFound);
                        },
                    });
                    pb.in_call = true;
                    let ghost pcall = self.kernel_state();
                    self.pending = Some(pb);
                    proof {
                        assert(run_txs(ks_start, txs0, start, height as int) == SpecStep::Call(
                            pcall,
                            idx as int,
                        ));
                    }
                    return Ok(
                        BlockStep::RunContract { contract_address: target, sender, code },
                    );
                },
            }
            pb.next_idx = idx + 1;
        }
        // Seal the block.
        let ghost ks_done = self.kernel_state();
        proof {
            assert(run_txs(ks_start, txs0, start, height as int) == SpecStep::Done(ks_done));
        }
        let (root, _) = state_root::compute(&self.wallets);
        let previous_hash = (match self.chain.get_last_block() {
            Some(b) => b.hash.clone(),
            None => vstd::pervasive::unreached(),
        });
        let validator = pb.validator;
        let new_block = Block::new(pb.transactions, previous_hash, validator.clone(), root);
        let total_fees = new_block.total_fees;
        let _ = self.wallets.credit(validator.as_str(), total_fees);
        proof {
            lemma_credit_preserves_users(ks_done.ledger, val0, total_fees);
        }
        let ghost chain_before = self.chain_view();
        self.chain.push(new_block);
        proof {
            assert(self.chain_view().drop_last() =~= c0);
            let b = self.chain_view().last();
            assert(b.transactions@ == txs0);
            assert(chain_ok(self.chain_view())) by {
                assert forall|i: int| 0 <= i < self.chain_view().len() implies block_wf(
                    #[trigger] self.chain_view()[i],
                ) by {
                    if i < c0.len() {
                        assert(self.chain_view()[i] == c0[i]);
                    }
                }
                assert forall|i: int| 1 <= i < self.chain_view().len() implies (
                #[trigger] self.chain_view()[i]).previous_hash@ == self.chain_view()[i - 1].hash@
                    by {
                    if i < c0.len() {
                        assert(self.chain_view()[i] == c0[i]);
                        assert(self.chain_view()[i - 1] == c0[i - 1]);
                    } else {
                        assert(self.chain_view()[i - 1] == c0[c0.len() - 1]);
                    }
                }
                assert(self.chain_view()[0] == c0[0]);
            }
        }
        Ok(BlockStep::Sealed)
    }
}

impl Blockchain {
    /// Produce a block from `transactions`: run the epoch hook, pick the
    /// slot's validator, and apply the transactions.  Either the block is
    /// sealed, a contract call is handed to the caller to run, or the first
    /// failing transaction's error comes back with the earlier effects kept
    /// and no block appended.
    pub fn add_block(&mut self, transactions: Vec<Transaction>) -> (r: Result<
        BlockStep,
        BChainError,
    >)
        requires
            old(self).inv(),
            old(self).pending_model() is None,
        ensures
            final(self).inv(),
            ({
                let h = spec_epoch_hook(
                    old(self).chain_view(),
                    old(self).ledger(),
                    old(self).validators_current(),
                    old(self).validators_next(),
                );
                let ks0 = KernelState {
                    ledger: h.ledger,
                    contracts: old(self).contracts_model(),
                    storage: old(self).storage_model(),
                };
                let slot = old(self).chain_view().len() as int % (EPOCH_HEIGHT as int);
                &&& final(self).validators_current() == h.current
                &&& final(self).validators_next() == h.next
                &&& post_state_ok(
                    old(self).chain_view(),
                    ks0,
                    transactions@,
                    0,
                    h.current[slot],
                    *final(self),
                )
                &&& result_ok(
                    ks0,
                    transactions@,
                    0,
                    old(self).chain_view().len() as int,
                    r,
                )
            }),
    {
        self.on_first_block_of_epoch();
        let block_height = self.chain.len();
        let slot_in_epoch = block_height % EPOCH_HEIGHT;
        let count = self.validators.get_current_epoch_validators().len();
        if slot_in_epoch >= count {
            proof {
                assert(false);
            }
            return Err(BChainError::NoValidators);
        }
        let validator = self.validators.get_current_epoch_validators()[slot_in_epoch].clone();
        proof {
            assert(validator@ == self.validators_current()[slot_in_epoch as int]);
            assert(ledger_has(self.ledger(), validator@));
        }
        let pb = PendingBlock { transactions, next_idx: 0, validator, in_call: false };
        self.step_txs(pb)
    }

    /// Resume the pending block after the caller ran its contract call: a
    /// non-zero guest exit code fails the block (keeping the mutations the
    /// guest already made), a zero exit continues with the next transaction.
    pub fn resume_block(&mut self, guest_result: i32) -> (r: Result<BlockStep, BChainError>)
        requires
            old(self).inv(),
            old(self).pending_model() matches Some(p) && p.in_call,
        ensures
            final(self).inv(),
            final(self).validators_current() == old(self).validators_current(),
            final(self).validators_next() == old(self).validators_next(),
            ({
                let p = old(self).pending_model().unwrap();
                if guest_result != 0 {
                    &&& r matches Err(e) && e.kind() == ErrKind::ContractExecutionFailure
                    &&& final(self).ledger() == old(self).ledger()
                    &&& final(self).contracts_model() == old(self).contracts_model()
                    &&& final(self).storage_model() == old(self).storage_model()
                    &&& final(self).chain_view() == old(self).chain_view()
                    &&& final(self).pending_model() is None
                } else {
                    &&& post_state_ok(
                        old(self).chain_view(),
                        old(self).kernel_state(),
                        p.txs,
                        p.next_idx + 1,
                        p.validator,
                        *final(self),
                    )
                    &&& result_ok(
                        old(self).kernel_state(),
                        p.txs,
                        p.next_idx + 1,
                        old(self).chain_view().len() as int,
                        r,
                    )
                }
            }),
    {
        let taken = self.pending.take();
        match taken {
            None => vstd::pervasive::unreached(),
            Some(mut pb) => {
                if guest_result != 0 {
                    return Err(BChainError::ContractExecutionFailure);
                }
                pb.in_call = false;
                let n = pb.transactions.len();
                proof {
                    assert(pb.next_idx < n);
                }
                pb.next_idx = pb.next_idx + 1;
                self.step_txs(pb)
            },
        }
    }

    /// Whether a contract call is in flight, waiting for `resume_block`.
    pub fn has_pending_call(&self) -> (r: bool)
        ensures
            r == (self.pending_model() matches Some(p) && p.in_call),
    {
        match &self.pending {
            Some(p) => p.in_call,
            None => false,
        }
    }

    /// Take a block received from outside: check that its hash seals its
    /// contents and extends the chain tip, then apply its transactions
    /// through the pipeline (which runs the epoch hook first).
    pub fn process_block(&mut self, incoming: Block) -> (r: Result<BlockStep, BChainError>)
        requires
            old(self).inv(),
            old(self).pending_model() is None,
        ensures
            final(self).inv(),
            incoming.hash@ != spec_block_hash(incoming) ==> (r matches Err(e) && e.kind()
                == ErrKind::BlockHashMismatch) && *final(self) == *old(self),
            incoming.hash@ == spec_block_hash(incoming) && incoming.previous_hash@ != old(
                self,
            ).chain_view().last().hash@ ==> (r matches Err(e) && e.kind()
                == ErrKind::PreviousHashMismatch) && *final(self) == *old(self),
            incoming.hash@ == spec_block_hash(incoming) && incoming.previous_hash@ == old(
                self,
            ).chain_view().last().hash@ ==> ({
                let h = spec_epoch_hook(
                    old(self).chain_view(),
                    old(self).ledger(),
                    old(self).validators_current(),
                    old(self).validators_next(),
                );
                let ks0 = KernelState {
                    ledger: h.ledger,
                    contracts: old(self).contracts_model(),
                    storage: old(self).storage_model(),
                };
                let slot = old(self).chain_view().len() as int % (EPOCH_HEIGHT as int);
                &&& final(self).validators_current() == h.current
                &&& final(self).validators_next() == h.next
                &&& post_state_ok(
                    old(self).chain_view(),
                    ks0,
                    incoming.transactions@,
                    0,
                    h.current[slot],
                    *final(self),
                )
                &&& result_ok(
                    ks0,
                    incoming.transactions@,
                    0,
                    old(self).chain_view().len() as int,
                    r,
                )
            }),
    {
        let recomputed = incoming.calculate_hash();
        if !crate::text::str_eq(incoming.hash.as_str(), recomputed.as_str()) {
            return Err(BChainError::BlockHashMismatch);
        }
        let tip_hash_ok = (match self.chain.get_last_block() {
            Some(tip) => crate::text::str_eq(tip.hash.as_str(), incoming.previous_hash.as_str()),
            None => vstd::pervasive::unreached(),
        });
        if !tip_hash_ok {
            return Err(BChainError::PreviousHashMismatch);
        }
        self.add_block(incoming.transactions)
    }

    /// Dispatch a message: produce a block, or take an incoming one.  A
    /// produce failure is wrapped as `BlockProductionFailure` naming the
    /// producer.  Header exchange is outside the kernel's work.
    pub fn receive(&mut self, msg: Message) -> (r: Result<BlockStep, BChainError>)
        requires
            old(self).inv(),
            old(self).pending_model() is None,
            !(msg.msg_type matches MessageType::GetHeaders),
            !(msg.msg_type matches MessageType::Headers(_)),
        ensures
            final(self).inv(),
            msg.msg_type matches MessageType::ProduceBlock(producer, txs) ==> ({
                let h = spec_epoch_hook(
                    old(self).chain_view(),
                    old(self).ledger(),
                    old(self).validators_current(),
                    old(self).validators_next(),
                );
                let ks0 = KernelState {
                    ledger: h.ledger,
                    contracts: old(self).contracts_model(),
                    storage: old(self).storage_model(),
                };
                let slot = old(self).chain_view().len() as int % (EPOCH_HEIGHT as int);
                &&& final(self).validators_current() == h.current
                &&& final(self).validators_next() == h.next
                &&& post_state_ok(
                    old(self).chain_view(),
                    ks0,
                    txs@,
                    0,
                    h.current[slot],
                    *final(self),
                )
                &&& (match run_txs(ks0, txs@, 0, old(self).chain_view().len() as int) {
                    SpecStep::Done(_) => r matches Ok(BlockStep::Sealed),
                    SpecStep::Call(ks, i) => r matches Ok(
                        BlockStep::RunContract { contract_address, sender, code },
                    ) && contract_address@ == call_addr(txs@[i]) && sender@ == txs@[i].sender@
                        && Some(code@) == assoc_get(ks.contracts, call_addr(txs@[i])),
                    SpecStep::Fail(_, e) => r matches Err(err) && err matches
                        BChainError::BlockProductionFailure(p, inner) && p@ == producer@
                        && inner.kind() == e,
                })
            }),
    {
        match msg.msg_type {
            MessageType::ProduceBlock(producer, transactions) => {
                let outcome = self.add_block(transactions);
                match outcome {
                    Ok(step) => Ok(step),
                    Err(e) => Err(
                        BChainError::BlockProductionFailure(producer, Box::new(e)),
                    ),
                }
            },
            MessageType::IncomingBlock(incoming) => self.process_block(incoming),
            MessageType::GetHeaders => vstd::pervasive::unreached(),
            MessageType::Headers(_) => vstd::pervasive::unreached(),
        }
    }

    /// Check the whole chain: every block after the genesis must seal its
    /// contents and link to the block before it.  The kernel's own chains
    /// always pass.
    #[verifier::spinoff_prover]
    #[verifier::rlimit(100)]
    pub fn is_valid(&self) -> (r: bool)
        ensures
            r == spec_chain_valid(self.chain_view()),
    {
        let n = self.chain.len();
        let mut i: usize = 1;
        while i < n
            invariant
                1 <= i,
                n == self.chain_view().len(),
                forall|j: int|
                    1 <= j < i ==> (#[trigger] self.chain_view()[j]).hash@ == spec_block_hash(
                        self.chain_view()[j],
                    ) && self.chain_view()[j].previous_hash@ == self.chain_view()[j - 1].hash@,
            decreases n - i,
        {
            let current = (match self.chain.get_block_by_idx(i) {
                Some(b) => b,
                None => vstd::pervasive::unreached(),
            });
            let previous = (match self.chain.get_block_by_idx(i - 1) {
                Some(b) => b,
                None => vstd::pervasive::unreached(),
            });
            let recomputed = current.calculate_hash();
            if !crate::text::str_eq(current.hash.as_str(), recomputed.as_str()) {
                proof {
                    assert(!spec_chain_valid(self.chain_view())) by {
                        assert(self.chain_view()[i as int].hash@ != spec_block_hash(
                            self.chain_view()[i as int],
                        ));
                    }
                }
                return false;
            }
            if !crate::text::str_eq(current.previous_hash.as_str(), previous.hash.as_str()) {
                proof {
                    assert(!spec_chain_valid(self.chain_view())) by {
                        assert(self.chain_view()[i as int].previous_hash@ != self.chain_view()[
                            i as int - 1].hash@);
                    }
                }
                return false;
            }
            i = i + 1;
        }
        true
    }
}

// ---------------------------------------------------------------------------
// Host functions: the ledger and storage operations a contract guest may
// invoke while its call is in flight.  The sandbox plumbing that decodes
// guest memory lives outside the kernel and calls these with plain values.
// ---------------------------------------------------------------------------

impl Blockchain {
    /// Guest `get_balance`: the user's balance, or zero if absent.
    pub fn host_get_balance(&self, user: &str) -> (r: u64)
        ensures
            r == (match ledger_get(self.ledger(), user@) {
                Some(w) => w.balance,
                None => 0u64,
            }),
    {
        match self.wallets.get_wallet(user) {
            Some(w) => w.balance,
            None => 0,
        }
    }

    /// Guest `transfer`: move `amount` between users without a fee.  Zero
    /// amounts, unknown senders and overdrafts are rejected.
    pub fn host_transfer(&mut self, from: &str, to: &str, amount: u64) -> (ok: bool)
        requires
            old(self).inv(),
        ensures
            final(self).inv(),
            (match crate::wallets::spec_host_transfer(old(self).ledger(), from@, to@, amount) {
                Some(l2) => ok && final(self).ledger() == l2,
                None => !ok && final(self).ledger() == old(self).ledger(),
            }),
            final(self).chain_view() == old(self).chain_view(),
            final(self).contracts_model() == old(self).contracts_model(),
            final(self).storage_model() == old(self).storage_model(),
            final(self).validators_current() == old(self).validators_current(),
            final(self).validators_next() == old(self).validators_next(),
            final(self).pending_model() == old(self).pending_model(),
    {
        let ok = self.wallets.host_transfer(from, to, amount);
        proof {
            if ok {
                crate::wallets::lemma_host_transfer_preserves_users(
                    old(self).ledger(),
                    from@,
                    to@,
                    amount,
                );
            }
        }
        ok
    }

    /// Guest `stake`: the calling user stakes `amount` from balance.
    pub fn host_stake(&mut self, user: &str, amount: u64) -> (ok: bool)
        requires
            old(self).inv(),
        ensures
            final(self).inv(),
            (match spec_stake(old(self).ledger(), user@, amount, 0) {
                Ok(l2) => ok && final(self).ledger() == l2,
                Err(_) => !ok && final(self).ledger() == old(self).ledger(),
            }),
            final(self).chain_view() == old(self).chain_view(),
            final(self).contracts_model() == old(self).contracts_model(),
            final(self).storage_model() == old(self).storage_model(),
            final(self).validators_current() == old(self).validators_current(),
            final(self).validators_next() == old(self).validators_next(),
            final(self).pending_model() == old(self).pending_model(),
    {
        let outcome = self.wallets.stake(user, amount, 0);
        proof {
            if outcome is Ok {
                lemma_stake_preserves_users(old(self).ledger(), user@, amount, 0);
            }
        }
        outcome.is_ok()
    }

    /// Guest `unstake`: the calling user unstakes `amount`, scheduled to
    /// return two epochs after the current chain height's epoch.
    pub fn host_unstake(&mut self, user: &str, amount: u64) -> (ok: bool)
        requires
            old(self).inv(),
        ensures
            final(self).inv(),
            (match spec_unstake(
                old(self).ledger(),
                user@,
                old(self).chain_view().len() as int,
                amount,
                0,
            ) {
                Ok(l2) => ok && final(self).ledger() == l2,
                Err(_) => !ok && final(self).ledger() == old(self).ledger(),
            }),
            final(self).chain_view() == old(self).chain_view(),
            final(self).contracts_model() == old(self).contracts_model(),
            final(self).storage_model() == old(self).storage_model(),
            final(self).validators_current() == old(self).validators_current(),
            final(self).validators_next() == old(self).validators_next(),
            final(self).pending_model() == old(self).pending_model(),
    {
        let block_height = self.chain.len();
        let outcome = self.wallets.unstake(user, block_height, amount, 0);
        proof {
            if outcome is Ok {
                lemma_unstake_preserves_users(
                    old(self).ledger(),
                    user@,
                    block_height as int,
                    amount,
                    0,
                );
            }
        }
        outcome.is_ok()
    }

    /// Guest `store`: write `value` under `key` in the acting contract's
    /// storage, creating the store on first write.
    #[verifier::loop_isolation(false)]
    pub fn host_store(&mut self, contract_address: &str, key: &str, value: Vec<u8>)
        requires
            old(self).inv(),
        ensures
            final(self).inv(),
            final(self).storage_model() == crate::contracts::spec_store(
                old(self).storage_model(),
                contract_address@,
                key@,
                value@,
            ),
            final(self).ledger() == old(self).ledger(),
            final(self).chain_view() == old(self).chain_view(),
            final(self).contracts_model() == old(self).contracts_model(),
            final(self).validators_current() == old(self).validators_current(),
            final(self).validators_next() == old(self).validators_next(),
            final(self).pending_model() == old(self).pending_model(),
    {
        let ghost st0 = self.storage_model();
        let ghost vv = value@;
        let n = self.contract_storage.len();
        let mut i: usize = 0;
        while i < n
            invariant
                i <= n,
                n == self.contract_storage@.len(),
                self.storage_model() == st0,
                self.ledger() == old(self).ledger(),
                self.chain_view() == old(self).chain_view(),
                self.contracts_model() == old(self).contracts_model(),
                self.validators_current() == old(self).validators_current(),
                self.validators_next() == old(self).validators_next(),
                self.pending_model() == old(self).pending_model(),
                forall|j: int|
                    0 <= j < i ==> (#[trigger] storage_view(self.contract_storage@)[j].0)
                        != contract_address@,
            decreases n - i,
        {
            if crate::text::str_eq(
                self.contract_storage[i].address.as_str(),
                contract_address,
            ) {
                proof {
                    crate::contracts::lemma_assoc_get_at_index(st0, contract_address@, i as int);
                }
                let mut entry = self.contract_storage.remove(i);
                let ghost cells0 = crate::contracts::cells_view(entry.cells@);
                crate::contracts::set_cell(&mut entry.cells, key, value);
                self.contract_storage.insert(i, entry);
                proof {
                    assert(self.storage_model() =~= st0.update(
                        i as int,
                        (contract_address@, assoc_set(cells0, key@, vv)),
                    ));
                    crate::contracts::lemma_assoc_set_is_update(
                        st0,
                        contract_address@,
                        assoc_set(cells0, key@, vv),
                        i as int,
                    );
                }
                return ;
            }
            proof {
                assert(storage_view(self.contract_storage@)[i as int].0 == self.contract_storage@[
                    i as int].address@);
            }
            i = i + 1;
        }
        proof {
            assert forall|j: int| 0 <= j < st0.len() implies (#[trigger] st0[j].0)
                != contract_address@ by {
                assert(st0[j] == storage_view(self.contract_storage@)[j]);
            }
            crate::contracts::lemma_assoc_get_absent(st0, contract_address@);
        }
        let mut cells: Vec<crate::contracts::StorageCell> = Vec::new();
        cells.push(crate::contracts::StorageCell { key: key.to_owned(), value });
        self.contract_storage.push(
            StorageEntry { address: contract_address.to_owned(), cells },
        );
        proof {
            assert(crate::contracts::cells_view(
                self.contract_storage@.last().cells@,
            ) =~= seq![(key@, vv)]);
            assert(self.storage_model() =~~= st0.push((contract_address@, seq![(key@, vv)])));
        }
    }

    /// Guest `load`: the bytes under `key` in the acting contract's
    /// storage, if present.
    #[verifier::loop_isolation(false)]
    pub fn host_load(&self, contract_address: &str, key: &str) -> (r: Option<Vec<u8>>)
        ensures
            (match r {
                Some(v) => crate::contracts::spec_load(
                    self.storage_model(),
                    contract_address@,
                    key@,
                ) == Some(v@),
                None => crate::contracts::spec_load(
                    self.storage_model(),
                    contract_address@,
                    key@,
                ) is None,
            }),
    {
        let ghost st0 = self.storage_model();
        let n = self.contract_storage.len();
        let mut i: usize = 0;
        while i < n
            invariant
                i <= n,
                n == self.contract_storage@.len(),
                forall|j: int|
                    0 <= j < i ==> (#[trigger] storage_view(self.contract_storage@)[j].0)
                        != contract_address@,
            decreases n - i,
        {
            if crate::text::str_eq(
                self.contract_storage[i].address.as_str(),
                contract_address,
            ) {
                proof {
                    crate::contracts::lemma_assoc_get_at_index(st0, contract_address@, i as int);
                }
                let cells = &self.contract_storage[i].cells;
                let m = cells.len();
                let mut k: usize = 0;
                while k < m
                    invariant
                        k <= m,
                        m == cells@.len(),
                        forall|j: int|
                            0 <= j < k ==> (#[trigger] crate::contracts::cells_view(cells@)[j].0)
                                != key@,
                    decreases m - k,
                {
                    if crate::text::str_eq(cells[k].key.as_str(), key) {
                        proof {
                            crate::contracts::lemma_assoc_get_at_index(
                                crate::contracts::cells_view(cells@),
                                key@,
                                k as int,
                            );
                        }
                        return Some(cells[k].value.clone());
                    }
                    proof {
                        assert(crate::contracts::cells_view(cells@)[k as int].0 == cells@[
                            k as int].key@);
                    }
                    k = k + 1;
                }
                proof {
                    crate::contracts::lemma_assoc_get_absent(
                        crate::contracts::cells_view(cells@),
                        key@,
                    );
                }
                return None;
            }
            proof {
                assert(storage_view(self.contract_storage@)[i as int].0 == self.contract_storage@[
                    i as int].address@);
            }
            i = i + 1;
        }
        proof {
            crate::contracts::lemma_assoc_get_absent(st0, contract_address@);
        }
        None
    }
}

/// Chain and schedule invariants of every reachable kernel state: the chain
/// starts at the genesis block (previous hash `"0"`, produced by the origin
/// account); every block links to the hash of the block before it; every
/// block's stored hash recomputes from its contents; every block's fee
/// total is the sum of its transactions' fees; and both validator schedules
/// hold exactly one user per slot of an epoch.
pub proof fn lemma_kernel_invariants(b: Blockchain)
    requires
        b.inv(),
    ensures
        b.chain_view().len() >= 1,
        is_genesis_block(b.chain_view()[0]),
        forall|i: int|
            1 <= i < b.chain_view().len() ==> (#[trigger] b.chain_view()[i]).previous_hash@
                == b.chain_view()[i - 1].hash@,
        forall|i: int|
            0 <= i < b.chain_view().len() ==> (#[trigger] b.chain_view()[i]).hash@
                == spec_block_hash(b.chain_view()[i]),
        forall|i: int|
            0 <= i < b.chain_view().len() ==> (#[trigger] b.chain_view()[i]).total_fees
                == crate::transaction::total_fees_of(b.chain_view()[i].transactions@),
        b.validators_current().len() == EPOCH_HEIGHT,
        b.validators_next().len() == EPOCH_HEIGHT,
{
    assert forall|i: int| 0 <= i < b.chain_view().len() implies (#[trigger] b.chain_view()[
        i]).hash@ == spec_block_hash(b.chain_view()[i]) && b.chain_view()[i].total_fees
        == crate::transaction::total_fees_of(b.chain_view()[i].transactions@) by {
        assert(block_wf(b.chain_view()[i]));
    }
}

impl Default for Blockchain {
    /// Same as `Blockchain::new`.
    fn default() -> (b: Blockchain)
        ensures
            b.inv(),
            b.chain_view().len() == 1,
            is_genesis_block(b.chain_view()[0]),
            b.pending_model() is None,
    {
        Blockchain::new()
    }
}

impl Blockchain {
    /// Chain height: the number of sealed blocks.
    pub fn chain_len(&self) -> (n: usize)
        ensures
            n == self.chain_view().len(),
    {
        self.chain.len()
    }

    /// Block at index `idx`, if in range.
    pub fn get_block_by_idx(&self, idx: usize) -> (r: Option<&Block>)
        ensures
            (match r {
                Some(b) => idx < self.chain_view().len() && *b == self.chain_view()[idx as int],
                None => idx >= self.chain_view().len(),
            }),
    {
        self.chain.get_block_by_idx(idx)
    }

    /// The wallet ledger, for state-root and Merkle-proof queries.
    pub fn wallet_set(&self) -> (w: &Wallets)
        ensures
            w@ == self.ledger(),
    {
        &self.wallets
    }
}

} // verus!
