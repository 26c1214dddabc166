use vstd::prelude::*;
use std::collections::VecDeque;
use crate::bchain_error::{BChainError, ErrKind};
use crate::text::{lex_lt, str_eq, str_lex_lt, lemma_lex_lt_trans, lemma_lex_lt_total,
    lemma_lex_lt_irrefl};
use crate::config;

verus! {

// ---------------------------------------------------------------------------
// Ledger records.
// ---------------------------------------------------------------------------

/// A queued withdrawal that becomes spendable at `effective_epoch`.
#[derive(Clone, Copy, Debug, PartialEq, Eq, Structural)]
pub struct PendingUnstake {
    pub amount: u64,
    pub effective_epoch: usize,
}

/// Per-user ledger record: spendable balance, staked amount, and the queue
/// of pending withdrawals in effective-epoch order.
#[derive(Debug)]
pub struct Wallet {
    pub balance: u64,
    pub staked: u64,
    pub pending_unstakes: VecDeque<PendingUnstake>,
}

/// Mathematical value of one wallet.
pub struct WalletModel {
    pub balance: u64,
    pub staked: u64,
    pub pending: Seq<PendingUnstake>,
}

impl View for Wallet {
    type V = WalletModel;

    open spec fn view(&self) -> WalletModel {
        WalletModel { balance: self.balance, staked: self.staked, pending: self.pending_unstakes@ }
    }
}

impl Wallet {
    /// Fresh wallet holding `balance` and nothing staked or pending.
    pub fn new(balance: u64) -> (w: Wallet)
        ensures
            w@ == (WalletModel { balance, staked: 0, pending: Seq::empty() }),
    {
        let w = Wallet { balance, staked: 0, pending_unstakes: VecDeque::new() };
        proof {
            assert(w@.pending =~= Seq::<PendingUnstake>::empty());
            assert(w@ == (WalletModel { balance, staked: 0u64, pending: Seq::empty() }));
        }
        w
    }
}

/// One ledger entry: a user id and its wallet.
#[derive(Debug)]
pub struct WalletEntry {
    pub user: String,
    pub wallet: Wallet,
}

/// Mathematical value of the whole ledger: entries in strictly increasing
/// user order.
pub type LedgerModel = Seq<(Seq<char>, WalletModel)>;

/// The per-user ledger.  Entries are kept sorted by user id so that every
/// enumeration the consensus depends on is deterministic.
#[derive(Debug)]
pub struct Wallets {
    wallets: Vec<WalletEntry>,
}

impl View for Wallets {
    type V = LedgerModel;

    closed spec fn view(&self) -> LedgerModel {
        Seq::new(self.wallets@.len(), |i: int| (self.wallets@[i].user@, self.wallets@[i].wallet@))
    }
}

// ---------------------------------------------------------------------------
// Spec-level ledger operations.
// ---------------------------------------------------------------------------

/// Entries are strictly sorted by user id, so each user appears once.
pub open spec fn ledger_wf(l: LedgerModel) -> bool {
    forall|i: int, j: int| 0 <= i < j < l.len() ==> lex_lt(#[trigger] l[i].0, #[trigger] l[j].0)
}

/// Wallet of `u` in the ledger, if present.
pub open spec fn ledger_get(l: LedgerModel, u: Seq<char>) -> Option<WalletModel>
    decreases l.len(),
{
    if l.len() == 0 {
        None
    } else if l[0].0 == u {
        Some(l[0].1)
    } else {
        ledger_get(l.skip(1), u)
    }
}

/// Whether `u` has a wallet in the ledger.
pub open spec fn ledger_has(l: LedgerModel, u: Seq<char>) -> bool {
    ledger_get(l, u) is Some
}

/// The ledger with the wallet of `u` set to `w`, inserted in order if absent.
pub open spec fn ledger_upsert(l: LedgerModel, u: Seq<char>, w: WalletModel) -> LedgerModel
    decreases l.len(),
{
    if l.len() == 0 {
        seq![(u, w)]
    } else if l[0].0 == u {
        seq![(u, w)] + l.skip(1)
    } else if lex_lt(u, l[0].0) {
        seq![(u, w)] + l
    } else {
        seq![l[0]] + ledger_upsert(l.skip(1), u, w)
    }
}

/// Saturating addition: credits cap at the largest representable amount.
pub open spec fn sat_add(a: u64, b: u64) -> u64 {
    if a + b > u64::MAX {
        u64::MAX
    } else {
        (a + b) as u64
    }
}

/// Saturating addition, executable.
pub fn sat_add_exec(a: u64, b: u64) -> (r: u64)
    ensures
        r == sat_add(a, b),
{
    if a > u64::MAX - b {
        u64::MAX
    } else {
        a + b
    }
}

// ---------------------------------------------------------------------------
// Lemmas connecting upsert, get and sortedness.
// ---------------------------------------------------------------------------

pub proof fn lemma_skip_sorted(l: LedgerModel)
    requires
        ledger_wf(l),
        l.len() > 0,
    ensures
        ledger_wf(l.skip(1)),
    decreases l.len(),
{
    if l.len() > 0 {
        assert forall|i: int, j: int| 0 <= i < j < l.skip(1).len() implies lex_lt(
            #[trigger] l.skip(1)[i].0,
            #[trigger] l.skip(1)[j].0,
        ) by {
            assert(l.skip(1)[i] == l[i + 1]);
            assert(l.skip(1)[j] == l[j + 1]);
        }
    }
}

/// Updating the wallet at `u` changes exactly that user's lookup.
pub proof fn lemma_upsert_get(l: LedgerModel, u: Seq<char>, w: WalletModel, v: Seq<char>)
    ensures
        ledger_get(ledger_upsert(l, u, w), v) == (if v == u {
            Some(w)
        } else {
            ledger_get(l, v)
        }),
    decreases l.len(),
{
    let r = ledger_upsert(l, u, w);
    reveal_with_fuel(ledger_get, 3);
    if l.len() == 0 {
        assert(r[0] == (u, w));
        assert(r.skip(1) =~= Seq::<(Seq<char>, WalletModel)>::empty());
    } else if l[0].0 == u {
        assert(r[0] == (u, w));
        assert(r.skip(1) =~= l.skip(1));
    } else if lex_lt(u, l[0].0) {
        assert(r[0] == (u, w));
        assert(r.skip(1) =~= l);
    } else {
        assert(r[0] == l[0]);
        assert(r.skip(1) =~= ledger_upsert(l.skip(1), u, w));
        lemma_upsert_get(l.skip(1), u, w, v);
    }
}

/// Upsert keeps the ledger sorted.
pub proof fn lemma_upsert_wf(l: LedgerModel, u: Seq<char>, w: WalletModel)
    requires
        ledger_wf(l),
    ensures
        ledger_wf(ledger_upsert(l, u, w)),
        ledger_upsert(l, u, w).len() == (if ledger_has(l, u) {
            l.len()
        } else {
            l.len() + 1
        }),
        forall|k: int|
            0 <= k < ledger_upsert(l, u, w).len() ==> (#[trigger] ledger_upsert(l, u, w)[k].0 == u
                || exists|j: int| 0 <= j < l.len() && ledger_upsert(l, u, w)[k].0 == #[trigger] l[j].0),
    decreases l.len(),
{
    let r = ledger_upsert(l, u, w);
    if l.len() == 0 {
    } else if l[0].0 == u {
        assert(r =~= seq![(u, w)] + l.skip(1));
        lemma_skip_sorted(l);
        assert forall|i: int, j: int| 0 <= i < j < r.len() implies lex_lt(
            #[trigger] r[i].0,
            #[trigger] r[j].0,
        ) by {
            if i == 0 {
                assert(r[j].0 == l[j].0);
                assert(lex_lt(l[0].0, l[j].0));
            } else {
                assert(r[i].0 == l[i].0);
                assert(r[j].0 == l[j].0);
            }
        }
        assert forall|k: int| 0 <= k < r.len() implies (#[trigger] r[k].0 == u || exists|j: int|
            0 <= j < l.len() && r[k].0 == #[trigger] l[j].0) by {
            if k > 0 {
                assert(r[k].0 == l[k].0);
            }
        }
    } else if lex_lt(u, l[0].0) {
        assert(!ledger_has(l, u)) by {
            lemma_get_absent_below(l, u);
        }
        assert forall|i: int, j: int| 0 <= i < j < r.len() implies lex_lt(
            #[trigger] r[i].0,
            #[trigger] r[j].0,
        ) by {
            if i == 0 {
                assert(r[j].0 == l[j - 1].0);
                if j > 1 {
                    lemma_lex_lt_trans(u, l[0].0, l[j - 1].0);
                }
            } else {
                assert(r[i].0 == l[i - 1].0);
                assert(r[j].0 == l[j - 1].0);
            }
        }
        assert forall|k: int| 0 <= k < r.len() implies (#[trigger] r[k].0 == u || exists|j: int|
            0 <= j < l.len() && r[k].0 == #[trigger] l[j].0) by {
            if k > 0 {
                assert(r[k].0 == l[k - 1].0);
            }
        }
    } else {
        lemma_skip_sorted(l);
        lemma_upsert_wf(l.skip(1), u, w);
        let rr = ledger_upsert(l.skip(1), u, w);
        assert(r =~= seq![l[0]] + rr);
        assert(lex_lt(l[0].0, u)) by {
            lemma_lex_lt_total(l[0].0, u);
        }
        assert forall|i: int, j: int| 0 <= i < j < r.len() implies lex_lt(
            #[trigger] r[i].0,
            #[trigger] r[j].0,
        ) by {
            if i == 0 {
                assert(r[j].0 == rr[j - 1].0);
                if rr[j - 1].0 == u {
                    assert(lex_lt(l[0].0, u));
                } else {
                    let jj = choose|jj: int|
                        0 <= jj < l.skip(1).len() && rr[j - 1].0 == l.skip(1)[jj].0;
                    assert(l.skip(1)[jj] == l[jj + 1]);
                    assert(lex_lt(l[0].0, l[jj + 1].0));
                }
            } else {
                assert(r[i].0 == rr[i - 1].0);
                assert(r[j].0 == rr[j - 1].0);
            }
        }
        assert(ledger_has(l, u) == ledger_has(l.skip(1), u));
        assert forall|k: int| 0 <= k < r.len() implies (#[trigger] r[k].0 == u || exists|j: int|
            0 <= j < l.len() && r[k].0 == #[trigger] l[j].0) by {
            if k == 0 {
                assert(r[0].0 == l[0].0);
            } else {
                assert(r[k].0 == rr[k - 1].0);
                if rr[k - 1].0 != u {
                    let jj = choose|jj: int|
                        0 <= jj < l.skip(1).len() && rr[k - 1].0 == l.skip(1)[jj].0;
                    assert(l.skip(1)[jj] == l[jj + 1]);
                }
            }
        }
    }
}

/// In a sorted ledger, a user below the first entry is absent.
pub proof fn lemma_get_absent_below(l: LedgerModel, u: Seq<char>)
    requires
        ledger_wf(l),
        l.len() > 0,
        lex_lt(u, l[0].0),
    ensures
        !ledger_has(l, u),
    decreases l.len(),
{
    assert(l[0].0 != u) by {
        if l[0].0 == u {
            lemma_lex_lt_irrefl(u);
        }
    }
    if l.len() > 1 {
        lemma_skip_sorted(l);
        assert(lex_lt(l[0].0, l[1].0));
        lemma_lex_lt_trans(u, l[0].0, l.skip(1)[0].0);
        lemma_get_absent_below(l.skip(1), u);
    }
}

/// In any ledger, the entry at a first-match index is what `ledger_get` finds.
pub proof fn lemma_get_at_index(l: LedgerModel, u: Seq<char>, i: int)
    requires
        0 <= i < l.len(),
        l[i].0 == u,
        forall|j: int| 0 <= j < i ==> (#[trigger] l[j].0) != u,
    ensures
        ledger_get(l, u) == Some(l[i].1),
    decreases i,
{
    if i == 0 {
    } else {
        assert(l[0].0 != u);
        assert forall|j: int| 0 <= j < i - 1 implies (#[trigger] l.skip(1)[j].0) != u by {
            assert(l.skip(1)[j] == l[j + 1]);
        }
        assert(l.skip(1)[i - 1] == l[i]);
        lemma_get_at_index(l.skip(1), u, i - 1);
    }
}

/// If no entry is for `u`, `ledger_get` finds nothing.
pub proof fn lemma_get_absent(l: LedgerModel, u: Seq<char>)
    requires
        forall|j: int| 0 <= j < l.len() ==> (#[trigger] l[j].0) != u,
    ensures
        ledger_get(l, u) is None,
    decreases l.len(),
{
    if l.len() > 0 {
        assert forall|j: int| 0 <= j < l.skip(1).len() implies (#[trigger] l.skip(1)[j].0) != u by {
            assert(l.skip(1)[j] == l[j + 1]);
        }
        lemma_get_absent(l.skip(1), u);
    }
}

/// In a sorted ledger, updating in place at the index of `u` is `ledger_upsert`.
pub proof fn lemma_upsert_is_update(l: LedgerModel, u: Seq<char>, w: WalletModel, i: int)
    requires
        ledger_wf(l),
        0 <= i < l.len(),
        l[i].0 == u,
    ensures
        ledger_upsert(l, u, w) == l.update(i, (u, w)),
    decreases i,
{
    if i == 0 {
        assert(ledger_upsert(l, u, w) =~= l.update(0, (u, w)));
    } else {
        assert(lex_lt(l[0].0, l[i].0));
        assert(l[0].0 != u) by {
            if l[0].0 == u {
                lemma_lex_lt_irrefl(u);
            }
        }
        assert(!lex_lt(u, l[0].0)) by {
            if lex_lt(u, l[0].0) {
                lemma_lex_lt_trans(u, l[0].0, l[i].0);
                lemma_lex_lt_irrefl(u);
            }
        }
        lemma_skip_sorted(l);
        assert(l.skip(1)[i - 1] == l[i]);
        lemma_upsert_is_update(l.skip(1), u, w, i - 1);
        assert(ledger_upsert(l, u, w) =~= l.update(i, (u, w))) by {
            assert(ledger_upsert(l, u, w) == seq![l[0]] + ledger_upsert(l.skip(1), u, w));
            assert(ledger_upsert(l.skip(1), u, w) == l.skip(1).update(i - 1, (u, w)));
            assert forall|k: int| 0 <= k < l.len() implies (seq![l[0]] + l.skip(1).update(
                i - 1,
                (u, w),
            ))[k] == l.update(i, (u, w))[k] by {
                if k > 0 {
                    assert(l.skip(1).update(i - 1, (u, w))[k - 1] == (if k == i {
                        (u, w)
                    } else {
                        l.skip(1)[k - 1]
                    }));
                }
            }
        }
    }
}

/// In a sorted ledger, inserting at the first index whose user is above `u`
/// is `ledger_upsert`.
pub proof fn lemma_upsert_is_insert(l: LedgerModel, u: Seq<char>, w: WalletModel, i: int)
    requires
        ledger_wf(l),
        0 <= i <= l.len(),
        forall|j: int| 0 <= j < i ==> lex_lt(#[trigger] l[j].0, u),
        i < l.len() ==> lex_lt(u, l[i].0),
    ensures
        ledger_upsert(l, u, w) == l.insert(i, (u, w)),
    decreases i,
{
    if l.len() == 0 {
        assert(ledger_upsert(l, u, w) =~= l.insert(0, (u, w)));
    } else if i == 0 {
        assert(l[0].0 != u) by {
            if l[0].0 == u {
                lemma_lex_lt_irrefl(u);
            }
        }
        assert(ledger_upsert(l, u, w) =~= l.insert(0, (u, w)));
    } else {
        assert(lex_lt(l[0].0, u));
        assert(l[0].0 != u) by {
            if l[0].0 == u {
                lemma_lex_lt_irrefl(u);
            }
        }
        assert(!lex_lt(u, l[0].0)) by {
            if lex_lt(u, l[0].0) {
                lemma_lex_lt_trans(l[0].0, u, l[0].0);
                lemma_lex_lt_irrefl(l[0].0);
            }
        }
        lemma_skip_sorted(l);
        assert forall|j: int| 0 <= j < i - 1 implies lex_lt(#[trigger] l.skip(1)[j].0, u) by {
            assert(l.skip(1)[j] == l[j + 1]);
        }
        if i - 1 < l.skip(1).len() {
            assert(l.skip(1)[i - 1] == l[i]);
        }
        lemma_upsert_is_insert(l.skip(1), u, w, i - 1);
        assert(ledger_upsert(l, u, w) =~= l.insert(i, (u, w))) by {
            assert(ledger_upsert(l, u, w) == seq![l[0]] + l.skip(1).insert(i - 1, (u, w)));
            assert forall|k: int| 0 <= k < l.len() + 1 implies (seq![l[0]] + l.skip(1).insert(
                i - 1,
                (u, w),
            ))[k] == l.insert(i, (u, w))[k] by {
                if k > 0 {
                    if k < i {
                        assert(l.skip(1).insert(i - 1, (u, w))[k - 1] == l.skip(1)[k - 1]);
                    } else if k == i {
                        assert(l.skip(1).insert(i - 1, (u, w))[k - 1] == (u, w));
                    } else {
                        assert(l.skip(1).insert(i - 1, (u, w))[k - 1] == l.skip(1)[k - 2]);
                    }
                }
            }
        }
    }
}

// ---------------------------------------------------------------------------
// Spec-level transitions of the wallet mutators.
// ---------------------------------------------------------------------------

/// Effect of `transfer`: the sender pays `amount + fee`, the receiver is
/// created if absent and credited `amount`; the fee is burned here.
pub open spec fn spec_transfer(
    l: LedgerModel,
    sender: Seq<char>,
    receiver: Seq<char>,
    amount: u64,
    fee: u64,
) -> Result<LedgerModel, ErrKind> {
    match ledger_get(l, sender) {
        None => Err(ErrKind::UserNotFound),
        Some(s) => if s.balance < amount + fee {
            Err(ErrKind::InsufficientBalance)
        } else {
            let l1 = ledger_upsert(
                l,
                sender,
                WalletModel {
                    balance: (s.balance - amount - fee) as u64,
                    staked: s.staked,
                    pending: s.pending,
                },
            );
            Ok(
                match ledger_get(l1, receiver) {
                    None => ledger_upsert(
                        l1,
                        receiver,
                        WalletModel { balance: amount, staked: 0, pending: Seq::empty() },
                    ),
                    Some(r) => ledger_upsert(
                        l1,
                        receiver,
                        WalletModel {
                            balance: sat_add(r.balance, amount),
                            staked: r.staked,
                            pending: r.pending,
                        },
                    ),
                },
            )
        },
    }
}

/// Effect of `stake`: the user pays `amount + fee` from balance and `amount`
/// moves to stake.
pub open spec fn spec_stake(l: LedgerModel, user: Seq<char>, amount: u64, fee: u64) -> Result<
    LedgerModel,
    ErrKind,
> {
    match ledger_get(l, user) {
        None => Err(ErrKind::UserNotFound),
        Some(w) => if w.balance < amount + fee {
            Err(ErrKind::InsufficientBalance)
        } else {
            Ok(
                ledger_upsert(
                    l,
                    user,
                    WalletModel {
                        balance: (w.balance - amount - fee) as u64,
                        staked: sat_add(w.staked, amount),
                        pending: w.pending,
                    },
                ),
            )
        },
    }
}

/// Epoch at which an unstake requested at `block_height` becomes spendable.
pub open spec fn spec_unstake_epoch(block_height: int) -> int {
    block_height / (crate::config::EPOCH_HEIGHT as int) + 2
}

/// Effect of `unstake`: the user pays `fee`, `amount` leaves the stake and
/// queues as a pending withdrawal effective two epochs later.
pub open spec fn spec_unstake(
    l: LedgerModel,
    user: Seq<char>,
    block_height: int,
    amount: u64,
    fee: u64,
) -> Result<LedgerModel, ErrKind> {
    match ledger_get(l, user) {
        None => Err(ErrKind::UserNotFound),
        Some(w) => if w.staked < amount {
            Err(ErrKind::InsufficientStake)
        } else if w.balance < fee {
            Err(ErrKind::InsufficientFee)
        } else {
            Ok(
                ledger_upsert(
                    l,
                    user,
                    WalletModel {
                        balance: (w.balance - fee) as u64,
                        staked: (w.staked - amount) as u64,
                        pending: w.pending.push(
                            PendingUnstake {
                                amount,
                                effective_epoch: spec_unstake_epoch(block_height) as usize,
                            },
                        ),
                    },
                ),
            )
        },
    }
}

/// Pop pending withdrawals from the front while they are due at `epoch`,
/// crediting each back to balance.
pub open spec fn release_pending(w: WalletModel, epoch: int) -> WalletModel
    decreases w.pending.len(),
{
    if w.pending.len() > 0 && w.pending[0].effective_epoch <= epoch {
        release_pending(
            WalletModel {
                balance: sat_add(w.balance, w.pending[0].amount),
                staked: w.staked,
                pending: w.pending.skip(1),
            },
            epoch,
        )
    } else {
        w
    }
}

/// Effect of `return_stakes`: every wallet releases its due withdrawals.
pub open spec fn spec_return_stakes(l: LedgerModel, epoch: int) -> LedgerModel {
    Seq::new(l.len(), |i: int| (l[i].0, release_pending(l[i].1, epoch)))
}

/// Users with positive stake, with their stakes, in ledger order.
pub open spec fn stake_pool_of(l: LedgerModel) -> Seq<(Seq<char>, u64)>
    decreases l.len(),
{
    if l.len() == 0 {
        Seq::empty()
    } else {
        (if l[0].1.staked > 0 {
            seq![(l[0].0, l[0].1.staked)]
        } else {
            Seq::empty()
        }) + stake_pool_of(l.skip(1))
    }
}

/// Effect of `credit`: add `amount` to the user's balance, if present.
pub open spec fn spec_credit(l: LedgerModel, user: Seq<char>, amount: u64) -> LedgerModel {
    match ledger_get(l, user) {
        None => l,
        Some(w) => ledger_upsert(
            l,
            user,
            WalletModel { balance: sat_add(w.balance, amount), staked: w.staked, pending: w.pending },
        ),
    }
}

/// Effect of a guest-initiated transfer: no fee, zero amounts rejected, the
/// receiver created if absent; fails rather than overdraw the sender.
pub open spec fn spec_host_transfer(
    l: LedgerModel,
    from: Seq<char>,
    to: Seq<char>,
    amount: u64,
) -> Option<LedgerModel> {
    if amount == 0 {
        None
    } else {
        match ledger_get(l, from) {
            None => None,
            Some(f) => if f.balance < amount {
                None
            } else {
                let l1 = ledger_upsert(
                    l,
                    from,
                    WalletModel {
                        balance: (f.balance - amount) as u64,
                        staked: f.staked,
                        pending: f.pending,
                    },
                );
                Some(
                    match ledger_get(l1, to) {
                        None => ledger_upsert(
                            l1,
                            to,
                            WalletModel { balance: amount, staked: 0, pending: Seq::empty() },
                        ),
                        Some(t) => ledger_upsert(
                            l1,
                            to,
                            WalletModel {
                                balance: sat_add(t.balance, amount),
                                staked: t.staked,
                                pending: t.pending,
                            },
                        ),
                    },
                )
            },
        }
    }
}

// ---------------------------------------------------------------------------
// Executable ledger.
// ---------------------------------------------------------------------------

impl Wallets {
    /// Empty ledger.
    pub fn new() -> (w: Wallets)
        ensures
            w@ == Seq::<(Seq<char>, WalletModel)>::empty(),
            ledger_wf(w@),
    {
        let w = Wallets { wallets: Vec::new() };
        proof {
            assert(w@ =~= Seq::<(Seq<char>, WalletModel)>::empty());
        }
        w
    }

    /// Where `user` stands or would stand in the sorted entry vector:
    /// the index of its entry if `found`, else the insertion point.
    fn find_slot(&self, user: &str) -> (r: (usize, bool))
        requires
            ledger_wf(self@),
        ensures
            r.1 ==> r.0 < self@.len() && self@[r.0 as int].0 == user@ && ledger_get(self@, user@)
                == Some(self@[r.0 as int].1),
            !r.1 ==> r.0 <= self@.len() && ledger_get(self@, user@) is None && (forall|j: int|
                0 <= j < r.0 ==> lex_lt(#[trigger] self@[j].0, user@)) && (r.0 < self@.len()
                ==> lex_lt(user@, self@[r.0 as int].0)),
    {
        let n = self.wallets.len();
        let mut i: usize = 0;
        while i < n
            invariant
                i <= n,
                n == self@.len(),
                ledger_wf(self@),
                forall|j: int| 0 <= j < i ==> lex_lt(#[trigger] self@[j].0, user@),
            decreases n - i,
        {
            let entry_user: &str = self.wallets[i].user.as_str();
            if str_eq(entry_user, user) {
                proof {
                    assert forall|j: int| 0 <= j < i implies (#[trigger] self@[j].0) != user@ by {
                        if self@[j].0 == user@ {
                            lemma_lex_lt_irrefl(user@);
                        }
                    }
                    lemma_get_at_index(self@, user@, i as int);
                }
                return (i, true);
            }
            if !str_lex_lt(entry_user, user) {
                proof {
                    lemma_lex_lt_total(self@[i as int].0, user@);
                    assert(lex_lt(user@, self@[i as int].0));
                    assert forall|j: int| 0 <= j < self@.len() implies (#[trigger] self@[j].0)
                        != user@ by {
                        if j < i {
                            if self@[j].0 == user@ {
                                lemma_lex_lt_irrefl(user@);
                            }
                        } else if j == i {
                            if self@[j].0 == user@ {
                                lemma_lex_lt_irrefl(user@);
                            }
                        } else {
                            assert(lex_lt(self@[i as int].0, self@[j].0));
                            if self@[j].0 == user@ {
                                lemma_lex_lt_trans(user@, self@[i as int].0, self@[j].0);
                                lemma_lex_lt_irrefl(user@);
                            }
                        }
                    }
                    lemma_get_absent(self@, user@);
                }
                return (i, false);
            }
            i = i + 1;
        }
        proof {
            assert forall|j: int| 0 <= j < self@.len() implies (#[trigger] self@[j].0) != user@ by {
                if self@[j].0 == user@ {
                    lemma_lex_lt_irrefl(user@);
                }
            }
            lemma_get_absent(self@, user@);
        }
        (n, false)
    }

    /// Wallet of `user`, if present.
    pub fn get_wallet(&self, user: &str) -> (r: Option<&Wallet>)
        ensures
            (match r {
                Some(w) => ledger_get(self@, user@) == Some(w@),
                None => ledger_get(self@, user@) is None,
            }),
    {
        let n = self.wallets.len();
        let mut i: usize = 0;
        while i < n
            invariant
                i <= n,
                n == self@.len(),
                forall|j: int| 0 <= j < i ==> (#[trigger] self@[j].0) != user@,
            decreases n - i,
        {
            if str_eq(self.wallets[i].user.as_str(), user) {
                proof {
                    lemma_get_at_index(self@, user@, i as int);
                }
                return Some(&self.wallets[i].wallet);
            }
            i = i + 1;
        }
        proof {
            lemma_get_absent(self@, user@);
        }
        None
    }

    /// Replace the entry at `i` (same user) and relate it to `ledger_upsert`.
    fn set_entry(&mut self, i: usize, entry: WalletEntry)
        requires
            ledger_wf(old(self)@),
            i < old(self)@.len(),
            old(self)@[i as int].0 == entry.user@,
        ensures
            final(self)@ == ledger_upsert(old(self)@, entry.user@, entry.wallet@),
            ledger_wf(final(self)@),
    {
        let ghost l0 = self@;
        let ghost u = entry.user@;
        let ghost w = entry.wallet@;
        let _ = self.wallets.remove(i);
        self.wallets.insert(i, entry);
        proof {
            assert(self@ =~= l0.update(i as int, (u, w)));
            lemma_upsert_is_update(l0, u, w, i as int);
            lemma_upsert_wf(l0, u, w);
        }
    }

    /// Insert a fresh entry at slot `i` and relate it to `ledger_upsert`.
    fn insert_entry(&mut self, i: usize, entry: WalletEntry)
        requires
            ledger_wf(old(self)@),
            i <= old(self)@.len(),
            forall|j: int| 0 <= j < i ==> lex_lt(#[trigger] old(self)@[j].0, entry.user@),
            i < old(self)@.len() ==> lex_lt(entry.user@, old(self)@[i as int].0),
        ensures
            final(self)@ == ledger_upsert(old(self)@, entry.user@, entry.wallet@),
            ledger_wf(final(self)@),
    {
        let ghost l0 = self@;
        let ghost u = entry.user@;
        let ghost w = entry.wallet@;
        self.wallets.insert(i, entry);
        proof {
            assert(self@ =~= l0.insert(i as int, (u, w)));
            lemma_upsert_is_insert(l0, u, w, i as int);
            lemma_upsert_wf(l0, u, w);
        }
    }

    /// Create a wallet for `user` holding `balance`, or overwrite its wallet.
    pub fn insert_wallet(&mut self, user: &str, balance: u64)
        requires
            ledger_wf(old(self)@),
        ensures
            ledger_wf(final(self)@),
            final(self)@ == ledger_upsert(
                old(self)@,
                user@,
                WalletModel { balance, staked: 0, pending: Seq::empty() },
            ),
    {
        let (i, found) = self.find_slot(user);
        let entry = WalletEntry { user: user.to_owned(), wallet: Wallet::new(balance) };
        if found {
            self.set_entry(i, entry);
        } else {
            self.insert_entry(i, entry);
        }
    }

    /// Move `amount` from `sender` to `receiver` against a burned `fee`, all
    /// or nothing.
    pub fn transfer(&mut self, sender: &str, receiver: &str, amount: u64, fee: u64) -> (r: Result<
        (),
        BChainError,
    >)
        requires
            ledger_wf(old(self)@),
        ensures
            ledger_wf(final(self)@),
            (match spec_transfer(old(self)@, sender@, receiver@, amount, fee) {
                Ok(l2) => r is Ok && final(self)@ == l2,
                Err(k) => (r matches Err(e) && e.kind() == k) && final(self)@ == old(self)@,
            }),
    {
        let (si, sfound) = self.find_slot(sender);
        if !sfound {
            return Err(BChainError::UserNotFound(sender.to_owned()));
        }
        let mut entry = self.wallets.remove(si);
        let ghost l0 = old(self)@;
        if (entry.wallet.balance as u128) < (amount as u128) + (fee as u128) {
            self.wallets.insert(si, entry);
            proof {
                assert(self@ =~= l0);
            }
            return Err(BChainError::InsufficientBalance);
        }
        entry.wallet.balance = entry.wallet.balance - amount - fee;
        self.wallets.insert(si, entry);
        proof {
            assert(self@ =~= l0.update(si as int, (sender@, self@[si as int].1)));
            lemma_upsert_is_update(l0, sender@, self@[si as int].1, si as int);
            lemma_upsert_wf(l0, sender@, self@[si as int].1);
        }
        let ghost l1 = self@;
        let (ri, rfound) = self.find_slot(receiver);
        if rfound {
            let mut rentry = self.wallets.remove(ri);
            rentry.wallet.balance = sat_add_exec(rentry.wallet.balance, amount);
            self.wallets.insert(ri, rentry);
            proof {
                assert(self@ =~= l1.update(ri as int, (receiver@, self@[ri as int].1)));
                lemma_upsert_is_update(l1, receiver@, self@[ri as int].1, ri as int);
                lemma_upsert_wf(l1, receiver@, self@[ri as int].1);
            }
        } else {
            let rentry = WalletEntry { user: receiver.to_owned(), wallet: Wallet::new(amount) };
            self.insert_entry(ri, rentry);
        }
        Ok(())
    }

    /// Stake `amount` against a burned `fee`, all or nothing.
    pub fn stake(&mut self, user: &str, amount: u64, fee: u64) -> (r: Result<(), BChainError>)
        requires
            ledger_wf(old(self)@),
        ensures
            ledger_wf(final(self)@),
            (match spec_stake(old(self)@, user@, amount, fee) {
                Ok(l2) => r is Ok && final(self)@ == l2,
                Err(k) => (r matches Err(e) && e.kind() == k) && final(self)@ == old(self)@,
            }),
    {
        let (i, found) = self.find_slot(user);
        if !found {
            return Err(BChainError::UserNotFound(user.to_owned()));
        }
        let mut entry = self.wallets.remove(i);
        let ghost l0 = old(self)@;
        if (entry.wallet.balance as u128) < (amount as u128) + (fee as u128) {
            self.wallets.insert(i, entry);
            proof {
                assert(self@ =~= l0);
            }
            return Err(BChainError::InsufficientBalance);
        }
        entry.wallet.balance = entry.wallet.balance - amount - fee;
        entry.wallet.staked = sat_add_exec(entry.wallet.staked, amount);
        self.wallets.insert(i, entry);
        proof {
            assert(self@ =~= l0.update(i as int, (user@, self@[i as int].1)));
            lemma_upsert_is_update(l0, user@, self@[i as int].1, i as int);
            lemma_upsert_wf(l0, user@, self@[i as int].1);
        }
        Ok(())
    }

    /// Unstake `amount`, queueing its return two epochs after the epoch of
    /// `block_height`, against a `fee` paid from balance.
    pub fn unstake(&mut self, user: &str, block_height: usize, amount: u64, fee: u64) -> (r: Result<
        (),
        BChainError,
    >)
        requires
            ledger_wf(old(self)@),
        ensures
            ledger_wf(final(self)@),
            (match spec_unstake(old(self)@, user@, block_height as int, amount, fee) {
                Ok(l2) => r is Ok && final(self)@ == l2,
                Err(k) => (r matches Err(e) && e.kind() == k) && final(self)@ == old(self)@,
            }),
    {
        let unstake_epoch = crate::config::get_epoch(block_height) + 2;
        let (i, found) = self.find_slot(user);
        if !found {
            return Err(BChainError::UserNotFound(user.to_owned()));
        }
        let mut entry = self.wallets.remove(i);
        let ghost l0 = old(self)@;
        if entry.wallet.staked < amount {
            self.wallets.insert(i, entry);
            proof {
                assert(self@ =~= l0);
            }
            return Err(BChainError::InsufficientStake);
        }
        if entry.wallet.balance < fee {
            self.wallets.insert(i, entry);
            proof {
                assert(self@ =~= l0);
            }
            return Err(BChainError::InsufficientFee);
        }
        entry.wallet.balance = entry.wallet.balance - fee;
        entry.wallet.staked = entry.wallet.staked - amount;
        entry.wallet.pending_unstakes.push_back(
            PendingUnstake { amount, effective_epoch: unstake_epoch },
        );
        self.wallets.insert(i, entry);
        proof {
            assert(self@ =~= l0.update(i as int, (user@, self@[i as int].1)));
            lemma_upsert_is_update(l0, user@, self@[i as int].1, i as int);
            lemma_upsert_wf(l0, user@, self@[i as int].1);
        }
        Ok(())
    }

    /// Release every pending withdrawal that is due at `epoch`.
    pub fn return_stakes(&mut self, epoch: usize)
        requires
            ledger_wf(old(self)@),
        ensures
            ledger_wf(final(self)@),
            final(self)@ == spec_return_stakes(old(self)@, epoch as int),
    {
        let ghost l0 = old(self)@;
        let n = self.wallets.len();
        let mut i: usize = 0;
        while i < n
            invariant
                i <= n,
                n == self@.len(),
                n == l0.len(),
                forall|j: int|
                    i <= j < n ==> (#[trigger] self@[j]) == l0[j],
                forall|j: int|
                    0 <= j < i ==> (#[trigger] self@[j]) == (
                    l0[j].0,
                    release_pending(l0[j].1, epoch as int),
                ),
            decreases n - i,
        {
            let ghost l_before = self@;
            let mut entry = self.wallets.remove(i);
            let ghost w0 = entry.wallet@;
            while entry.wallet.pending_unstakes.len() > 0 && entry.wallet.pending_unstakes[0]
                .effective_epoch <= epoch
                invariant
                    i < n,
                    n == l_before.len(),
                    entry.user@ == l_before[i as int].0,
                    release_pending(w0, epoch as int) == release_pending(
                        entry.wallet@,
                        epoch as int,
                    ),
                decreases entry.wallet.pending_unstakes.len(),
            {
                let p = entry.wallet.pending_unstakes.pop_front();
                match p {
                    Some(pu) => {
                        entry.wallet.balance = sat_add_exec(entry.wallet.balance, pu.amount);
                    },
                    None => {
                        proof {
                            assert(false);
                        }
                    },
                }
            }
            self.wallets.insert(i, entry);
            proof {
                assert(self@ =~= l_before.update(i as int, (l0[i as int].0, entry.wallet@)));
            }
            i = i + 1;
        }
        proof {
            assert(self@ =~= spec_return_stakes(l0, epoch as int));
            assert forall|a: int, b: int| 0 <= a < b < self@.len() implies lex_lt(
                #[trigger] self@[a].0,
                #[trigger] self@[b].0,
            ) by {
                assert(self@[a].0 == l0[a].0);
                assert(self@[b].0 == l0[b].0);
            }
        }
    }

    /// Snapshot of users with positive stake, in ledger order.
    pub fn get_stake_pool(&self) -> (pool: Vec<(String, u64)>)
        ensures
            pool_view(pool@) == stake_pool_of(self@),
    {
        let mut pool: Vec<(String, u64)> = Vec::new();
        let n = self.wallets.len();
        let mut i: usize = 0;
        while i < n
            invariant
                i <= n,
                n == self@.len(),
                pool_view(pool@) == stake_pool_of(self@.take(i as int)),
            decreases n - i,
        {
            let ghost pv = pool_view(pool@);
            if self.wallets[i].wallet.staked > 0 {
                let user = self.wallets[i].user.clone();
                let staked = self.wallets[i].wallet.staked;
                pool.push((user, staked));
                proof {
                    assert(pool_view(pool@) =~= pv + seq![
                        (self@[i as int].0, self@[i as int].1.staked),
                    ]);
                }
            }
            proof {
                lemma_stake_pool_take(self@, i as int);
                assert(pool_view(pool@) =~= stake_pool_of(self@.take(i + 1)));
            }
            i = i + 1;
        }
        proof {
            assert(self@.take(i as int) =~= self@);
        }
        pool
    }

    /// Add `amount` to the balance of `user`, if present.
    pub fn credit(&mut self, user: &str, amount: u64) -> (ok: bool)
        requires
            ledger_wf(old(self)@),
        ensures
            ledger_wf(final(self)@),
            final(self)@ == spec_credit(old(self)@, user@, amount),
            ok == ledger_has(old(self)@, user@),
    {
        let (i, found) = self.find_slot(user);
        if !found {
            return false;
        }
        let mut entry = self.wallets.remove(i);
        let ghost l0 = old(self)@;
        entry.wallet.balance = sat_add_exec(entry.wallet.balance, amount);
        self.wallets.insert(i, entry);
        proof {
            assert(self@ =~= l0.update(i as int, (user@, self@[i as int].1)));
            lemma_upsert_is_update(l0, user@, self@[i as int].1, i as int);
            lemma_upsert_wf(l0, user@, self@[i as int].1);
        }
        true
    }

    /// Guest-initiated transfer: no fee, zero amounts and overdrafts rejected.
    pub fn host_transfer(&mut self, from: &str, to: &str, amount: u64) -> (ok: bool)
        requires
            ledger_wf(old(self)@),
        ensures
            ledger_wf(final(self)@),
            (match spec_host_transfer(old(self)@, from@, to@, amount) {
                Some(l2) => ok && final(self)@ == l2,
                None => !ok && final(self)@ == old(self)@,
            }),
    {
        if amount == 0 {
            return false;
        }
        let (fi, ffound) = self.find_slot(from);
        if !ffound {
            return false;
        }
        let mut entry = self.wallets.remove(fi);
        let ghost l0 = old(self)@;
        if entry.wallet.balance < amount {
            self.wallets.insert(fi, entry);
            proof {
                assert(self@ =~= l0);
            }
            return false;
        }
        entry.wallet.balance = entry.wallet.balance - amount;
        self.wallets.insert(fi, entry);
        proof {
            assert(self@ =~= l0.update(fi as int, (from@, self@[fi as int].1)));
            lemma_upsert_is_update(l0, from@, self@[fi as int].1, fi as int);
            lemma_upsert_wf(l0, from@, self@[fi as int].1);
        }
        let ghost l1 = self@;
        let (ti, tfound) = self.find_slot(to);
        if tfound {
            let mut tentry = self.wallets.remove(ti);
            tentry.wallet.balance = sat_add_exec(tentry.wallet.balance, amount);
            self.wallets.insert(ti, tentry);
            proof {
                assert(self@ =~= l1.update(ti as int, (to@, self@[ti as int].1)));
                lemma_upsert_is_update(l1, to@, self@[ti as int].1, ti as int);
                lemma_upsert_wf(l1, to@, self@[ti as int].1);
            }
        } else {
            let tentry = WalletEntry { user: to.to_owned(), wallet: Wallet::new(amount) };
            self.insert_entry(ti, tentry);
        }
        true
    }

    /// Debit `fee` from the balance of `user`, all or nothing.
    pub fn charge_fee(&mut self, user: &str, fee: u64) -> (r: Result<(), BChainError>)
        requires
            ledger_wf(old(self)@),
        ensures
            ledger_wf(final(self)@),
            (match ledger_get(old(self)@, user@) {
                None => (r matches Err(e) && e.kind() == ErrKind::UserNotFound) && final(self)@
                    == old(self)@,
                Some(w) => if w.balance < fee {
                    (r matches Err(e) && e.kind() == ErrKind::InsufficientFee) && final(self)@
                        == old(self)@
                } else {
                    r is Ok && final(self)@ == ledger_upsert(
                        old(self)@,
                        user@,
                        WalletModel {
                            balance: (w.balance - fee) as u64,
                            staked: w.staked,
                            pending: w.pending,
                        },
                    )
                },
            }),
    {
        let (i, found) = self.find_slot(user);
        if !found {
            return Err(BChainError::UserNotFound(user.to_owned()));
        }
        let mut entry = self.wallets.remove(i);
        let ghost l0 = old(self)@;
        if entry.wallet.balance < fee {
            self.wallets.insert(i, entry);
            proof {
                assert(self@ =~= l0);
            }
            return Err(BChainError::InsufficientFee);
        }
        entry.wallet.balance = entry.wallet.balance - fee;
        self.wallets.insert(i, entry);
        proof {
            assert(self@ =~= l0.update(i as int, (user@, self@[i as int].1)));
            lemma_upsert_is_update(l0, user@, self@[i as int].1, i as int);
            lemma_upsert_wf(l0, user@, self@[i as int].1);
        }
        Ok(())
    }

    /// Number of wallets in the ledger.
    pub fn len(&self) -> (n: usize)
        ensures
            n == self@.len(),
    {
        self.wallets.len()
    }

    /// Entry at index `i`, in ledger order.
    pub fn entry_at(&self, i: usize) -> (r: (&String, &Wallet))
        requires
            i < self@.len(),
        ensures
            r.0@ == self@[i as int].0,
            r.1@ == self@[i as int].1,
    {
        (&self.wallets[i].user, &self.wallets[i].wallet)
    }
}

/// View of a stake-pool vector as a sequence of (user, stake) pairs.
pub open spec fn pool_view(v: Seq<(String, u64)>) -> Seq<(Seq<char>, u64)> {
    Seq::new(v.len(), |i: int| (v[i].0@, v[i].1))
}

/// Peeling one entry off the front of the ledger extends its stake pool.
proof fn lemma_stake_pool_take(l: LedgerModel, i: int)
    requires
        0 <= i < l.len(),
    ensures
        stake_pool_of(l.take(i + 1)) == stake_pool_of(l.take(i)) + (if l[i].1.staked > 0 {
            seq![(l[i].0, l[i].1.staked)]
        } else {
            Seq::<(Seq<char>, u64)>::empty()
        }),
    decreases i,
{
    if i == 0 {
        assert(l.take(1).len() == 1);
        assert(l.take(1)[0] == l[0]);
        assert(l.take(1).skip(1) =~= Seq::<(Seq<char>, WalletModel)>::empty());
        assert(l.take(0) =~= Seq::<(Seq<char>, WalletModel)>::empty());
        assert(stake_pool_of(l.take(1)) =~= stake_pool_of(l.take(0)) + (if l[0].1.staked > 0 {
            seq![(l[0].0, l[0].1.staked)]
        } else {
            Seq::<(Seq<char>, u64)>::empty()
        }));
    } else {
        lemma_stake_pool_take(l.skip(1), i - 1);
        assert(l.take(i).skip(1) =~= l.skip(1).take(i - 1));
        assert(l.take(i + 1).skip(1) =~= l.skip(1).take(i));
        assert(l.take(i)[0] == l[0]);
        assert(l.take(i + 1)[0] == l[0]);
        assert(l.skip(1)[i - 1] == l[i]);
        assert(stake_pool_of(l.take(i + 1)) =~= stake_pool_of(l.take(i)) + (if l[i].1.staked > 0 {
            seq![(l[i].0, l[i].1.staked)]
        } else {
            Seq::<(Seq<char>, u64)>::empty()
        }));
    }
}

/// Returning stakes releases due withdrawals wallet by wallet: each user
/// keeps a wallet, with its due prefix credited.
pub proof fn lemma_return_stakes_get(l: LedgerModel, epoch: int, u: Seq<char>)
    ensures
        ledger_get(spec_return_stakes(l, epoch), u) == (match ledger_get(l, u) {
            None => None::<WalletModel>,
            Some(w) => Some(release_pending(w, epoch)),
        }),
    decreases l.len(),
{
    let r = spec_return_stakes(l, epoch);
    if l.len() == 0 {
    } else {
        assert(r[0] == (l[0].0, release_pending(l[0].1, epoch)));
        assert(r.skip(1) =~= spec_return_stakes(l.skip(1), epoch));
        lemma_return_stakes_get(l.skip(1), epoch, u);
    }
}

/// Every member of the stake pool has a wallet in the ledger.
pub proof fn lemma_stake_pool_member_has(l: LedgerModel, k: int)
    requires
        0 <= k < stake_pool_of(l).len(),
    ensures
        ledger_has(l, stake_pool_of(l)[k].0),
    decreases l.len(),
{
    let pool = stake_pool_of(l);
    if l.len() == 0 {
    } else if l[0].1.staked > 0 {
        if k == 0 {
            assert(pool[0].0 == l[0].0);
        } else {
            assert(pool[k] == stake_pool_of(l.skip(1))[k - 1]);
            lemma_stake_pool_member_has(l.skip(1), k - 1);
        }
    } else {
        assert(pool =~= stake_pool_of(l.skip(1)));
        lemma_stake_pool_member_has(l.skip(1), k);
    }
}

/// Returning stakes releases only due withdrawals: whatever is popped from
/// the queue was effective at or before `epoch`, and the rest of the queue
/// survives unchanged, so a withdrawal is never credited early.
pub proof fn lemma_release_only_due(w: WalletModel, epoch: int)
    ensures
        exists|k: int|
            0 <= k <= w.pending.len() && release_pending(w, epoch).pending == w.pending.skip(k)
                && (forall|j: int| 0 <= j < k ==> (#[trigger] w.pending[j]).effective_epoch <= epoch),
    decreases w.pending.len(),
{
    if w.pending.len() > 0 && w.pending[0].effective_epoch <= epoch {
        let w1 = WalletModel {
            balance: sat_add(w.balance, w.pending[0].amount),
            staked: w.staked,
            pending: w.pending.skip(1),
        };
        lemma_release_only_due(w1, epoch);
        let k1 = choose|k1: int|
            0 <= k1 <= w1.pending.len() && release_pending(w1, epoch).pending == w1.pending.skip(k1)
                && (forall|j: int|
                0 <= j < k1 ==> (#[trigger] w1.pending[j]).effective_epoch <= epoch);
        assert(w.pending.skip(1).skip(k1) =~= w.pending.skip(k1 + 1));
        assert forall|j: int| 0 <= j < k1 + 1 implies (#[trigger] w.pending[j]).effective_epoch
            <= epoch by {
            if j > 0 {
                assert(w.pending[j] == w1.pending[j - 1]);
            }
        }
        assert(0 <= k1 + 1 <= w.pending.len() && release_pending(w, epoch).pending
            == w.pending.skip(k1 + 1) && (forall|j: int|
            0 <= j < k1 + 1 ==> (#[trigger] w.pending[j]).effective_epoch <= epoch));
    } else {
        assert(w.pending.skip(0) =~= w.pending);
        assert(0 <= 0 <= w.pending.len() && release_pending(w, epoch).pending == w.pending.skip(0)
            && (forall|j: int| 0 <= j < 0 ==> (#[trigger] w.pending[j]).effective_epoch <= epoch));
    }
}

/// Crediting a user keeps exactly the users the ledger had.
pub proof fn lemma_credit_has(l: LedgerModel, u: Seq<char>, amount: u64, v: Seq<char>)
    ensures
        ledger_has(spec_credit(l, u, amount), v) == ledger_has(l, v),
{
    match ledger_get(l, u) {
        None => {},
        Some(w) => {
            lemma_upsert_get(
                l,
                u,
                WalletModel {
                    balance: sat_add(w.balance, amount),
                    staked: w.staked,
                    pending: w.pending,
                },
                v,
            );
        },
    }
}

/// Whether every user with a wallet in `l0` still has one in `l1`.
pub open spec fn preserves_users(l0: LedgerModel, l1: LedgerModel) -> bool {
    forall|v: Seq<char>| #[trigger] ledger_has(l0, v) ==> ledger_has(l1, v)
}

/// An upsert never removes a user.
pub proof fn lemma_upsert_preserves_users(l: LedgerModel, u: Seq<char>, w: WalletModel)
    ensures
        preserves_users(l, ledger_upsert(l, u, w)),
{
    assert forall|v: Seq<char>| #[trigger] ledger_has(l, v) implies ledger_has(
        ledger_upsert(l, u, w),
        v,
    ) by {
        lemma_upsert_get(l, u, w, v);
    }
}

/// A successful transfer never removes a user.
pub proof fn lemma_transfer_preserves_users(
    l: LedgerModel,
    sender: Seq<char>,
    receiver: Seq<char>,
    amount: u64,
    fee: u64,
)
    requires
        spec_transfer(l, sender, receiver, amount, fee) is Ok,
    ensures
        preserves_users(l, spec_transfer(l, sender, receiver, amount, fee).unwrap()),
{
    let w = ledger_get(l, sender).unwrap();
    let l1 = ledger_upsert(
        l,
        sender,
        WalletModel {
            balance: (w.balance - amount - fee) as u64,
            staked: w.staked,
            pending: w.pending,
        },
    );
    lemma_upsert_preserves_users(
        l,
        sender,
        WalletModel {
            balance: (w.balance - amount - fee) as u64,
            staked: w.staked,
            pending: w.pending,
        },
    );
    match ledger_get(l1, receiver) {
        None => {
            lemma_upsert_preserves_users(
                l1,
                receiver,
                WalletModel { balance: amount, staked: 0, pending: Seq::empty() },
            );
        },
        Some(r) => {
            lemma_upsert_preserves_users(
                l1,
                receiver,
                WalletModel {
                    balance: sat_add(r.balance, amount),
                    staked: r.staked,
                    pending: r.pending,
                },
            );
        },
    }
}

/// A successful stake never removes a user.
pub proof fn lemma_stake_preserves_users(l: LedgerModel, user: Seq<char>, amount: u64, fee: u64)
    requires
        spec_stake(l, user, amount, fee) is Ok,
    ensures
        preserves_users(l, spec_stake(l, user, amount, fee).unwrap()),
{
    let w = ledger_get(l, user).unwrap();
    lemma_upsert_preserves_users(
        l,
        user,
        WalletModel {
            balance: (w.balance - amount - fee) as u64,
            staked: sat_add(w.staked, amount),
            pending: w.pending,
        },
    );
}

/// A successful unstake never removes a user.
pub proof fn lemma_unstake_preserves_users(
    l: LedgerModel,
    user: Seq<char>,
    block_height: int,
    amount: u64,
    fee: u64,
)
    requires
        spec_unstake(l, user, block_height, amount, fee) is Ok,
    ensures
        preserves_users(l, spec_unstake(l, user, block_height, amount, fee).unwrap()),
{
    let w = ledger_get(l, user).unwrap();
    lemma_upsert_preserves_users(
        l,
        user,
        WalletModel {
            balance: (w.balance - fee) as u64,
            staked: (w.staked - amount) as u64,
            pending: w.pending.push(
                PendingUnstake {
                    amount,
                    effective_epoch: spec_unstake_epoch(block_height) as usize,
                },
            ),
        },
    );
}

/// A credit never removes a user.
pub proof fn lemma_credit_preserves_users(l: LedgerModel, u: Seq<char>, amount: u64)
    ensures
        preserves_users(l, spec_credit(l, u, amount)),
{
    assert forall|v: Seq<char>| #[trigger] ledger_has(l, v) implies ledger_has(
        spec_credit(l, u, amount),
        v,
    ) by {
        lemma_credit_has(l, u, amount, v);
    }
}

/// A successful guest transfer never removes a user.
pub proof fn lemma_host_transfer_preserves_users(
    l: LedgerModel,
    from: Seq<char>,
    to: Seq<char>,
    amount: u64,
)
    requires
        spec_host_transfer(l, from, to, amount) is Some,
    ensures
        preserves_users(l, spec_host_transfer(l, from, to, amount).unwrap()),
{
    let f = ledger_get(l, from).unwrap();
    let l1 = ledger_upsert(
        l,
        from,
        WalletModel { balance: (f.balance - amount) as u64, staked: f.staked, pending: f.pending },
    );
    lemma_upsert_preserves_users(
        l,
        from,
        WalletModel { balance: (f.balance - amount) as u64, staked: f.staked, pending: f.pending },
    );
    match ledger_get(l1, to) {
        None => {
            lemma_upsert_preserves_users(
                l1,
                to,
                WalletModel { balance: amount, staked: 0, pending: Seq::empty() },
            );
        },
        Some(t) => {
            lemma_upsert_preserves_users(
                l1,
                to,
                WalletModel {
                    balance: sat_add(t.balance, amount),
                    staked: t.staked,
                    pending: t.pending,
                },
            );
        },
    }
}

// ---------------------------------------------------------------------------
// The ledger as an unordered mapping.
// ---------------------------------------------------------------------------

/// Contents of the ledger as a mapping from user to wallet.
pub open spec fn ledger_map_of(l: LedgerModel) -> Map<Seq<char>, WalletModel>
    decreases l.len(),
{
    if l.len() == 0 {
        Map::empty()
    } else {
        ledger_map_of(l.drop_last()).insert(l.last().0, l.last().1)
    }
}

/// A user is in the mapping exactly when some entry is theirs.
pub proof fn lemma_ledger_map_dom(l: LedgerModel, u: Seq<char>)
    ensures
        ledger_map_of(l).contains_key(u) <==> exists|i: int| 0 <= i < l.len() && (#[trigger] l[i]).0
            == u,
    decreases l.len(),
{
    if l.len() > 0 {
        lemma_ledger_map_dom(l.drop_last(), u);
        if ledger_map_of(l).contains_key(u) {
            if u == l.last().0 {
                assert(l[l.len() - 1].0 == u);
            } else {
                let i = choose|i: int| 0 <= i < l.drop_last().len() && (#[trigger] l.drop_last()[
                    i]).0 == u;
                assert(l[i].0 == u);
            }
        }
        if exists|i: int| 0 <= i < l.len() && (#[trigger] l[i]).0 == u {
            let i = choose|i: int| 0 <= i < l.len() && (#[trigger] l[i]).0 == u;
            if i < l.len() - 1 {
                assert(l.drop_last()[i].0 == u);
            }
        }
    }
}

/// Two sorted ledgers with the same mapping are the same sequence.
pub proof fn lemma_wf_ledger_map_injective(l1: LedgerModel, l2: LedgerModel)
    requires
        ledger_wf(l1),
        ledger_wf(l2),
        ledger_map_of(l1) == ledger_map_of(l2),
    ensures
        l1 == l2,
    decreases l1.len(),
{
    let m1 = ledger_map_of(l1);
    let m2 = ledger_map_of(l2);
    if l1.len() == 0 {
        if l2.len() > 0 {
            assert(m2.contains_key(l2.last().0));
            lemma_ledger_map_dom(l1, l2.last().0);
        }
        assert(l1 =~= l2);
    } else if l2.len() == 0 {
        assert(m1.contains_key(l1.last().0));
        lemma_ledger_map_dom(l2, l1.last().0);
    } else {
        let k1 = l1.last().0;
        let k2 = l2.last().0;
        assert(m1.contains_key(k1));
        assert(m2.contains_key(k2));
        // The last key of a sorted ledger is its greatest key, so the two
        // last keys agree.
        assert(k1 == k2) by {
            if k1 != k2 {
                lemma_ledger_map_dom(l2, k1);
                let i = choose|i: int| 0 <= i < l2.len() && (#[trigger] l2[i]).0 == k1;
                assert(i < l2.len() - 1);
                assert(lex_lt(k1, k2));
                lemma_ledger_map_dom(l1, k2);
                let j = choose|j: int| 0 <= j < l1.len() && (#[trigger] l1[j]).0 == k2;
                if j == l1.len() - 1 {
                    lemma_lex_lt_irrefl(k1);
                } else {
                    assert(lex_lt(k2, k1));
                    lemma_lex_lt_trans(k1, k2, k1);
                    lemma_lex_lt_irrefl(k1);
                }
            }
        }
        // Last keys do not occur earlier, so dropping them removes exactly
        // that key from the mapping.
        assert(!ledger_map_of(l1.drop_last()).contains_key(k1)) by {
            lemma_ledger_map_dom(l1.drop_last(), k1);
            if exists|i: int| 0 <= i < l1.drop_last().len() && (#[trigger] l1.drop_last()[i]).0
                == k1 {
                let i = choose|i: int| 0 <= i < l1.drop_last().len() && (#[trigger] l1.drop_last()[
                    i]).0 == k1;
                assert(l1[i].0 == k1);
                assert(lex_lt(l1[i].0, k1));
                lemma_lex_lt_irrefl(k1);
            }
        }
        assert(!ledger_map_of(l2.drop_last()).contains_key(k2)) by {
            lemma_ledger_map_dom(l2.drop_last(), k2);
            if exists|i: int| 0 <= i < l2.drop_last().len() && (#[trigger] l2.drop_last()[i]).0
                == k2 {
                let i = choose|i: int| 0 <= i < l2.drop_last().len() && (#[trigger] l2.drop_last()[
                    i]).0 == k2;
                assert(l2[i].0 == k2);
                assert(lex_lt(l2[i].0, k2));
                lemma_lex_lt_irrefl(k2);
            }
        }
        assert(l1.last().1 == m1[k1]);
        assert(l2.last().1 == m2[k2]);
        assert(ledger_map_of(l1.drop_last()) =~= ledger_map_of(l2.drop_last())) by {
            assert(ledger_map_of(l1.drop_last()) =~= m1.remove(k1));
            assert(ledger_map_of(l2.drop_last()) =~= m2.remove(k2));
        }
        assert(ledger_wf(l1.drop_last())) by {
            assert forall|i: int, j: int| 0 <= i < j < l1.drop_last().len() implies lex_lt(
                #[trigger] l1.drop_last()[i].0,
                #[trigger] l1.drop_last()[j].0,
            ) by {
                assert(l1.drop_last()[i] == l1[i]);
                assert(l1.drop_last()[j] == l1[j]);
            }
        }
        assert(ledger_wf(l2.drop_last())) by {
            assert forall|i: int, j: int| 0 <= i < j < l2.drop_last().len() implies lex_lt(
                #[trigger] l2.drop_last()[i].0,
                #[trigger] l2.drop_last()[j].0,
            ) by {
                assert(l2.drop_last()[i] == l2[i]);
                assert(l2.drop_last()[j] == l2[j]);
            }
        }
        lemma_wf_ledger_map_injective(l1.drop_last(), l2.drop_last());
        assert(l1 =~= l2) by {
            assert(l1 == l1.drop_last().push(l1.last()));
            assert(l2 == l2.drop_last().push(l2.last()));
        }
    }
}

} // verus!
