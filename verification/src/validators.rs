use vstd::prelude::*;
use crate::config;
use crate::hashing::{sha_lead_u64, sha256_lead_u64};
use crate::text::dec_str;
use crate::text::strs_view;
use crate::text::push_dec;
use crate::wallets::pool_view;

verus! {

/// Total stake of a pool snapshot.
pub open spec fn total_stake_of(pool: Seq<(Seq<char>, u64)>) -> int
    decreases pool.len(),
{
    if pool.len() == 0 {
        0
    } else {
        total_stake_of(pool.drop_last()) + pool.last().1
    }
}

/// Walk the pool accumulating stakes and pick the first user whose
/// cumulative stake reaches the point; the origin account if none does.
pub open spec fn select_by_point(pool: Seq<(Seq<char>, u64)>, point: int) -> Seq<char>
    decreases pool.len(),
{
    if pool.len() == 0 {
        config::GENESIS@
    } else if pool[0].1 >= point {
        pool[0].0
    } else {
        select_by_point(pool.skip(1), point - pool[0].1)
    }
}

/// Hashing input for one slot: the epoch seed followed by the slot number.
pub open spec fn slot_seed_str(seed: Seq<char>, slot: int) -> Seq<char> {
    seed + dec_str(slot)
}

/// Validator assigned to `slot` by the stake-weighted draw: the slot seed is
/// hashed to a point modulo the total stake; with no stake at all, the
/// origin account takes the slot.
pub open spec fn slot_validator(pool: Seq<(Seq<char>, u64)>, seed: Seq<char>, slot: int) -> Seq<
    char,
> {
    let total = total_stake_of(pool);
    if total == 0 {
        config::GENESIS@
    } else {
        select_by_point(pool, sha_lead_u64(slot_seed_str(seed, slot)) % total)
    }
}

proof fn lemma_total_stake_bound(pool: Seq<(Seq<char>, u64)>)
    ensures
        0 <= total_stake_of(pool) <= pool.len() * (u64::MAX as int),
    decreases pool.len(),
{
    if pool.len() > 0 {
        lemma_total_stake_bound(pool.drop_last());
        assert((pool.len() - 1) * (u64::MAX as int) + (u64::MAX as int) == pool.len() * (
        u64::MAX as int)) by (nonlinear_arith);
    }
}

/// The two-epoch validator schedule: one slot list for the running epoch and
/// one already drawn for the next.
#[derive(Debug)]
pub struct TwoEpochValidators {
    current_epoch_validators: Vec<String>,
    next_epoch_validators: Vec<String>,
}

impl TwoEpochValidators {
    /// Slots of the running epoch.
    pub closed spec fn current(&self) -> Seq<Seq<char>> {
        strs_view(self.current_epoch_validators@)
    }

    /// Slots drawn for the next epoch.
    pub closed spec fn next(&self) -> Seq<Seq<char>> {
        strs_view(self.next_epoch_validators@)
    }

    /// Both schedules hold one user per slot of an epoch.
    pub open spec fn wf(&self) -> bool {
        &&& self.current().len() == config::EPOCH_HEIGHT
        &&& self.next().len() == config::EPOCH_HEIGHT
    }

    /// Fresh schedule: every slot of both epochs is the origin account.
    pub fn new(validators_per_epoch: usize) -> (v: TwoEpochValidators)
        ensures
            v.current().len() == validators_per_epoch,
            v.next().len() == validators_per_epoch,
            forall|i: int|
                0 <= i < validators_per_epoch ==> #[trigger] v.current()[i] == config::GENESIS@,
            forall|i: int|
                0 <= i < validators_per_epoch ==> #[trigger] v.next()[i] == config::GENESIS@,
    {
        let current: Vec<String> = vec![config::GENESIS.to_owned(); validators_per_epoch];
        let next: Vec<String> = vec![config::GENESIS.to_owned(); validators_per_epoch];
        TwoEpochValidators { current_epoch_validators: current, next_epoch_validators: next }
    }

    /// Slots of the running epoch, for reward payout and slot lookup.
    pub fn get_current_epoch_validators(&self) -> (r: &Vec<String>)
        ensures
            strs_view(r@) == self.current(),
    {
        &self.current_epoch_validators
    }

    /// Rotate at an epoch boundary: the next schedule becomes current, and a
    /// fresh next schedule is drawn from the stake pool under `seed`.
    pub fn update_validators(&mut self, stake_pool: &Vec<(String, u64)>, seed: String)
        ensures
            final(self).current() == old(self).next(),
            final(self).next().len() == old(self).current().len(),
            forall|i: int|
                0 <= i < final(self).next().len() ==> #[trigger] final(self).next()[i]
                    == slot_validator(pool_view(stake_pool@), seed@, i),
    {
        core::mem::swap(&mut self.current_epoch_validators, &mut self.next_epoch_validators);
        let n = self.next_epoch_validators.len();
        let mut fresh: Vec<String> = Vec::new();
        let mut slot: usize = 0;
        while slot < n
            invariant
                slot <= n,
                fresh@.len() == slot,
                forall|i: int|
                    0 <= i < slot ==> #[trigger] fresh@[i]@ == slot_validator(
                        pool_view(stake_pool@),
                        seed@,
                        i,
                    ),
            decreases n - slot,
        {
            let user = Self::get_validator_for_slots(stake_pool, &seed, slot);
            fresh.push(user);
            slot = slot + 1;
        }
        self.next_epoch_validators = fresh;
        proof {
            assert(final(self).current() =~= old(self).next());
        }
    }

    /// Draw the validator of one slot from the stake pool.
    fn get_validator_for_slots(stake_pool: &Vec<(String, u64)>, seed: &String, slot: usize) -> (r:
        String)
        ensures
            r@ == slot_validator(pool_view(stake_pool@), seed@, slot as int),
    {
        let ghost pv = pool_view(stake_pool@);
        let n = stake_pool.len();
        let mut total: u128 = 0;
        let mut i: usize = 0;
        while i < n
            invariant
                i <= n,
                n == pv.len(),
                n == stake_pool@.len(),
                pv == pool_view(stake_pool@),
                total as int == total_stake_of(pv.take(i as int)),
                total as int <= i * (u64::MAX as int),
            decreases n - i,
        {
            proof {
                assert(pv.take(i + 1).drop_last() =~= pv.take(i as int));
                assert(pv.take(i + 1).last() == pv[i as int]);
                assert(i * (u64::MAX as int) + (u64::MAX as int) == (i + 1) * (u64::MAX as int))
                    by (nonlinear_arith);
                assert((usize::MAX as int) * (u64::MAX as int) + (u64::MAX as int) <= u128::MAX
                    as int) by (nonlinear_arith);
                assert(i * (u64::MAX as int) <= (usize::MAX as int) * (u64::MAX as int))
                    by (nonlinear_arith)
                    requires
                        0 <= i <= usize::MAX as int,
                ;
            }
            total = total + (stake_pool[i].1 as u128);
            i = i + 1;
        }
        proof {
            assert(pv.take(i as int) =~= pv);
        }
        if total == 0 {
            return config::GENESIS.to_owned();
        }
        let mut slot_seed = seed.clone();
        push_dec(&mut slot_seed, slot as u64);
        let h = sha256_lead_u64(slot_seed.as_str());
        let point = (h as u128) % total;
        proof {
            assert(slot_seed@ == slot_seed_str(seed@, slot as int));
            assert(point as int == sha_lead_u64(slot_seed_str(seed@, slot as int)) % total_stake_of(
                pv,
            ));
        }
        let mut remaining = point;
        let mut k: usize = 0;
        proof {
            assert(pv.skip(0) =~= pv);
        }
        while k < n
            invariant
                k <= n,
                n == pv.len(),
                n == stake_pool@.len(),
                pv == pool_view(stake_pool@),
                total_stake_of(pv) != 0,
                point as int == sha_lead_u64(slot_seed_str(seed@, slot as int)) % total_stake_of(
                    pv,
                ),
                select_by_point(pv, point as int) == select_by_point(
                    pv.skip(k as int),
                    remaining as int,
                ),
            decreases n - k,
        {
            if (stake_pool[k].1 as u128) >= remaining {
                let user = stake_pool[k].0.clone();
                proof {
                    assert(pv.skip(k as int)[0] == pv[k as int]);
                }
                return user;
            }
            proof {
                assert(pv.skip(k as int)[0] == pv[k as int]);
                assert(pv.skip(k as int).skip(1) =~= pv.skip(k + 1));
            }
            remaining = remaining - (stake_pool[k].1 as u128);
            k = k + 1;
        }
        proof {
            assert(pv.skip(k as int) =~= Seq::<(Seq<char>, u64)>::empty());
        }
        config::GENESIS.to_owned()
    }
}

/// The drawn validator is the origin account or a member of the pool.
pub proof fn lemma_select_member(pool: Seq<(Seq<char>, u64)>, point: int)
    ensures
        select_by_point(pool, point) == config::GENESIS@ || exists|k: int|
            0 <= k < pool.len() && select_by_point(pool, point) == #[trigger] pool[k].0,
    decreases pool.len(),
{
    if pool.len() == 0 {
    } else if pool[0].1 >= point {
        assert(select_by_point(pool, point) == pool[0].0);
    } else {
        lemma_select_member(pool.skip(1), point - pool[0].1);
        let r = select_by_point(pool, point);
        if r != config::GENESIS@ {
            let k = choose|k: int|
                0 <= k < pool.skip(1).len() && select_by_point(pool.skip(1), point - pool[0].1)
                    == pool.skip(1)[k].0;
            assert(pool.skip(1)[k] == pool[k + 1]);
            assert(r == pool[k + 1].0);
        }
    }
}

} // verus!
