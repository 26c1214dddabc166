use vstd::prelude::*;

verus! {

/// Number of blocks in one epoch; also the length of each validator schedule.
pub const EPOCH_HEIGHT: usize = 10;

/// Smallest fraction of a coin that the ledger accounts for.  All amounts are
/// integers counted in these units, so one coin is `COIN` units.
pub const COIN: u64 = 100_000;

/// Initial supply carried by the genesis transfer, in units.
pub const BLOCK_CHAIN_WORTH: u64 = 1000 * COIN;

/// Per-epoch validator reward is `staked / REWARD_RATE_DENOM`, one unit per
/// coin staked (a rate of 0.00001 per epoch).
pub const REWARD_RATE_DENOM: u64 = 100_000;

/// User id of the synthetic origin account.
pub const GENESIS: &'static str = "Genesis";

/// Epoch in which a block at the given height lies.
pub fn get_epoch(block_height: usize) -> (epoch: usize)
    ensures
        epoch == block_height as int / EPOCH_HEIGHT as int,
{
    block_height / EPOCH_HEIGHT
}

/// Index of the block whose hash seeds the validator schedule of `epoch`:
/// the last block of the epoch before the previous one, or 0 for the first
/// two epochs, which are seeded by a constant instead.
pub fn get_validators_consensus_block(epoch: usize) -> (idx: usize)
    requires
        epoch as int <= usize::MAX as int / EPOCH_HEIGHT as int,
    ensures
        idx == spec_consensus_block(epoch as int),
{
    if epoch < 2 {
        0
    } else {
        (epoch - 1) * EPOCH_HEIGHT - 1
    }
}

/// Block index seeding the schedule of `epoch` (0 for the first two epochs).
pub open spec fn spec_consensus_block(epoch: int) -> int {
    if epoch < 2 {
        0
    } else {
        (epoch - 1) * EPOCH_HEIGHT - 1
    }
}

} // verus!
