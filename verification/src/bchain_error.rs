use vstd::prelude::*;

verus! {

/// Failure kind of a kernel operation, with no payload; the spec-level
/// transition functions speak of these.
#[derive(Clone, Copy, Debug, PartialEq, Eq, Structural)]
pub enum ErrKind {
    UserNotFound,
    InsufficientBalance,
    InsufficientStake,
    InsufficientFee,
    ContractNotFound,
    ContractExecutionFailure,
    NoValidators,
    BlockHashMismatch,
    PreviousHashMismatch,
    BlockProductionFailure,
}

/// Error returned by kernel operations.  `UserNotFound` names the missing
/// user; `BlockProductionFailure` names the producer and wraps the failure
/// that stopped the block.
#[derive(Debug)]
pub enum BChainError {
    UserNotFound(String),
    InsufficientBalance,
    InsufficientStake,
    InsufficientFee,
    ContractNotFound,
    ContractExecutionFailure,
    NoValidators,
    BlockHashMismatch,
    PreviousHashMismatch,
    BlockProductionFailure(String, Box<BChainError>),
}

impl BChainError {
    /// Failure kind of this error, with payloads stripped.
    pub open spec fn kind(&self) -> ErrKind {
        match self {
            BChainError::UserNotFound(_) => ErrKind::UserNotFound,
            BChainError::InsufficientBalance => ErrKind::InsufficientBalance,
            BChainError::InsufficientStake => ErrKind::InsufficientStake,
            BChainError::InsufficientFee => ErrKind::InsufficientFee,
            BChainError::ContractNotFound => ErrKind::ContractNotFound,
            BChainError::ContractExecutionFailure => ErrKind::ContractExecutionFailure,
            BChainError::NoValidators => ErrKind::NoValidators,
            BChainError::BlockHashMismatch => ErrKind::BlockHashMismatch,
            BChainError::PreviousHashMismatch => ErrKind::PreviousHashMismatch,
            BChainError::BlockProductionFailure(_, _) => ErrKind::BlockProductionFailure,
        }
    }
}

} // verus!
