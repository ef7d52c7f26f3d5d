//! The errors of the airdrop engine.

use vstd::prelude::*;

verus! {

/// Everything that can go wrong while loading, validating or submitting.
#[derive(Debug, PartialEq, Eq)]
pub enum AirdropError {
    /// An address that is empty or holds nothing but whitespace.
    InvalidAddress,
    /// An amount field that is not a non-negative integer in range.
    InvalidAmount,
    /// A batch whose total exceeds the balance it is paid from.
    InsufficientFunds { requires: u64, available: u64 },
    /// A submission that the sink rejected for good.
    TransactionFailed,
    /// A batch with more recipients than the configured maximum.
    BatchSizeLimitExceeded,
    /// An address that occurs twice in one load or one batch.
    DuplicateAddress,
    /// A submission that the sink did not answer in time.
    NetworkTimeout,
    /// A row that does not hold exactly two fields.
    InvalidCSVFormat,
    /// A failure of the file layer, carried as text.
    IOError(String),
    /// A header row that cannot be used.
    InvalidCSVHeader,
    /// An amount of zero where a positive transfer is required.
    ZeroAmount,
    /// No recipient where at least one is required.
    EmptyBatch,
}

impl Clone for AirdropError {
    fn clone(&self) -> (copy: Self)
        ensures
            copy == *self,
    {
        match self {
            AirdropError::InvalidAddress => AirdropError::InvalidAddress,
            AirdropError::InvalidAmount => AirdropError::InvalidAmount,
            AirdropError::InsufficientFunds { requires: needed, available } => {
                AirdropError::InsufficientFunds { requires: *needed, available: *available }
            },
            AirdropError::TransactionFailed => AirdropError::TransactionFailed,
            AirdropError::BatchSizeLimitExceeded => AirdropError::BatchSizeLimitExceeded,
            AirdropError::DuplicateAddress => AirdropError::DuplicateAddress,
            AirdropError::NetworkTimeout => AirdropError::NetworkTimeout,
            AirdropError::InvalidCSVFormat => AirdropError::InvalidCSVFormat,
            AirdropError::IOError(text) => AirdropError::IOError(text.clone()),
            AirdropError::InvalidCSVHeader => AirdropError::InvalidCSVHeader,
            AirdropError::ZeroAmount => AirdropError::ZeroAmount,
            AirdropError::EmptyBatch => AirdropError::EmptyBatch,
        }
    }
}

} // verus!
