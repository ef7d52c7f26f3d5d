//! A token airdrop engine: recipients are validated against a funding
//! balance and a batch-size limit, submitted one by one to a transaction
//! sink, and settled batch by batch under an all-or-nothing debit.

pub mod airdrop;
