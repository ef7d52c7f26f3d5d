//! The airdrop engine and the types it works on.

pub mod errors;
pub mod text;
pub mod structs;
pub mod utils;
pub mod batch;
pub mod ledger;
pub mod loader;
pub mod processor;

pub use processor::AirdropProcessor;
