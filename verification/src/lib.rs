//! Sorted blocks of an LSM storage engine: a packer that fills a block with
//! key/value entries under a byte budget, and the codec that turns a finished
//! block into its byte layout and back.
//!
//! Every contract is stated over the mathematical model in [`block::layout`].

pub mod block;
pub mod key;
