//! Chain storage and state evolution for a multi-algorithm Mimblewimble chain:
//! a batched key-value chain store, the walks over ancestors used for
//! retargeting, and the decisions of the mining block assembler.
pub mod types;
pub mod ser;
pub mod records;
pub mod kv;
pub mod bitmap;
pub mod hash;
pub mod store;
pub mod iter;
pub mod keychain;
pub mod mining;
pub mod laws;
