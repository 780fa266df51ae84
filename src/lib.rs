//! A descriptor-based HD wallet core: derivation paths, output descriptors
//! with key origins, key derivation over BIP32, and the chain
//! synchronisation rules that keep a wallet's outputs and indices consistent.

pub mod text;
pub mod path;
pub mod descriptor;
pub mod keys;
pub mod sync;
