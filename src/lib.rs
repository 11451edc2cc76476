//! Systematic erasure coding over GF(2^8).
//!
//! A stripe holds `k` source blocks and `m` parity blocks. Parity comes from a
//! Reed-Solomon or a Cauchy encoding matrix; any `m` lost blocks are rebuilt
//! from the survivors through the inverse of the survivor sub-matrix.
//!
//! - `gf`: field arithmetic and the encoding matrices,
//! - `matrix`: matrices over the field and their inversion,
//! - `ec`: coefficient tables and the block kernels,
//! - `erasure`: the engine (`ErasureCode`, `DecodeTable`, `Error`).
pub mod ec;
pub mod erasure;
pub mod gf;
pub mod matrix;
