//! Deterministic synthetic data, fault injection and integrity checks for
//! sparse ternary vector-symbolic encodings.
//!
//! - `lcg`: the seeded sequence generator every reproducible component uses.
//! - `sparse`: sparse ternary vectors and their sorted-set algebra.
//! - `generators`: sparse vectors and byte patterns to feed an engine.
//! - `chaos`: reproducible corruption of byte buffers.
//! - `integrity`: structural and algebraic checks, collected in a report.
//! - `engine`: the engine operations whose laws are checked.
//! - `fixtures`: fixture byte patterns and sampled checks against them.

pub mod chaos;
pub mod engine;
pub mod fixtures;
pub mod generators;
pub mod integrity;
pub mod lcg;
pub mod sparse;
pub mod text;

pub use chaos::ChaosInjector;
pub use embeddenator_vsa::DIM;
pub use fixtures::{create_test_data, create_test_data_bytes, TestDataPattern};
pub use generators::{deterministic_sparse_vec, mk_random_sparsevec, random_sparse_vec};
pub use integrity::{IntegrityReport, IntegrityValidator};
pub use sparse::{sparse_dot, SparseVec};

use vstd::prelude::*;

verus! {

/// Always succeeds: a quick sign of life for the crate.
pub fn testkit_smoke() -> (r: bool)
    ensures
        r,
{
    true
}

} // verus!
