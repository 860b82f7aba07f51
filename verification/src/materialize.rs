//! Materialization backends: the engine interface that backends implement
//! (chunked, simulated or physical), and its errors. The in-memory reference
//! is the K-storage (`candidates`).

use vstd::prelude::*;
use crate::hllset::HLLSet;

verus! {

/// `std::io::Error`, carried opaque inside [`MaterializeError::IO`].
#[verifier::external_type_specification]
#[verifier::external_body]
pub struct ExIoError(std::io::Error);

/// Materialization errors.
#[derive(Debug)]
pub enum MaterializeError {
    LutNotLoaded(String),
    Query(String),
    IO(std::io::Error),
}

/// A materialization backend. Every engine must give the same tokens as the
/// in-memory reference.
pub trait MaterializeEngine {
    /// The tokens behind the cells of `hllset`.
    fn materialize(&self, hllset: &HLLSet) -> Result<Vec<Vec<u8>>, MaterializeError>;

    /// The engine's name.
    fn name(&self) -> &str;

    /// Number of LUTs the engine holds.
    fn lut_count(&self) -> usize;

    /// Whether the engine runs on hardware; an engine that does not say
    /// otherwise runs in software.
    fn is_hardware(&self) -> (r: bool)
        default_ensures
            !r,
    {
        false
    }
}

} // verus!
