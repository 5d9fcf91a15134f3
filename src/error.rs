use vstd::prelude::*;

verus! {

/// The recoverable failures of the table and the registry.
#[derive(Debug, Clone, Copy, PartialEq, Eq, Structural)]
pub enum WorldError {
    /// The hash table has no free slot left for a new entry.
    TableFull,
    /// A removal named a (key, value) pair that the table does not hold.
    KeyNotFound,
    /// The registry has no free object index left.
    RegistryFull,
    /// An alignment request that would break the one-dependent-per-anchor
    /// rule, or that aligns an object to itself or to no object.
    InvalidAlignment,
}

} // verus!
