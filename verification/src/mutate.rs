//! Errors of entity mutation.
use vstd::prelude::*;

verus! {

/// Why a mutation failed.
#[derive(Debug, Clone, Copy, PartialEq, Eq, Structural)]
pub enum MutateError {
    MissingWriteAccess,
    NoSuchEntity,
    NoSuchArchetype,
    AlreadyMutated,
}

} // verus!
