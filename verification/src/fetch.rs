//! What queries fetch besides component references.
use crate::archetype::{ArchetypeIndex, Row};
use std::marker::PhantomData;
use vstd::prelude::*;

verus! {

/// The component `T`, or its default value where the entity lacks it.
pub struct OrDefault<T>(pub PhantomData<T>);

/// Whether the entity has the component `T`.
pub struct Has<T>(pub PhantomData<T>);

impl<T> Has<T> {
    /// The answer fetched for the archetype, the same for every row.
    pub fn fetch(fetch: &bool, row: Row) -> (r: bool)
        ensures
            r == *fetch,
    {
        *fetch
    }
}

/// The name and index of the entity's archetype, and its row.
#[derive(Debug)]
pub struct ArchetypeName<'a>(pub &'a str, pub ArchetypeIndex, pub Row);

impl<'a> ArchetypeName<'a> {
    /// The archetype's name and index with the row.
    pub fn fetch(name: &'a str, index: ArchetypeIndex, row: Row) -> (r: ArchetypeName<'a>)
        ensures
            r.0@ == name@,
            r.1 == index,
            r.2 == row,
    {
        ArchetypeName(name, index, row)
    }
}

} // verus!
