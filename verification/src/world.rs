//! Plain value types shared by the rest of the library: ticks, entities and
//! component indices, with their `null` values.
use vstd::prelude::*;

verus! {

/// The null value of a `u32` slot (the all-ones bit pattern).
pub open spec fn u32_null() -> u32 {
    u32::MAX
}

/// A logical clock value, advanced by the world at each system run.
#[derive(Clone, Copy, Debug, PartialEq, Eq, Structural, Default)]
pub struct Tick(pub u32);

impl Tick {
    /// The largest tick.
    pub fn max() -> (r: Tick)
        ensures
            r.0 == u32::MAX,
    {
        Tick(u32::MAX)
    }

    pub fn index(&self) -> (r: usize)
        ensures
            r == self.0,
    {
        self.0 as usize
    }
}

/// Index of a component type registered in the world.
#[derive(Clone, Copy, Debug, PartialEq, Eq, Structural, Default)]
pub struct ComponentIndex(pub u32);

impl ComponentIndex {
    pub fn index(&self) -> (r: usize)
        ensures
            r == self.0,
    {
        self.0 as usize
    }

    pub fn null() -> (r: ComponentIndex)
        ensures
            r.0 == u32_null(),
    {
        ComponentIndex(u32::MAX)
    }

    pub fn is_null(&self) -> (r: bool)
        ensures
            r == (self.0 == u32_null()),
    {
        self.0 == u32::MAX
    }
}

impl From<usize> for ComponentIndex {
    /// Keeps the low 32 bits of the index.
    fn from(index: usize) -> (r: ComponentIndex) {
        ComponentIndex(index as u32)
    }
}

impl vstd::std_specs::convert::FromSpecImpl<usize> for ComponentIndex {
    open spec fn obeys_from_spec() -> bool {
        true
    }

    open spec fn from_spec(index: usize) -> ComponentIndex {
        ComponentIndex(index as u32)
    }
}

impl From<u32> for ComponentIndex {
    fn from(index: u32) -> (r: ComponentIndex) {
        ComponentIndex(index)
    }
}

impl vstd::std_specs::convert::FromSpecImpl<u32> for ComponentIndex {
    open spec fn obeys_from_spec() -> bool {
        true
    }

    open spec fn from_spec(index: u32) -> ComponentIndex {
        ComponentIndex(index)
    }
}

/// An entity handle.
#[derive(Clone, Copy, Debug, PartialEq, Eq, Structural, Default)]
pub struct Entity(pub u64);

impl Entity {
    pub fn null() -> (r: Entity)
        ensures
            r.0 == u64::MAX,
    {
        Entity(u64::MAX)
    }

    pub fn is_null(&self) -> (r: bool)
        ensures
            r == (self.0 == u64::MAX),
    {
        self.0 == u64::MAX
    }
}

} // verus!
