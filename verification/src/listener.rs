//! Listeners of world events.
use vstd::prelude::*;

verus! {

/// The key of a list of listeners of one type.
#[derive(Debug, Clone, Copy, Eq, PartialEq, Structural, Hash)]
pub struct ListenerListKey(pub usize);

/// The key of a list of listeners of one event type.
#[derive(Debug, Clone, Copy, Eq, PartialEq, Structural, Hash)]
pub struct EventListKey(pub usize);

/// A listener of events of one type.
pub trait Listener {
    type Event: Clone;

    fn listen(&self, args: Self::Event);
}

} // verus!
