//! Multiple resources: every system that writes a resource type keeps its
//! own instance, with its own tick, so that the writers run in parallel and
//! the readers walk all instances.
use crate::world::Tick;
use vstd::prelude::*;

verus! {

/// A resource instance and the tick of its last change.
#[derive(Debug)]
pub struct TickRes<T> {
    pub tick: Tick,
    pub value: T,
}

impl<T> TickRes<T> {
    /// An instance not changed yet: its tick is zero.
    pub fn new(value: T) -> (r: TickRes<T>)
        ensures
            r.tick.0 == 0,
            r.value == value,
    {
        TickRes { tick: Tick(0), value }
    }
}

/// The instances of one resource type, in the order they were added.
#[derive(Debug)]
pub struct ResVec<T> {
    vec: Vec<TickRes<T>>,
}

impl<T> ResVec<T> {
    pub closed spec fn items(&self) -> Seq<TickRes<T>> {
        self.vec@
    }

    pub fn new() -> (r: ResVec<T>)
        ensures
            r.items().len() == 0,
    {
        ResVec { vec: Vec::with_capacity(256) }
    }

    /// Adds an instance, not changed yet; returns its position.
    pub fn insert(&mut self, value: T) -> (r: usize)
        ensures
            r == old(self).items().len(),
            res_inserted(*old(self), *final(self), value),
    {
        let index = self.vec.len();
        self.vec.push(TickRes::new(value));
        index
    }

    pub fn len(&self) -> (r: usize)
        ensures
            r == self.items().len(),
    {
        self.vec.len()
    }

    pub fn get(&self, index: usize) -> (r: Option<&TickRes<T>>)
        ensures
            index < self.items().len() ==> r == Some(&self.items()[index as int]),
            index >= self.items().len() ==> r is None,
    {
        if index < self.vec.len() {
            Some(&self.vec[index])
        } else {
            None
        }
    }

    /// All instances, in order.
    pub fn iter(&self) -> (r: &[TickRes<T>])
        ensures
            r@ == self.items(),
    {
        self.vec.as_slice()
    }
}

/// A system's view of a multiple resource: the instances, the tick of the
/// last change of any of them, the tick of the system's previous run and the
/// present tick.
pub struct MultiRes<'w, T> {
    pub vec: &'w ResVec<T>,
    pub changed_tick: Tick,
    pub last_run: Tick,
    pub tick: Tick,
}

/// `r1` is `r0` with `value` inserted last, with tick zero.
pub open spec fn res_inserted<T>(r0: ResVec<T>, r1: ResVec<T>, value: T) -> bool {
    r1.items() == r0.items().push(TickRes { tick: Tick(0), value })
}

/// An inserted instance stays where it was put: along inserts of `values`
/// one after the other, the instance at `k` of the first vector is found at
/// `k` in every later one.
pub proof fn lemma_inserts_keep<T>(rs: Seq<ResVec<T>>, values: Seq<T>, k: int)
    requires
        rs.len() == values.len() + 1,
        forall|j: int| 0 <= j < values.len() ==> res_inserted(#[trigger] rs[j], rs[j + 1], values[j]),
        0 <= k < rs[0].items().len(),
    ensures
        forall|j: int| 0 <= j < rs.len() ==> k < (#[trigger] rs[j]).items().len() && rs[j].items()[k] == rs[0].items()[k],
    decreases values.len(),
{
    if values.len() > 0 {
        let n = values.len() - 1;
        lemma_inserts_keep(rs.subrange(0, n + 1), values.subrange(0, n), k);
        assert forall|j: int| 0 <= j < rs.len() implies k < (#[trigger] rs[j]).items().len() && rs[j].items()[k]
            == rs[0].items()[k] by {
            if j <= n {
                assert(rs.subrange(0, n + 1)[j] == rs[j]);
            } else {
                assert(rs.subrange(0, n + 1)[n] == rs[n]);
                assert(res_inserted(rs[n], rs[n + 1], values[n]));
            }
        }
    }
}

} // verus!
