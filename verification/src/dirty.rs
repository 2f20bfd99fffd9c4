//! Dirty lists. Each component column keeps the rows changed since its
//! listeners last read them. A listener is a query filter; it reads the list
//! from where it stopped. The list is cleared only when every listener has
//! read all of it, so that rows are never reused while a listener may still
//! look at them.
use crate::archetype::{ColumnIndex, Row};
use crate::world::{Entity, Tick};
use vstd::prelude::*;

verus! {

/// What a dirty list records.
#[derive(Clone, Copy, Debug, PartialEq, Eq, Structural, Default)]
pub enum DirtyType {
    #[default]
    Destroyed,
    Changed(ColumnIndex),
}

/// A changed row and the entity in it.
#[derive(Clone, Copy, Debug, PartialEq, Eq, Structural, Default)]
pub struct EntityRow {
    pub e: Entity,
    pub row: Row,
}

/// A listener: how much of the list it has read, the tick of its last read
/// and its owner (the query's id).
#[derive(Clone, Copy, Debug, PartialEq, Eq, Structural)]
pub struct ListenerInfo {
    pub read_len: usize,
    pub tick: Tick,
    pub owner: Tick,
}

impl ListenerInfo {
    pub fn new(owner: Tick, tick: Tick) -> (r: ListenerInfo)
        ensures
            r.read_len == 0,
            r.tick == tick,
            r.owner == owner,
    {
        ListenerInfo { read_len: 0, tick, owner }
    }
}

/// The smallest tick of the listeners, or the largest tick when there is
/// none.
pub open spec fn min_listener_tick(ls: Seq<ListenerInfo>) -> u32
    decreases ls.len(),
{
    if ls.len() == 0 {
        u32::MAX
    } else {
        let m = min_listener_tick(ls.drop_last());
        if ls.last().tick.0 < m {
            ls.last().tick.0
        } else {
            m
        }
    }
}

/// Every listener has read at least `len` records.
pub open spec fn all_read(ls: Seq<ListenerInfo>, len: nat) -> bool {
    forall|i: int| 0 <= i < ls.len() ==> #[trigger] ls[i].read_len >= len
}

/// The listeners with nothing read and the same ticks and owners.
pub open spec fn reset_reads(ls: Seq<ListenerInfo>) -> Seq<ListenerInfo> {
    ls.map_values(|l: ListenerInfo| ListenerInfo { read_len: 0, tick: l.tick, owner: l.owner })
}

/// The dirty list of a column: its listeners, the recorded rows, and the
/// smallest tick of the listeners, below which a change needs no record.
#[derive(Debug)]
pub struct Dirty {
    listeners: Vec<ListenerInfo>,
    vec: Vec<EntityRow>,
    min_tick: Tick,
}

impl Default for Dirty {
    fn default() -> (r: Dirty)
        ensures
            r.spec_listeners().len() == 0,
            r.spec_records().len() == 0,
            r.spec_min_tick() == u32::MAX,
    {
        Dirty { listeners: Vec::new(), vec: Vec::new(), min_tick: Tick(u32::MAX) }
    }
}

impl Dirty {
    pub closed spec fn spec_listeners(&self) -> Seq<ListenerInfo> {
        self.listeners@
    }

    pub closed spec fn spec_records(&self) -> Seq<EntityRow> {
        self.vec@
    }

    pub closed spec fn spec_min_tick(&self) -> u32 {
        self.min_tick.0
    }

    /// Adds a listener owned by `owner` that has read nothing; from now on
    /// every change is recorded.
    pub fn insert_listener(&mut self, owner: Tick, tick: Tick)
        ensures
            final(self).spec_listeners() == old(self).spec_listeners().push(ListenerInfo::new_spec(owner, tick)),
            final(self).spec_records() == old(self).spec_records(),
            final(self).spec_min_tick() == 0,
    {
        self.listeners.push(ListenerInfo::new(owner, tick));
        self.min_tick = Tick(0);
    }

    /// Appends `(index, position)` to `result` for the first listener owned
    /// by `owner`, if there is one.
    pub fn find_listener(&self, index: ColumnIndex, owner: Tick, result: &mut Vec<(ColumnIndex, usize)>)
        ensures
            (exists|i: int| 0 <= i < self.spec_listeners().len() && #[trigger] self.spec_listeners()[i].owner == owner)
                ==> exists|i: int|
                0 <= i < self.spec_listeners().len() && self.spec_listeners()[i].owner == owner && (forall|j: int|
                    0 <= j < i ==> #[trigger] self.spec_listeners()[j].owner != owner) && final(result)@ == old(
                    result,
                )@.push((index, i as usize)),
            !(exists|i: int| 0 <= i < self.spec_listeners().len() && #[trigger] self.spec_listeners()[i].owner == owner)
                ==> final(result)@ == old(result)@,
    {
        let mut i: usize = 0;
        while i < self.listeners.len()
            invariant
                0 <= i <= self.listeners.len(),
                result@ == old(result)@,
                forall|j: int| 0 <= j < i ==> #[trigger] self.listeners@[j].owner != owner,
            decreases self.listeners.len() - i,
        {
            if self.listeners[i].owner == owner {
                assert(self.spec_listeners()[i as int].owner == owner);
                result.push((index, i));
                return;
            }
            i = i + 1;
        }
    }

    pub fn listener_len(&self) -> (r: usize)
        ensures
            r == self.spec_listeners().len(),
    {
        self.listeners.len()
    }

    /// Records a change whatever its tick.
    pub fn record_unchecked(&mut self, e: Entity, row: Row)
        ensures
            final(self).spec_records() == old(self).spec_records().push(EntityRow { e, row }),
            final(self).spec_listeners() == old(self).spec_listeners(),
            final(self).spec_min_tick() == old(self).spec_min_tick(),
    {
        self.vec.push(EntityRow { e, row });
    }

    /// Records a change made at `tick` when some listener may not have seen
    /// it, that is when `tick` is past the smallest listener tick.
    pub fn record(&mut self, e: Entity, row: Row, tick: Tick)
        ensures
            final(self).spec_records() == if tick.0 > old(self).spec_min_tick() {
                old(self).spec_records().push(EntityRow { e, row })
            } else {
                old(self).spec_records()
            },
            final(self).spec_listeners() == old(self).spec_listeners(),
            final(self).spec_min_tick() == old(self).spec_min_tick(),
    {
        if tick.0 > self.min_tick.0 {
            self.vec.push(EntityRow { e, row });
        }
    }

    /// Makes room for `additional` more records when there are listeners.
    pub fn reserve(&mut self, additional: usize)
        ensures
            final(self).spec_records() == old(self).spec_records(),
            final(self).spec_listeners() == old(self).spec_listeners(),
            final(self).spec_min_tick() == old(self).spec_min_tick(),
    {
        if self.listeners.len() > 0 {
            self.vec.reserve(additional);
        }
    }

    /// Reads for the listener at `listener`: returns the range of records it
    /// has not read yet and marks them read; a non-null `tick` becomes the
    /// listener's tick.
    pub fn get_iter(&mut self, listener: usize, tick: Tick) -> (r: (usize, usize))
        requires
            listener < old(self).spec_listeners().len(),
        ensures
            r == (old(self).spec_listeners()[listener as int].read_len, old(self).spec_records().len() as usize),
            final(self).spec_listeners() == old(self).spec_listeners().update(
                listener as int,
                ListenerInfo {
                    read_len: old(self).spec_records().len() as usize,
                    tick: if tick.0 == u32::MAX {
                        old(self).spec_listeners()[listener as int].tick
                    } else {
                        tick
                    },
                    owner: old(self).spec_listeners()[listener as int].owner,
                },
            ),
            final(self).spec_records() == old(self).spec_records(),
            final(self).spec_min_tick() == old(self).spec_min_tick(),
    {
        let end = self.vec.len();
        let mut info = self.listeners[listener];
        let start = info.read_len;
        info.read_len = end;
        if tick.0 != u32::MAX {
            info.tick = tick;
        }
        self.listeners.set(listener, info);
        (start, end)
    }

    /// Whether the list can be cleared: `Some(len)` when every listener has
    /// read all `len` records (at once when there is none), otherwise
    /// `None`. When there are records, the smallest listener tick is taken
    /// anew.
    pub fn can_clear(&mut self) -> (r: Option<usize>)
        ensures
            final(self).spec_records() == old(self).spec_records(),
            final(self).spec_listeners() == old(self).spec_listeners(),
            old(self).spec_records().len() == 0 ==> r == Some(0usize) && final(self).spec_min_tick() == old(
                self,
            ).spec_min_tick(),
            old(self).spec_records().len() > 0 ==> final(self).spec_min_tick() == min_listener_tick(
                old(self).spec_listeners(),
            ) && (r is Some) == all_read(old(self).spec_listeners(), old(self).spec_records().len()) && (r is Some
                ==> r->0 == old(self).spec_records().len()),
    {
        let len = self.vec.len();
        if len == 0 {
            return Some(0);
        }
        let mut min_tick: u32 = u32::MAX;
        let mut can = true;
        let mut i: usize = 0;
        while i < self.listeners.len()
            invariant
                0 <= i <= self.listeners.len(),
                len == self.vec.len(),
                min_tick == min_listener_tick(self.listeners@.subrange(0, i as int)),
                can == all_read(self.listeners@.subrange(0, i as int), len as nat),
            decreases self.listeners.len() - i,
        {
            let info = self.listeners[i];
            proof {
                let s = self.listeners@.subrange(0, i + 1);
                assert(s.drop_last() == self.listeners@.subrange(0, i as int));
                assert(s.last() == info);
            }
            if info.tick.0 < min_tick {
                min_tick = info.tick.0;
            }
            if info.read_len < len {
                can = false;
            }
            proof {
                let s = self.listeners@.subrange(0, i + 1);
                let s0 = self.listeners@.subrange(0, i as int);
                assert forall|j: int| 0 <= j < s.len() implies (#[trigger] s[j]).read_len >= len <==> (j < s0.len()
                    ==> s0[j].read_len >= len) && (j == i ==> info.read_len >= len) by {
                    if j < s0.len() {
                        assert(s[j] == s0[j]);
                    }
                }
                if can {
                    assert forall|j: int| 0 <= j < s.len() implies #[trigger] s[j].read_len >= len by {
                        if j < s0.len() {
                            assert(s[j] == s0[j]);
                        }
                    }
                } else if !all_read(s0, len as nat) {
                    let j = choose|j: int| 0 <= j < s0.len() && !(#[trigger] s0[j].read_len >= len);
                    assert(s[j] == s0[j]);
                } else {
                    assert(s[i as int] == info);
                }
            }
            i = i + 1;
        }
        assert(self.listeners@.subrange(0, self.listeners.len() as int) == self.listeners@);
        self.min_tick = Tick(min_tick);
        if can {
            Some(len)
        } else {
            None
        }
    }

    /// Empties the list and marks every listener as having read nothing.
    pub fn clear(&mut self, len: usize)
        ensures
            final(self).spec_records().len() == 0,
            final(self).spec_listeners() == reset_reads(old(self).spec_listeners()),
            final(self).spec_min_tick() == old(self).spec_min_tick(),
    {
        self.vec.clear();
        self.vec.reserve(len);
        let ghost ls = self.listeners@;
        let ghost mt = self.min_tick;
        let mut i: usize = 0;
        while i < self.listeners.len()
            invariant
                0 <= i <= self.listeners.len(),
                self.vec@.len() == 0,
                self.min_tick == mt,
                self.listeners@.len() == ls.len(),
                forall|j: int| 0 <= j < i ==> #[trigger] self.listeners@[j] == reset_reads(ls)[j],
                forall|j: int| i <= j < ls.len() ==> #[trigger] self.listeners@[j] == ls[j],
            decreases self.listeners.len() - i,
        {
            let mut info = self.listeners[i];
            info.read_len = 0;
            self.listeners.set(i, info);
            i = i + 1;
        }
        assert(self.listeners@ =~= reset_reads(ls));
    }

    /// Settles the list: with no listener nothing is kept track of; when
    /// every listener has read everything the list is emptied. Returns
    /// whether nothing is left unread.
    pub fn settle(&mut self) -> (r: bool)
        ensures
            old(self).spec_listeners().len() == 0 ==> r && *final(self) == *old(self),
            old(self).spec_listeners().len() > 0 && old(self).spec_records().len() == 0 ==> r
                && final(self).spec_records() == old(self).spec_records() && final(self).spec_listeners() == old(
                self,
            ).spec_listeners() && final(self).spec_min_tick() == old(self).spec_min_tick(),
            old(self).spec_listeners().len() > 0 && old(self).spec_records().len() > 0 ==> {
                &&& r == all_read(old(self).spec_listeners(), old(self).spec_records().len())
                &&& final(self).spec_min_tick() == min_listener_tick(old(self).spec_listeners())
                &&& r ==> final(self).spec_records().len() == 0 && final(self).spec_listeners() == reset_reads(
                    old(self).spec_listeners(),
                )
                &&& !r ==> final(self).spec_records() == old(self).spec_records() && final(self).spec_listeners()
                    == old(self).spec_listeners()
            },
    {
        if self.listeners.len() == 0 {
            return true;
        }
        let ghost ls = self.listeners@;
        let ghost n = self.vec@.len();
        match self.can_clear() {
            Some(len) => {
                proof {
                    if n > 0 {
                        assert(all_read(ls, n));
                        assert(len == n);
                    }
                }
                if len > 0 {
                    self.clear(len);
                }
                true
            },
            None => false,
        }
    }
}

impl ListenerInfo {
    pub open spec fn new_spec(owner: Tick, tick: Tick) -> ListenerInfo {
        ListenerInfo { read_len: 0, tick, owner }
    }
}

} // verus!
