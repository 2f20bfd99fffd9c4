//! Event lists. Writers append events; each listener reads the events from
//! where it stopped. Events that every listener has read can be dropped;
//! the others must stay.
use vstd::prelude::*;

verus! {

/// `Vec::capacity`: the number of elements the vector can hold without
/// growing; never less than its length. Nothing more is stated: the value
/// depends on the allocator.
#[verifier::external_body]
fn vec_capacity<E>(v: &Vec<E>) -> (r: usize)
    ensures
        r >= v@.len(),
{
    v.capacity()
}

/// The smallest of the read lengths, or `len` when there is none.
pub open spec fn min_read(reads: Seq<usize>, len: nat) -> nat
    decreases reads.len(),
{
    if reads.len() == 0 {
        len
    } else {
        let m = min_read(reads.drop_last(), len);
        if reads.last() < m {
            reads.last() as nat
        } else {
            m
        }
    }
}

/// The events of a type, named, with for each listener the number of events
/// it has read.
#[derive(Debug)]
pub struct EventVec<E> {
    name: String,
    listeners: Vec<usize>,
    vec: Vec<E>,
}

impl<E> EventVec<E> {
    pub closed spec fn spec_name(&self) -> Seq<char> {
        self.name@
    }

    /// The number of events read by each listener.
    pub closed spec fn spec_reads(&self) -> Seq<usize> {
        self.listeners@
    }

    /// The events kept, oldest first.
    pub closed spec fn spec_events(&self) -> Seq<E> {
        self.vec@
    }

    /// No listener has read past the end.
    pub open spec fn wf(&self) -> bool {
        forall|i: int| 0 <= i < self.spec_reads().len() ==> #[trigger] self.spec_reads()[i] <= self.spec_events().len()
    }

    /// The events that the listener at `l` has not read yet.
    pub open spec fn unread(&self, l: int) -> Seq<E> {
        self.spec_events().subrange(self.spec_reads()[l] as int, self.spec_events().len() as int)
    }

    pub fn new(name: String) -> (r: EventVec<E>)
        ensures
            r.wf(),
            r.spec_name() == name@,
            r.spec_reads().len() == 0,
            r.spec_events().len() == 0,
    {
        EventVec { name, listeners: Vec::new(), vec: Vec::new() }
    }

    pub fn name(&self) -> (r: &str)
        ensures
            r@ == self.spec_name(),
    {
        self.name.as_str()
    }

    /// Adds a listener that has read nothing; returns its position.
    pub fn insert_listener(&mut self) -> (r: usize)
        requires
            old(self).wf(),
        ensures
            final(self).wf(),
            r == old(self).spec_reads().len(),
            final(self).spec_reads() == old(self).spec_reads().push(0),
            final(self).spec_events() == old(self).spec_events(),
            final(self).spec_name() == old(self).spec_name(),
    {
        let listener_index = self.listeners.len();
        self.listeners.push(0);
        proof {
            assert forall|i: int| 0 <= i < self.spec_reads().len() implies #[trigger] self.spec_reads()[i]
                <= self.spec_events().len() by {
                if i < old(self).spec_reads().len() {
                    assert(self.spec_reads()[i] == old(self).spec_reads()[i]);
                }
            }
        }
        listener_index
    }

    /// Appends an event.
    pub fn record(&mut self, e: E)
        requires
            old(self).wf(),
        ensures
            final(self).wf(),
            final(self).spec_events() == old(self).spec_events().push(e),
            final(self).spec_reads() == old(self).spec_reads(),
            final(self).spec_name() == old(self).spec_name(),
    {
        self.vec.push(e);
        proof {
            assert forall|i: int| 0 <= i < self.spec_reads().len() implies #[trigger] self.spec_reads()[i]
                <= self.spec_events().len() by {
                assert(self.spec_reads()[i] == old(self).spec_reads()[i]);
            }
        }
    }

    /// The number of events that the listener at `listener_index` has not
    /// read.
    pub fn len(&self, listener_index: usize) -> (r: usize)
        requires
            self.wf(),
            listener_index < self.spec_reads().len(),
        ensures
            r == self.spec_events().len() - self.spec_reads()[listener_index as int],
    {
        self.vec.len() - self.listeners[listener_index]
    }

    /// Marks every event as read by the listener at `listener_index`.
    pub fn mark_read(&mut self, listener_index: usize)
        requires
            old(self).wf(),
            listener_index < old(self).spec_reads().len(),
        ensures
            final(self).wf(),
            final(self).spec_reads() == if old(self).spec_events().len() > 0 {
                old(self).spec_reads().update(listener_index as int, old(self).spec_events().len() as usize)
            } else {
                old(self).spec_reads()
            },
            final(self).spec_events() == old(self).spec_events(),
            final(self).spec_name() == old(self).spec_name(),
    {
        let len = self.vec.len();
        if len > 0 {
            self.listeners.set(listener_index, len);
        }
    }

    /// The range of the events that the listener at `listener_index` has
    /// not read; they count as read from now on.
    pub fn get_iter(&mut self, listener_index: usize) -> (r: (usize, usize))
        requires
            old(self).wf(),
            listener_index < old(self).spec_reads().len(),
        ensures
            final(self).wf(),
            r == (old(self).spec_reads()[listener_index as int], old(self).spec_events().len() as usize),
            final(self).spec_reads() == old(self).spec_reads().update(
                listener_index as int,
                old(self).spec_events().len() as usize,
            ),
            final(self).spec_events() == old(self).spec_events(),
            final(self).spec_name() == old(self).spec_name(),
    {
        let end = self.vec.len();
        let start = self.listeners[listener_index];
        self.listeners.set(listener_index, end);
        (start, end)
    }

    /// Whether the events can be cleared: `Ok(len)` when every listener has
    /// read all `len` events, otherwise `Err((len, min))` where `min` is the
    /// smallest number of events read by a listener.
    pub fn can_clear(&self) -> (r: Result<usize, (usize, usize)>)
        requires
            self.wf(),
        ensures
            self.spec_events().len() == 0 ==> r == Ok::<usize, (usize, usize)>(0),
            self.spec_events().len() > 0 ==> {
                let m = min_read(self.spec_reads(), self.spec_events().len());
                if m < self.spec_events().len() {
                    r is Err && r->Err_0.0 == self.spec_events().len() && r->Err_0.1 == m
                } else {
                    r is Ok && r->Ok_0 == self.spec_events().len()
                }
            },
    {
        let len = self.vec.len();
        if len == 0 {
            return Ok(0);
        }
        let mut min = len;
        let mut i: usize = 0;
        while i < self.listeners.len()
            invariant
                0 <= i <= self.listeners.len(),
                len == self.vec@.len(),
                min == min_read(self.listeners@.subrange(0, i as int), len as nat),
                min <= len,
            decreases self.listeners.len() - i,
        {
            let read_len = self.listeners[i];
            proof {
                let s = self.listeners@.subrange(0, i + 1);
                assert(s.drop_last() == self.listeners@.subrange(0, i as int));
                assert(s.last() == read_len);
            }
            if read_len < min {
                min = read_len;
            }
            i = i + 1;
        }
        assert(self.listeners@.subrange(0, self.listeners.len() as int) == self.listeners@);
        if min < len {
            return Err((len, min));
        }
        Ok(len)
    }

    /// Drops every event; every listener has read nothing.
    pub fn clear(&mut self)
        requires
            old(self).wf(),
        ensures
            final(self).wf(),
            final(self).spec_events().len() == 0,
            final(self).spec_reads() == Seq::new(old(self).spec_reads().len(), |i: int| 0usize),
            final(self).spec_name() == old(self).spec_name(),
    {
        self.vec.clear();
        let ghost n = self.listeners@.len();
        let ghost nm = self.name;
        let mut i: usize = 0;
        while i < self.listeners.len()
            invariant
                0 <= i <= self.listeners.len(),
                self.name == nm,
                self.listeners@.len() == n,
                self.vec@.len() == 0,
                forall|j: int| 0 <= j < i ==> #[trigger] self.listeners@[j] == 0,
            decreases self.listeners.len() - i,
        {
            self.listeners.set(i, 0);
            i = i + 1;
        }
        assert(self.listeners@ =~= Seq::new(n, |i: int| 0usize));
    }

    /// Drops the first `index` events, which every listener has read.
    pub fn clear_part(&mut self, index: usize)
        requires
            old(self).wf(),
            index <= old(self).spec_events().len(),
            forall|i: int| 0 <= i < old(self).spec_reads().len() ==> index <= #[trigger] old(self).spec_reads()[i],
        ensures
            final(self).wf(),
            final(self).spec_events() == old(self).spec_events().subrange(
                index as int,
                old(self).spec_events().len() as int,
            ),
            final(self).spec_reads() == old(self).spec_reads().map_values(|r: usize| (r - index) as usize),
            final(self).spec_name() == old(self).spec_name(),
    {
        let rest = self.vec.split_off(index);
        self.vec = rest;
        if index == 0 {
            assert(old(self).spec_reads().map_values(|r: usize| (r - index) as usize) =~= old(self).spec_reads());
            return;
        }
        let ghost rs = self.listeners@;
        let ghost ev = self.vec@;
        let ghost nm = self.name;
        assert(rs == old(self).spec_reads());
        assert forall|j: int| 0 <= j < rs.len() implies index <= #[trigger] rs[j] by {
            assert(old(self).spec_reads()[j] == rs[j]);
        }
        let mut i: usize = 0;
        while i < self.listeners.len()
            invariant
                0 <= i <= self.listeners.len(),
                self.listeners@.len() == rs.len(),
                forall|j: int| 0 <= j < rs.len() ==> index <= #[trigger] rs[j],
                self.vec@ == ev,
                self.name == nm,
                forall|j: int| 0 <= j < i ==> #[trigger] self.listeners@[j] == rs[j] - index,
                forall|j: int| i <= j < rs.len() ==> #[trigger] self.listeners@[j] == rs[j],
            decreases self.listeners.len() - i,
        {
            let r = self.listeners[i];
            self.listeners.set(i, r - index);
            i = i + 1;
        }
        assert(self.listeners@ =~= rs.map_values(|r: usize| (r - index) as usize));
        proof {
            assert forall|i: int| 0 <= i < self.spec_reads().len() implies #[trigger] self.spec_reads()[i]
                <= self.spec_events().len() by {
                assert(old(self).spec_reads()[i] <= old(self).spec_events().len());
            }
        }
    }
}

/// The read lengths are all at least the smallest one.
proof fn lemma_min_read(reads: Seq<usize>, len: nat)
    ensures
        min_read(reads, len) <= len,
        forall|i: int| 0 <= i < reads.len() ==> min_read(reads, len) <= #[trigger] reads[i],
    decreases reads.len(),
{
    if reads.len() > 0 {
        lemma_min_read(reads.drop_last(), len);
        assert forall|i: int| 0 <= i < reads.len() implies min_read(reads, len) <= #[trigger] reads[i] by {
            if i < reads.len() - 1 {
                assert(reads.drop_last()[i] == reads[i]);
            }
        }
    }
}

impl<E> EventVec<E> {
    /// Settles the events given the capacity of the event vector: when every
    /// listener has read them all they are dropped; otherwise, when the
    /// events fill more than half the capacity, those read by every listener
    /// are dropped. Returns whether every event had been read.
    pub fn settle_with_capacity(&mut self, capacity: usize) -> (r: bool)
        requires
            old(self).wf(),
        ensures
            final(self).wf(),
            final(self).spec_name() == old(self).spec_name(),
            final(self).spec_reads().len() == old(self).spec_reads().len(),
            ({
                let len = old(self).spec_events().len();
                let m = min_read(old(self).spec_reads(), len);
                if len == 0 {
                    r && *final(self) == *old(self)
                } else if m >= len {
                    r && final(self).spec_events().len() == 0 && final(self).spec_reads() == Seq::new(
                        old(self).spec_reads().len(),
                        |i: int| 0usize,
                    )
                } else if (if len + len > usize::MAX { usize::MAX as int } else { (len + len) as int }) > capacity {
                    !r && final(self).spec_events() == old(self).spec_events().subrange(m as int, len as int)
                        && final(self).spec_reads() == old(self).spec_reads().map_values(
                        |x: usize| (x - m) as usize,
                    )
                } else {
                    !r && *final(self) == *old(self)
                }
            }),
    {
        proof {
            lemma_min_read(self.spec_reads(), self.spec_events().len());
        }
        let ghost len0 = self.spec_events().len();
        let ghost m0 = min_read(self.spec_reads(), len0);
        match self.can_clear() {
            Ok(len) => {
                if len > 0 {
                    self.clear();
                    assert(m0 >= len0);
                    assert(self.spec_events().len() == 0);
                } else {
                    assert(len0 == 0);
                    assert(*self == *old(self));
                }
                true
            },
            Err((len, index)) => {
                if len.saturating_add(len) > capacity {
                    let ghost rs = self.spec_reads();
                    self.clear_part(index);
                    assert(self.spec_reads() =~= rs.map_values(|x: usize| (x - min_read(rs, old(self).spec_events().len())) as usize));
                }
                false
            },
        }
    }

    /// Settles the events as `settle_with_capacity` does with the vector's
    /// present capacity.
    pub fn settle(&mut self) -> (r: bool)
        requires
            old(self).wf(),
        ensures
            final(self).wf(),
            final(self).spec_name() == old(self).spec_name(),
            final(self).spec_reads().len() == old(self).spec_reads().len(),
            ({
                let len = old(self).spec_events().len();
                let m = min_read(old(self).spec_reads(), len);
                if len == 0 {
                    r && *final(self) == *old(self)
                } else if m >= len {
                    r && final(self).spec_events().len() == 0 && final(self).spec_reads() == Seq::new(
                        old(self).spec_reads().len(),
                        |i: int| 0usize,
                    )
                } else {
                    !r && ((final(self).spec_events() == old(self).spec_events().subrange(m as int, len as int)
                        && final(self).spec_reads() == old(self).spec_reads().map_values(
                        |x: usize| (x - m) as usize,
                    )) || *final(self) == *old(self))
                }
            }),
    {
        let capacity = vec_capacity(&self.vec);
        self.settle_with_capacity(capacity)
    }
}

/// Settling never loses an event that some listener has not read: after
/// settling, what each listener has not read is what it had not read
/// before.
pub proof fn lemma_settle_keeps_unread<E>(before: EventVec<E>, after: EventVec<E>, l: int)
    requires
        before.wf(),
        0 <= l < before.spec_reads().len(),
        after.spec_reads().len() == before.spec_reads().len(),
        ({
            let len = before.spec_events().len();
            let m = min_read(before.spec_reads(), len);
            if len == 0 {
                after == before
            } else if m >= len {
                after.spec_events().len() == 0 && after.spec_reads() == Seq::new(
                    before.spec_reads().len(),
                    |i: int| 0usize,
                )
            } else {
                (after.spec_events() == before.spec_events().subrange(m as int, len as int)
                    && after.spec_reads() == before.spec_reads().map_values(|x: usize| (x - m) as usize))
                    || after == before
            }
        }),
    ensures
        after.unread(l) == before.unread(l),
{
    let len = before.spec_events().len();
    let m = min_read(before.spec_reads(), len);
    lemma_min_read(before.spec_reads(), len);
    let rd = before.spec_reads()[l];
    assert(rd <= len);
    if len == 0 {
    } else if m >= len {
        assert(rd == len);
        assert(after.spec_reads()[l] == 0);
        assert(after.unread(l) =~= before.unread(l));
    } else if after == before {
    } else {
        assert(after.spec_reads()[l] == rd - m);
        assert(after.unread(l) =~= before.unread(l));
    }
}

} // verus!
