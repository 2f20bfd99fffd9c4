//! Component columns: for each archetype, the component values and, for a
//! component whose changes are tracked, the tick of the last change of each
//! row, with the event lists of added and changed entities.
use crate::archetype::{ArchetypeIndex, ComponentInfo, Row};
use crate::blob::{lemma_bucket_end_above, remain_settled, row_or_empty, BucketsBlob};
use crate::event::EventVec;
use crate::world::{Entity, Tick};
use pi_arr::SegmentedArr;
use vstd::prelude::*;

verus! {

/// The tick stored for `row` among `ticks` (by row), zero where none was
/// ever stored.
pub open spec fn tick_at(ticks: Map<nat, u32>, row: int) -> u32 {
    if 0 <= row && ticks.dom().contains(row as nat) {
        ticks[row as nat]
    } else {
        0
    }
}

#[verifier::external_type_specification]
#[verifier::external_body]
#[verifier::reject_recursive_types(T)]
pub struct ExSegmentedArr<T>(SegmentedArr<T>);

/// What an array of ticks holds: the tick at each index of its contiguous
/// part and of its allocated buckets.
pub uninterp spec fn arr_ticks(a: SegmentedArr<u32>) -> Map<nat, u32>;

/// A tick can be stored for `row` among `ticks`: the row is within the reach
/// of the buckets, or the array already holds it.
pub open spec fn tick_storable(ticks: Map<nat, u32>, row: Row) -> bool {
    row.0 <= u32::MAX - 32 || ticks.dom().contains(row.0 as nat)
}

/// No tick at all.
pub open spec fn no_ticks() -> Map<nat, u32> {
    Map::empty()
}

/// `SegmentedArr::new`: an array with no contiguous part and no bucket.
#[verifier::external_body]
fn ticks_new() -> (r: SegmentedArr<u32>)
    ensures
        arr_ticks(r) == no_ticks(),
{
    SegmentedArr::new()
}

/// `SegmentedArr::get`: the tick at `index`, when the contiguous part or an
/// allocated bucket holds it.
#[verifier::external_body]
fn ticks_get(a: &SegmentedArr<u32>, index: usize) -> (r: Option<u32>)
    ensures
        r is Some <==> arr_ticks(*a).dom().contains(index as nat),
        r is Some ==> r->0 == arr_ticks(*a)[index as nat],
{
    a.get(index).copied()
}

/// `SegmentedArr::set`: puts `value` at `index`, allocating the bucket that
/// holds it, with zero ticks, when it is not; the other ticks read as
/// before. Past the contiguous part, `Location::of` panics beyond
/// `MAX_ENTRIES`, which `requires` leaves out: an index within it, or one
/// the array already holds, is safe.
#[verifier::external_body]
fn ticks_set(a: &mut SegmentedArr<u32>, index: usize, value: u32)
    requires
        index <= u32::MAX - 32 || arr_ticks(*old(a)).dom().contains(index as nat),
    ensures
        tick_at(arr_ticks(*final(a)), index as int) == value,
        forall|j: int| j != index ==> #[trigger] tick_at(arr_ticks(*final(a)), j) == tick_at(arr_ticks(*old(a)), j),
{
    let _ = a.set(index, value);
}

/// `SegmentedArr::settle`: keeps the ticks of the first `len` indices in a
/// contiguous part of at least `len + additional` entries, filled with zero
/// ticks, and drops the buckets; every other index reads zero. It panics
/// when `len + additional` overflows, which `requires` leaves out.
#[verifier::external_body]
fn ticks_settle(a: &mut SegmentedArr<u32>, len: usize, additional: usize)
    requires
        len + additional <= usize::MAX,
    ensures
        forall|j: int| #[trigger] tick_at(arr_ticks(*final(a)), j) == if j < len {
            tick_at(arr_ticks(*old(a)), j)
        } else {
            0
        },
{
    a.settle(len, additional)
}

/// What a column knows of its component: the component type and the event
/// lists that record changed, added and removed entities, when some system
/// listens for them.
pub struct ColumnInfo {
    pub changed: Option<EventVec<Entity>>,
    pub added: Option<EventVec<Entity>>,
    pub removed: Option<EventVec<Entity>>,
    pub info: ComponentInfo,
}

impl ColumnInfo {
    /// A column of the component type, with no event list.
    pub fn new(info: ComponentInfo) -> (r: ColumnInfo)
        ensures
            r.info == info,
            r.changed is None,
            r.added is None,
            r.removed is None,
    {
        ColumnInfo { changed: None, added: None, removed: None, info }
    }

    /// The component's tick information says changes are tracked.
    pub fn is_tick(&self) -> (r: bool)
        ensures
            r == (self.info.tick_info > 0),
    {
        self.info.is_tick()
    }
}

/// Row `r` can be stored in a blob whose contiguous part holds `cap` rows:
/// inside that part, or within the reach of the buckets past it.
pub open spec fn addressable(cap: usize, r: int) -> bool {
    0 <= r && (r < cap || r - cap <= u32::MAX - 32)
}

/// The component values of one archetype in one column, kept by row in a
/// blob, and the tick of each row.
pub struct BlobTicks {
    blob: BucketsBlob,
    ticks: SegmentedArr<u32>,
}

impl BlobTicks {
    /// The blob that holds the rows.
    pub closed spec fn spec_blob(&self) -> BucketsBlob {
        self.blob
    }

    /// The ticks stored so far, by row.
    pub closed spec fn spec_ticks(&self) -> Map<nat, u32> {
        arr_ticks(self.ticks)
    }

    pub open spec fn wf(&self) -> bool {
        self.spec_blob().wf()
    }

    /// The number of rows of the blob's contiguous part.
    pub open spec fn spec_capacity(&self) -> usize {
        self.spec_blob().spec_vec_capacity()
    }

    /// The bytes of row `r`, empty where none was stored.
    pub open spec fn spec_row(&self, r: int) -> Seq<u8> {
        row_or_empty(self.spec_blob().row(r as nat))
    }

    /// Storage for row `r` is allocated.
    pub open spec fn spec_held(&self, r: int) -> bool {
        self.spec_blob().row(r as nat) is Some
    }

    /// No row and no tick, in a blob not set up yet.
    pub fn new() -> (r: BlobTicks)
        ensures
            r.wf(),
            r.spec_capacity() == usize::MAX,
            r.spec_ticks() == Map::<nat, u32>::empty(),
            r.spec_blob().vec_rows().len() == 0,
            r.spec_blob().bucket_part() == Map::<nat, Seq<u8>>::empty(),
            forall|i: int| 0 <= i ==> #[trigger] r.spec_row(i) == Seq::<u8>::empty(),
    {
        BlobTicks { blob: BucketsBlob::default(), ticks: ticks_new() }
    }

    /// The tick of `row`, zero when none was stored.
    pub fn get_tick_unchecked(&self, row: Row) -> (r: Tick)
        ensures
            r.0 == tick_at(self.spec_ticks(), row.0 as int),
    {
        match ticks_get(&self.ticks, row.index()) {
            Some(t) => Tick(t),
            None => Tick(0),
        }
    }

    /// Stores `tick` for `row`; the other rows' ticks read as before.
    pub fn set_tick_unchecked(&mut self, row: Row, tick: Tick)
        requires
            tick_storable(old(self).spec_ticks(), row),
        ensures
            final(self).spec_blob() == old(self).spec_blob(),
            forall|r: int| #[trigger] tick_at(final(self).spec_ticks(), r) == if r == row.0 {
                tick.0
            } else {
                tick_at(old(self).spec_ticks(), r)
            },
            tick_written(old(self).spec_ticks(), final(self).spec_ticks(), row, tick),
    {
        ticks_set(&mut self.ticks, row.index(), tick.0);
    }

    /// Records that `row` got the component at `tick`: for a tracked
    /// component, stores the tick and records the entity as added when
    /// someone listens.
    pub fn added_tick(&mut self, info: &mut ColumnInfo, e: Entity, row: Row, tick: Tick)
        requires
            old(info).added matches Some(v) ==> v.wf(),
            old(info).info.tick_info > 0 ==> tick_storable(old(self).spec_ticks(), row),
        ensures
            final(info).info == old(info).info,
            final(info).changed == old(info).changed,
            final(info).removed == old(info).removed,
            old(info).info.tick_info == 0 ==> *final(self) == *old(self) && final(info).added == old(info).added,
            final(self).spec_blob() == old(self).spec_blob(),
            old(info).info.tick_info > 0 ==> {
                &&& forall|r: int| #[trigger] tick_at(final(self).spec_ticks(), r) == if r == row.0 {
                    tick.0
                } else {
                    tick_at(old(self).spec_ticks(), r)
                }
                &&& match old(info).added {
                    Some(v) => final(info).added matches Some(w) && w.wf() && w.spec_events() == v.spec_events().push(e)
                        && w.spec_reads() == v.spec_reads() && w.spec_name() == v.spec_name(),
                    None => final(info).added is None,
                }
            },
    {
        if !info.is_tick() {
            return;
        }
        self.set_tick_unchecked(row, tick);
        match &mut info.added {
            Some(vec) => vec.record(e),
            None => {},
        }
    }

    /// Records that `row` changed at `tick`: for a tracked component whose
    /// stored tick is older, stores the tick and records the entity as
    /// changed when someone listens; a tick never goes back.
    pub fn changed_tick(&mut self, info: &mut ColumnInfo, e: Entity, row: Row, tick: Tick)
        requires
            old(info).changed matches Some(v) ==> v.wf(),
            old(info).info.tick_info > 0 ==> tick_storable(old(self).spec_ticks(), row),
        ensures
            final(info).info == old(info).info,
            final(info).added == old(info).added,
            final(info).removed == old(info).removed,
            final(self).spec_blob() == old(self).spec_blob(),
            forall|r: int| #[trigger] tick_at(final(self).spec_ticks(), r) == if r == row.0 && old(info).info.tick_info
                > 0 && tick_at(old(self).spec_ticks(), r) < tick.0 {
                tick.0
            } else {
                tick_at(old(self).spec_ticks(), r)
            },
            old(info).info.tick_info > 0 && tick_at(old(self).spec_ticks(), row.0 as int) < tick.0 ==> match old(
                info,
            ).changed {
                Some(v) => final(info).changed matches Some(w) && w.wf() && w.spec_events() == v.spec_events().push(e)
                    && w.spec_reads() == v.spec_reads() && w.spec_name() == v.spec_name(),
                None => final(info).changed is None,
            },
            !(old(info).info.tick_info > 0 && tick_at(old(self).spec_ticks(), row.0 as int) < tick.0)
                ==> final(info).changed == old(info).changed,
    {
        if !info.is_tick() {
            return;
        }
        let old_tick = self.get_tick_unchecked(row);
        if old_tick.0 >= tick.0 {
            return;
        }
        self.set_tick_unchecked(row, tick);
        match &mut info.changed {
            Some(vec) => vec.record(e),
            None => {},
        }
    }
}

/// For a tracked component, `changed_tick` leaves the row's tick at the
/// larger of its old tick and `tick`, and every other row's tick as it was.
pub proof fn lemma_changed_tick_max(before: Map<nat, u32>, after: Map<nat, u32>, row: Row, tick: Tick)
    requires
        forall|r: int| #[trigger] tick_at(after, r) == if r == row.0 && tick_at(before, r) < tick.0 {
            tick.0
        } else {
            tick_at(before, r)
        },
    ensures
        tick_at(after, row.0 as int) == if tick_at(before, row.0 as int) < tick.0 {
            tick.0
        } else {
            tick_at(before, row.0 as int)
        },
        forall|r: int| r != row.0 ==> #[trigger] tick_at(after, r) == tick_at(before, r),
{
    assert(tick_at(after, row.0 as int) == tick_at(after, row.0 as int));
}

/// `after` holds the ticks of `before` with `tick` stored for `row`.
pub open spec fn tick_written(before: Map<nat, u32>, after: Map<nat, u32>, row: Row, tick: Tick) -> bool {
    forall|r: int| #[trigger] tick_at(after, r) == if r == row.0 {
        tick.0
    } else {
        tick_at(before, r)
    }
}

/// A tick stored for a row reads back for that row, whatever the row (near
/// the start or far into the buckets), and a later tick stored for another
/// row leaves it so: after `set_tick_unchecked(row, t)` and then
/// `set_tick_unchecked(other, u)`, `get_tick_unchecked(row)` gives `t`.
pub proof fn lemma_tick_reads_back(
    t0: Map<nat, u32>,
    t1: Map<nat, u32>,
    t2: Map<nat, u32>,
    row: Row,
    tick: Tick,
    other: Row,
    later: Tick,
)
    requires
        tick_written(t0, t1, row, tick),
        tick_written(t1, t2, other, later),
        other != row,
    ensures
        tick_at(t1, row.0 as int) == tick.0,
        tick_at(t2, row.0 as int) == tick.0,
        tick_at(t2, other.0 as int) == later.0,
{
    assert(tick_at(t1, row.0 as int) == tick.0);
    assert(tick_at(t2, row.0 as int) == tick_at(t1, row.0 as int));
    assert(tick_at(t2, other.0 as int) == later.0);
}

/// Changing rows never lowers a tick: after `changed_tick` every row's tick
/// is at least what it was.
pub proof fn lemma_changed_tick_monotone(before: Map<nat, u32>, after: Map<nat, u32>, row: Row, tick: Tick, tracked_ticks: bool)
    requires
        forall|r: int| #[trigger] tick_at(after, r) == if r == row.0 && tracked_ticks && tick_at(before, r) < tick.0 {
            tick.0
        } else {
            tick_at(before, r)
        },
    ensures
        forall|r: int| tick_at(before, r) <= #[trigger] tick_at(after, r),
{
    assert forall|r: int| tick_at(before, r) <= #[trigger] tick_at(after, r) by {
        let a = tick_at(after, r);
    }
}

/// The bytes of row `r` of `b` after the moves of `action`, in order, each
/// copying row `src` over row `dst`.
pub open spec fn moved_row(b: BlobTicks, action: Seq<(Row, Row)>, r: int) -> Seq<u8>
    decreases action.len(),
{
    if action.len() == 0 {
        b.spec_row(r)
    } else if r == action.last().1.0 {
        moved_row(b, action.drop_last(), action.last().0.0 as int)
    } else {
        moved_row(b, action.drop_last(), r)
    }
}

/// The tick of row `r` after the moves of `action`.
pub open spec fn moved_tick(ticks: Map<nat, u32>, action: Seq<(Row, Row)>, r: int) -> u32
    decreases action.len(),
{
    if action.len() == 0 {
        tick_at(ticks, r)
    } else if r == action.last().1.0 {
        moved_tick(ticks, action.drop_last(), action.last().0.0 as int)
    } else {
        moved_tick(ticks, action.drop_last(), r)
    }
}

/// Every move of `action` reads a row of `b` that is held and writes a row
/// that `b` can store.
pub open spec fn moves_ok(b: BlobTicks, action: Seq<(Row, Row)>) -> bool {
    forall|k: int|
        0 <= k < action.len() ==> {
            &&& b.spec_held((#[trigger] action[k]).0.0 as int)
            &&& addressable(b.spec_capacity(), action[k].0.0 as int)
            &&& addressable(b.spec_capacity(), action[k].1.0 as int)
        }
}

/// Every move of `action` writes a row whose tick an array of ticks can
/// store.
pub open spec fn tick_rows_ok(action: Seq<(Row, Row)>) -> bool {
    forall|k: int| 0 <= k < action.len() ==> (#[trigger] action[k]).1.0 <= u32::MAX - 32
}

/// `b1` is `b0` with the moves of `action` applied to its rows; the
/// capacity stays and every held row stays held.
pub open spec fn rows_moved(b0: BlobTicks, b1: BlobTicks, action: Seq<(Row, Row)>) -> bool {
    &&& b1.wf()
    &&& b1.spec_capacity() == b0.spec_capacity()
    &&& forall|r: int| 0 <= r ==> #[trigger] b1.spec_row(r) == moved_row(b0, action, r)
    &&& forall|r: int| 0 <= r && b0.spec_held(r) ==> #[trigger] b1.spec_held(r)
}

/// The blob of `b` can be settled to `len` rows with room for `additional`
/// more: it is set up for a component with a size, and the rows stay
/// within the reach of its buckets.
pub open spec fn settle_ok(b: BlobTicks, len: usize, additional: usize) -> bool {
    &&& b.spec_capacity() < usize::MAX - 1
    &&& len + additional <= usize::MAX
    &&& len > b.spec_capacity() ==> len + additional <= u32::MAX - 32 && len - b.spec_capacity() <= u32::MAX - 31
}

/// `b1` is `b0` with the blob settled to its `len` first rows, with room for
/// `additional` more.
pub open spec fn rows_settled(b0: BlobTicks, b1: BlobTicks, len: usize, additional: usize) -> bool {
    &&& b1.wf()
    &&& remain_settled(b0.spec_blob(), b1.spec_blob(), 0, len, len, additional)
}

/// Settling keeps the first `len` rows, held, in a contiguous part that
/// holds them all.
pub proof fn lemma_settled_keeps(b0: BlobTicks, b1: BlobTicks, len: usize, additional: usize)
    requires
        rows_settled(b0, b1, len, additional),
        len + additional <= usize::MAX,
    ensures
        b1.spec_capacity() >= len,
        forall|r: int| 0 <= r < len ==> #[trigger] b1.spec_row(r) == b0.spec_row(r) && b1.spec_held(r),
{
    let cap0 = b0.spec_capacity();
    if len > cap0 {
        lemma_bucket_end_above((len + additional) as nat);
    }
    assert forall|r: int| 0 <= r < len implies #[trigger] b1.spec_row(r) == b0.spec_row(r) && b1.spec_held(r) by {
        let i = r as nat;
        assert(i < b1.spec_blob().spec_vec_capacity());
        assert(b1.spec_blob().row(i) == Some(row_or_empty(b0.spec_blob().row((0 + i) as nat))));
    }
}

/// `b1` is `b0` with `data` stored at `row`: the ticks and the capacity
/// stay, the row is held and holds `data`, every other row holds what it
/// held, and every held row stays held.
pub open spec fn row_written(b0: BlobTicks, b1: BlobTicks, row: Row, data: Seq<u8>) -> bool {
    &&& b1.wf()
    &&& b1.spec_ticks() == b0.spec_ticks()
    &&& b1.spec_capacity() == b0.spec_capacity()
    &&& b1.spec_held(row.0 as int)
    &&& b1.spec_row(row.0 as int) == data
    &&& forall|r: int| 0 <= r && r != row.0 ==> #[trigger] b1.spec_row(r) == b0.spec_row(r)
    &&& forall|r: int| 0 <= r && b0.spec_held(r) ==> #[trigger] b1.spec_held(r)
}

/// A row reads back what was last written to it: once `write_row` stored
/// `data` at `row`, `get_row` there finds the storage and those bytes, and
/// a later write to another row leaves them as they read.
pub proof fn lemma_read_after_write(b0: BlobTicks, b1: BlobTicks, b2: BlobTicks, row: Row, data: Seq<u8>, other: Row, more: Seq<u8>)
    requires
        row_written(b0, b1, row, data),
        row_written(b1, b2, other, more),
        other != row,
    ensures
        b1.spec_held(row.0 as int) && b1.spec_row(row.0 as int) == data,
        b2.spec_held(row.0 as int) && b2.spec_row(row.0 as int) == data,
{
    assert(b2.spec_row(row.0 as int) == b1.spec_row(row.0 as int));
}

impl BlobTicks {
    /// Stores the bytes of `row`; the other rows and the ticks stay.
    pub fn write_row(&mut self, row: Row, data: Vec<u8>)
        requires
            old(self).wf(),
            addressable(old(self).spec_capacity(), row.0 as int),
        ensures
            row_written(*old(self), *final(self), row, data@),
    {
        self.blob.load_alloc_multiple(row.index(), data);
        proof {
            assert forall|r: int| 0 <= r && r != row.0 implies #[trigger] self.spec_row(r) == old(self).spec_row(r) by {
                assert(row_or_empty(self.blob.row(r as nat)) == row_or_empty(old(self).blob.row(r as nat)));
            }
            assert forall|r: int| 0 <= r && old(self).spec_held(r) implies #[trigger] self.spec_held(r) by {
                assert(old(self).blob.row(r as nat) is Some);
            }
        }
    }

    /// The bytes of `row`, when its storage is allocated.
    pub fn get_row(&self, row: Row) -> (r: Option<Vec<u8>>)
        requires
            self.wf(),
            addressable(self.spec_capacity(), row.0 as int),
        ensures
            match r {
                Some(v) => self.spec_held(row.0 as int) && v@ == self.spec_row(row.0 as int),
                None => !self.spec_held(row.0 as int),
            },
    {
        self.blob.get_multiple(row.index())
    }

    /// Applies the moves of `action` in order: each copies the bytes of row
    /// `src` over row `dst`, and with `ticks` its tick as well.
    fn move_rows(&mut self, action: &Vec<(Row, Row)>, ticks: bool)
        requires
            old(self).wf(),
            moves_ok(*old(self), action@),
            ticks ==> tick_rows_ok(action@),
        ensures
            rows_moved(*old(self), *final(self), action@),
            ticks ==> forall|r: int| #[trigger] tick_at(final(self).spec_ticks(), r) == moved_tick(
                old(self).spec_ticks(),
                action@,
                r,
            ),
            !ticks ==> final(self).spec_ticks() == old(self).spec_ticks(),
    {
        let ghost b0 = *self;
        let ghost ticks0 = self.spec_ticks();
        let mut k: usize = 0;
        while k < action.len()
            invariant
                0 <= k <= action@.len(),
                b0 == *old(self),
                ticks0 == old(self).spec_ticks(),
                moves_ok(b0, action@),
                ticks ==> tick_rows_ok(action@),
                self.wf(),
                self.spec_capacity() == b0.spec_capacity(),
                forall|r: int| 0 <= r ==> #[trigger] self.spec_row(r) == moved_row(b0, action@.subrange(0, k as int), r),
                forall|r: int| 0 <= r && b0.spec_held(r) ==> #[trigger] self.spec_held(r),
                ticks ==> forall|r: int| #[trigger] tick_at(self.spec_ticks(), r) == moved_tick(
                    ticks0,
                    action@.subrange(0, k as int),
                    r,
                ),
                !ticks ==> self.spec_ticks() == ticks0,
            decreases action@.len() - k,
        {
            let (src, dst) = action[k];
            let ghost pre = action@.subrange(0, k as int);
            let ghost cur = action@.subrange(0, k + 1);
            proof {
                assert(cur.drop_last() == pre);
                assert(cur.last() == action@[k as int]);
                assert(b0.spec_held(src.0 as int));
                assert(self.spec_held(src.0 as int));
            }
            let ghost tk = self.spec_ticks();
            proof {
                if ticks {
                    assert(tick_at(tk, src.0 as int) == moved_tick(ticks0, pre, src.0 as int));
                    assert forall|r: int| tick_at(tk, r) == moved_tick(ticks0, pre, r) by {
                        assert(tick_at(self.spec_ticks(), r) == moved_tick(ticks0, pre, r));
                    }
                }
            }
            let data = self.blob.get_multiple_unchecked(src.index());
            let ghost before = *self;
            proof {
                assert(data@ == before.spec_row(src.0 as int));
                assert(before.spec_row(src.0 as int) == moved_row(b0, pre, src.0 as int));
            }
            self.write_row(dst, data);
            proof {
                assert forall|r: int| 0 <= r implies #[trigger] self.spec_row(r) == moved_row(b0, cur, r) by {
                    if r != dst.0 {
                        assert(self.spec_row(r) == before.spec_row(r));
                        assert(before.spec_row(r) == moved_row(b0, pre, r));
                    }
                }
                assert forall|r: int| 0 <= r && b0.spec_held(r) implies #[trigger] self.spec_held(r) by {
                    assert(before.spec_held(r));
                }
            }
            let ghost written = *self;
            if ticks {
                let t = self.get_tick_unchecked(src);
                self.set_tick_unchecked(dst, t);
                proof {
                    assert forall|r: int| 0 <= r implies #[trigger] self.spec_row(r) == written.spec_row(r) by {}
                    assert forall|r: int| 0 <= r && written.spec_held(r) implies #[trigger] self.spec_held(r) by {}
                    assert forall|r: int| #[trigger] tick_at(self.spec_ticks(), r) == moved_tick(ticks0, cur, r) by {
                        assert(tick_at(tk, r) == moved_tick(ticks0, pre, r));
                        if r == dst.0 {
                            assert(t.0 == moved_tick(ticks0, pre, src.0 as int));
                        }
                    }
                }
            }
            k = k + 1;
        }
        assert(action@.subrange(0, action@.len() as int) == action@);
    }

    /// Settles the blob to its first `len` rows, with room for `additional`
    /// more, and keeps the ticks of those rows; the others are dropped.
    fn settle_rows(&mut self, len: usize, additional: usize, ticks: bool)
        requires
            old(self).wf(),
            settle_ok(*old(self), len, additional),
        ensures
            rows_settled(*old(self), *final(self), len, additional),
            ticks ==> forall|r: int| #[trigger] tick_at(final(self).spec_ticks(), r) == if r < len {
                tick_at(old(self).spec_ticks(), r)
            } else {
                0
            },
            !ticks ==> final(self).spec_ticks() == old(self).spec_ticks(),
    {
        self.blob.settle(len, additional);
        if ticks {
            ticks_settle(&mut self.ticks, len, additional);
        }
    }
}

/// The bytes of row `r` after copying, in order, the source row of each
/// move (from `src`) over its destination row (in `dst`).
pub open spec fn copied_row(dst: BlobTicks, src: BlobTicks, moves: Seq<(Row, Row, Entity)>, r: int) -> Seq<u8>
    decreases moves.len(),
{
    if moves.len() == 0 {
        dst.spec_row(r)
    } else if r == moves.last().1.0 {
        src.spec_row(moves.last().0.0 as int)
    } else {
        copied_row(dst, src, moves.drop_last(), r)
    }
}

/// The tick of row `r` after copying the ticks of `moves` likewise.
pub open spec fn copied_tick(dst: Map<nat, u32>, src: Map<nat, u32>, moves: Seq<(Row, Row, Entity)>, r: int) -> u32
    decreases moves.len(),
{
    if moves.len() == 0 {
        tick_at(dst, r)
    } else if r == moves.last().1.0 {
        tick_at(src, moves.last().0.0 as int)
    } else {
        copied_tick(dst, src, moves.drop_last(), r)
    }
}

/// Every move writes a row whose tick an array of ticks can store.
pub open spec fn tick_moves_ok(moves: Seq<(Row, Row, Entity)>) -> bool {
    forall|k: int| 0 <= k < moves.len() ==> (#[trigger] moves[k]).1.0 <= u32::MAX - 32
}

/// Every move reads a row of `src` that is held and writes a row that `dst`
/// can store.
pub open spec fn copy_ok(dst: BlobTicks, src: BlobTicks, moves: Seq<(Row, Row, Entity)>) -> bool {
    forall|k: int|
        0 <= k < moves.len() ==> {
            &&& src.spec_held((#[trigger] moves[k]).0.0 as int)
            &&& addressable(src.spec_capacity(), moves[k].0.0 as int)
            &&& addressable(dst.spec_capacity(), moves[k].1.0 as int)
        }
}

impl BlobTicks {
    /// Copies, in order, the source row of each move in `src` over its
    /// destination row here, and with `ticks` its tick as well.
    pub fn copy_rows_from(&mut self, src: &BlobTicks, moves: &Vec<(Row, Row, Entity)>, ticks: bool)
        requires
            old(self).wf(),
            src.wf(),
            copy_ok(*old(self), *src, moves@),
            ticks ==> tick_moves_ok(moves@),
        ensures
            final(self).wf(),
            final(self).spec_capacity() == old(self).spec_capacity(),
            forall|r: int| 0 <= r ==> #[trigger] final(self).spec_row(r) == copied_row(*old(self), *src, moves@, r),
            forall|r: int| 0 <= r && old(self).spec_held(r) ==> #[trigger] final(self).spec_held(r),
            forall|k: int| 0 <= k < moves@.len() ==> final(self).spec_held((#[trigger] moves@[k]).1.0 as int),
            ticks ==> forall|r: int| #[trigger] tick_at(final(self).spec_ticks(), r) == copied_tick(
                old(self).spec_ticks(),
                src.spec_ticks(),
                moves@,
                r,
            ),
            !ticks ==> final(self).spec_ticks() == old(self).spec_ticks(),
    {
        let ghost d0 = *self;
        let ghost ticks0 = self.spec_ticks();
        let mut k: usize = 0;
        while k < moves.len()
            invariant
                0 <= k <= moves@.len(),
                d0 == *old(self),
                ticks0 == old(self).spec_ticks(),
                src.wf(),
                copy_ok(d0, *src, moves@),
                ticks ==> tick_moves_ok(moves@),
                self.wf(),
                self.spec_capacity() == d0.spec_capacity(),
                forall|r: int|
                    0 <= r ==> #[trigger] self.spec_row(r) == copied_row(d0, *src, moves@.subrange(0, k as int), r),
                forall|r: int| 0 <= r && d0.spec_held(r) ==> #[trigger] self.spec_held(r),
                forall|q: int| 0 <= q < k ==> self.spec_held((#[trigger] moves@[q]).1.0 as int),
                ticks ==> forall|r: int| #[trigger] tick_at(self.spec_ticks(), r) == copied_tick(
                    ticks0,
                    src.spec_ticks(),
                    moves@.subrange(0, k as int),
                    r,
                ),
                !ticks ==> self.spec_ticks() == ticks0,
            decreases moves@.len() - k,
        {
            let (from, to, _e) = moves[k];
            let ghost pre = moves@.subrange(0, k as int);
            let ghost cur = moves@.subrange(0, k + 1);
            proof {
                assert(cur.drop_last() == pre);
                assert(cur.last() == moves@[k as int]);
                assert(src.spec_held(from.0 as int));
            }
            let data = src.blob.get_multiple_unchecked(from.index());
            let ghost before = *self;
            let ghost tk = self.spec_ticks();
            self.write_row(to, data);
            proof {
                assert forall|r: int| 0 <= r implies #[trigger] self.spec_row(r) == copied_row(d0, *src, cur, r) by {
                    if r != to.0 {
                        assert(self.spec_row(r) == before.spec_row(r));
                    }
                }
                assert forall|r: int| 0 <= r && d0.spec_held(r) implies #[trigger] self.spec_held(r) by {
                    assert(before.spec_held(r));
                }
                assert forall|q: int| 0 <= q < k + 1 implies self.spec_held((#[trigger] moves@[q]).1.0 as int) by {
                    if q < k {
                        assert(before.spec_held(moves@[q].1.0 as int));
                    }
                }
            }
            let ghost written = *self;
            if ticks {
                let t = src.get_tick_unchecked(from);
                self.set_tick_unchecked(to, t);
                proof {
                    assert forall|r: int| 0 <= r implies #[trigger] self.spec_row(r) == written.spec_row(r) by {}
                    assert forall|r: int| 0 <= r && written.spec_held(r) implies #[trigger] self.spec_held(r) by {}
                    assert forall|r: int| #[trigger] tick_at(self.spec_ticks(), r) == copied_tick(
                        ticks0,
                        src.spec_ticks(),
                        cur,
                        r,
                    ) by {
                        assert(tick_at(tk, r) == copied_tick(ticks0, src.spec_ticks(), pre, r));
                    }
                }
            }
            k = k + 1;
        }
        assert(moves@.subrange(0, moves@.len() as int) == moves@);
    }
}

/// `c1` is `c0` with, for the archetype at `dst`, each move's source row of
/// the archetype at `src` copied over its destination row, in order, with
/// its tick for a tracked component.
pub open spec fn column_moved(c0: Column, c1: Column, src: ArchetypeIndex, dst: ArchetypeIndex, moves: Seq<(Row, Row, Entity)>) -> bool {
    let s = c0.blob(src.0 as usize as int);
    let d0 = c0.blob(dst.0 as usize as int);
    let d1 = c1.blob(dst.0 as usize as int);
    &&& c1.wf()
    &&& c1.col_info() == c0.col_info()
    &&& c1.spec_last_len() == c0.spec_last_len()
    &&& forall|i: int| c1.has(i) == c0.has(i)
    &&& forall|i: int| i != dst.0 as usize as int && c0.has(i) ==> c1.blob(i) == c0.blob(i)
    &&& d1.spec_capacity() == d0.spec_capacity()
    &&& forall|r: int| 0 <= r ==> #[trigger] d1.spec_row(r) == copied_row(d0, s, moves, r)
    &&& forall|r: int| 0 <= r && d0.spec_held(r) ==> #[trigger] d1.spec_held(r)
    &&& forall|k: int| 0 <= k < moves.len() ==> d1.spec_held((#[trigger] moves[k]).1.0 as int)
    &&& c0.col_info().info.tick_info > 0 ==> forall|r: int| #[trigger] tick_at(d1.spec_ticks(), r) == copied_tick(
        d0.spec_ticks(),
        s.spec_ticks(),
        moves,
        r,
    )
    &&& c0.col_info().info.tick_info == 0 ==> d1.spec_ticks() == d0.spec_ticks()
}

/// `c1` is `c0` with the entities of `moves` recorded as removed, when
/// someone listens for removals; nothing else changes.
pub open spec fn rows_removed(c0: Column, c1: Column, moves: Seq<(Row, Row, Entity)>) -> bool {
    &&& c1.col_info().info == c0.col_info().info
    &&& c1.col_info().changed == c0.col_info().changed
    &&& c1.col_info().added == c0.col_info().added
    &&& c1.spec_last_len() == c0.spec_last_len()
    &&& forall|i: int| c1.has(i) == c0.has(i)
    &&& forall|i: int| c0.has(i) ==> c1.blob(i) == c0.blob(i)
    &&& match c0.col_info().removed {
        Some(v) => c1.col_info().removed matches Some(w) && w.wf() && w.spec_events() == v.spec_events()
            + moves.map_values(|m: (Row, Row, Entity)| m.2) && w.spec_reads() == v.spec_reads() && w.spec_name()
            == v.spec_name(),
        None => c1.col_info().removed is None,
    }
}

/// A component column: what it knows of its component, the values and
/// ticks of each archetype that has the component (by archetype index; a
/// missing or unset entry means the archetype lacks the component), and one
/// past the largest archetype index set up.
pub struct Column {
    info: ColumnInfo,
    blobs: Vec<Option<BlobTicks>>,
    last_len: usize,
}

impl Column {
    pub closed spec fn col_info(&self) -> ColumnInfo {
        self.info
    }

    /// The archetypes that have the component.
    pub closed spec fn has(&self, index: int) -> bool {
        0 <= index < self.blobs@.len() && self.blobs@[index] is Some
    }

    /// The values and ticks of an archetype that has the component.
    pub closed spec fn blob(&self, index: int) -> BlobTicks {
        self.blobs@[index]->0
    }

    pub closed spec fn spec_last_len(&self) -> usize {
        self.last_len
    }

    /// The blob of every archetype that has the component is well formed.
    pub open spec fn wf(&self) -> bool {
        forall|i: int| #[trigger] self.has(i) ==> self.blob(i).wf()
    }

    pub fn new(info: ComponentInfo) -> (r: Column)
        ensures
            r.wf(),
            r.col_info().info == info,
            r.col_info().changed is None,
            r.col_info().added is None,
            r.col_info().removed is None,
            forall|i: int| !r.has(i),
            r.spec_last_len() == 0,
    {
        Column { info: ColumnInfo::new(info), blobs: Vec::new(), last_len: 0 }
    }

    pub fn info(&self) -> (r: &ComponentInfo)
        ensures
            *r == self.col_info().info,
    {
        &self.info.info
    }

    /// Sets the column up for the archetype at `index`, with no rows: its
    /// blob's contiguous part holds no row, or, for a component of size
    /// zero, all but the largest number of rows.
    pub fn init_blob(&mut self, index: ArchetypeIndex)
        requires
            old(self).wf(),
            0 <= index.0,
            index.0 + 1 < usize::MAX,
        ensures
            final(self).wf(),
            final(self).spec_last_len() == index.0 + 1,
            final(self).has(index.0 as int),
            final(self).blob(index.0 as int).spec_capacity() == if old(self).col_info().info.mem_size == 0 {
                (usize::MAX - 1) as usize
            } else {
                0usize
            },
            forall|r: int| 0 <= r ==> #[trigger] final(self).blob(index.0 as int).spec_row(r) == Seq::<u8>::empty(),
            forall|r: int|
                0 <= r ==> (#[trigger] final(self).blob(index.0 as int).spec_held(r) <==> r < final(self).blob(
                    index.0 as int,
                ).spec_capacity()),
            final(self).blob(index.0 as int).spec_ticks() == Map::<nat, u32>::empty(),
            forall|i: int| i != index.0 ==> final(self).has(i) == old(self).has(i),
            forall|i: int| i != index.0 && old(self).has(i) ==> final(self).blob(i) == old(self).blob(i),
            final(self).col_info() == old(self).col_info(),
    {
        let i = index.index();
        self.last_len = i + 1;
        while self.blobs.len() <= i
            invariant
                self.info == old(self).col_info(),
                self.last_len == i + 1,
                old(self).blobs@.len() <= self.blobs@.len(),
                forall|r: int| 0 <= r < old(self).blobs@.len() ==> self.blobs@[r] == old(self).blobs@[r],
                forall|r: int| old(self).blobs@.len() <= r < self.blobs@.len() ==> self.blobs@[r] is None,
                self.blobs@.len() <= i + 1 || self.blobs@.len() == old(self).blobs@.len(),
            decreases i + 1 - self.blobs@.len(),
        {
            self.blobs.push(None);
        }
        let mut b = BlobTicks::new();
        let cap: usize = if self.info.info.size() == 0 {
            usize::MAX - 1
        } else {
            0
        };
        b.blob.set_vec_capacity(cap);
        proof {
            assert forall|r: int| 0 <= r implies #[trigger] b.spec_row(r) == Seq::<u8>::empty() && (b.spec_held(r)
                <==> r < cap) by {
                assert(b.spec_blob().vec_rows().len() == 0);
                assert(!b.spec_blob().bucket_part().dom().contains((r - cap) as nat));
            }
        }
        self.blobs.set(i, Some(b));
        proof {
            assert forall|x: int| #[trigger] self.has(x) implies self.blob(x).wf() by {
                if x != i {
                    assert(old(self).has(x));
                }
            }
        }
    }

    /// The column is set up for the archetype at `index`.
    pub fn contains(&self, index: ArchetypeIndex) -> (r: bool)
        ensures
            r == self.has(index.0 as usize as int),
    {
        let i = index.index();
        i < self.blobs.len() && self.blobs[i].is_some()
    }

    /// The values and ticks of the archetype at `index`, if the column is
    /// set up for it.
    pub fn blob_ref(&self, index: ArchetypeIndex) -> (r: Option<&BlobTicks>)
        ensures
            self.has(index.0 as usize as int) ==> r == Some(&self.blob(index.0 as usize as int)),
            !self.has(index.0 as usize as int) ==> r is None,
    {
        let i = index.index();
        if i < self.blobs.len() {
            match &self.blobs[i] {
                Some(b) => Some(b),
                None => None,
            }
        } else {
            None
        }
    }

    /// The values and ticks of the archetype at `index`, which the column is
    /// set up for.
    pub fn blob_ref_unchecked(&self, index: ArchetypeIndex) -> (r: &BlobTicks)
        requires
            self.has(index.0 as usize as int),
        ensures
            *r == self.blob(index.0 as usize as int),
    {
        self.blobs[index.index()].as_ref().unwrap()
    }

    /// Stores the bytes of `row` for the archetype at `index`; the other rows,
    /// the ticks and the other archetypes stay as they were.
    pub fn write_row(&mut self, index: ArchetypeIndex, row: Row, data: Vec<u8>)
        requires
            old(self).wf(),
            old(self).has(index.0 as usize as int),
            addressable(old(self).blob(index.0 as usize as int).spec_capacity(), row.0 as int),
        ensures
            final(self).wf(),
            final(self).col_info() == old(self).col_info(),
            final(self).spec_last_len() == old(self).spec_last_len(),
            forall|i: int| final(self).has(i) == old(self).has(i),
            forall|i: int| i != index.0 as usize as int && old(self).has(i) ==> final(self).blob(i) == old(self).blob(i),
            ({
                let i = index.0 as usize as int;
                let b0 = old(self).blob(i);
                let b1 = final(self).blob(i);
                &&& b1.spec_ticks() == b0.spec_ticks()
                &&& b1.spec_capacity() == b0.spec_capacity()
                &&& b1.spec_held(row.0 as int)
                &&& b1.spec_row(row.0 as int) == data@
                &&& forall|r: int| 0 <= r && r != row.0 ==> #[trigger] b1.spec_row(r) == b0.spec_row(r)
                &&& forall|r: int| 0 <= r && b0.spec_held(r) ==> #[trigger] b1.spec_held(r)
            }),
    {
        let i = index.index();
        let mut b = BlobTicks::new();
        match self.blobs[i].take() {
            Some(old_b) => {
                b = old_b;
            },
            None => {},
        }
        proof {
            assert(old(self).has(i as int));
        }
        b.write_row(row, data);
        self.blobs.set(i, Some(b));
        proof {
            assert forall|x: int| #[trigger] self.has(x) implies self.blob(x).wf() by {
                if x != i {
                    assert(old(self).has(x));
                }
            }
        }
    }

    /// Records that `row` of the archetype at `index` got the component at
    /// `tick`: for a tracked component, stores the tick and records the
    /// entity as added when someone listens.
    pub fn added_tick(&mut self, index: ArchetypeIndex, e: Entity, row: Row, tick: Tick)
        requires
            old(self).wf(),
            old(self).has(index.0 as usize as int),
            old(self).col_info().added matches Some(v) ==> v.wf(),
            old(self).col_info().info.tick_info > 0 ==> tick_storable(old(self).blob(index.0 as usize as int).spec_ticks(), row),
        ensures
            final(self).wf(),
            final(self).spec_last_len() == old(self).spec_last_len(),
            forall|i: int| final(self).has(i) == old(self).has(i),
            forall|i: int| i != index.0 as usize as int && old(self).has(i) ==> final(self).blob(i) == old(self).blob(i),
            final(self).col_info().info == old(self).col_info().info,
            final(self).col_info().changed == old(self).col_info().changed,
            final(self).col_info().removed == old(self).col_info().removed,
            ({
                let b0 = old(self).blob(index.0 as usize as int);
                let b1 = final(self).blob(index.0 as usize as int);
                &&& b1.spec_blob() == b0.spec_blob()
                &&& old(self).col_info().info.tick_info == 0 ==> b1 == b0 && final(self).col_info().added == old(
                    self,
                ).col_info().added
                &&& old(self).col_info().info.tick_info > 0 ==> {
                    &&& forall|r: int| #[trigger] tick_at(b1.spec_ticks(), r) == if r == row.0 {
                        tick.0
                    } else {
                        tick_at(b0.spec_ticks(), r)
                    }
                    &&& match old(self).col_info().added {
                        Some(v) => final(self).col_info().added matches Some(w) && w.wf() && w.spec_events()
                            == v.spec_events().push(e) && w.spec_reads() == v.spec_reads() && w.spec_name()
                            == v.spec_name(),
                        None => final(self).col_info().added is None,
                    }
                }
            }),
    {
        let i = index.index();
        let mut b = BlobTicks::new();
        match self.blobs[i].take() {
            Some(old_b) => {
                b = old_b;
            },
            None => {},
        }
        proof {
            assert(old(self).has(i as int));
        }
        b.added_tick(&mut self.info, e, row, tick);
        self.blobs.set(i, Some(b));
        proof {
            assert forall|x: int| #[trigger] self.has(x) implies self.blob(x).wf() by {
                if x != i {
                    assert(old(self).has(x));
                }
            }
        }
    }

    /// Records that `row` of the archetype at `index` changed at `tick`: for
    /// a tracked component whose stored tick is older, stores the tick and
    /// records the entity as changed when someone listens.
    pub fn changed_tick(&mut self, index: ArchetypeIndex, e: Entity, row: Row, tick: Tick)
        requires
            old(self).wf(),
            old(self).has(index.0 as usize as int),
            old(self).col_info().changed matches Some(v) ==> v.wf(),
            old(self).col_info().info.tick_info > 0 ==> tick_storable(old(self).blob(index.0 as usize as int).spec_ticks(), row),
        ensures
            final(self).wf(),
            final(self).spec_last_len() == old(self).spec_last_len(),
            forall|i: int| final(self).has(i) == old(self).has(i),
            forall|i: int| i != index.0 as usize as int && old(self).has(i) ==> final(self).blob(i) == old(self).blob(i),
            final(self).col_info().info == old(self).col_info().info,
            final(self).col_info().added == old(self).col_info().added,
            final(self).col_info().removed == old(self).col_info().removed,
            ({
                let b0 = old(self).blob(index.0 as usize as int);
                let b1 = final(self).blob(index.0 as usize as int);
                let fresh = old(self).col_info().info.tick_info > 0 && tick_at(b0.spec_ticks(), row.0 as int) < tick.0;
                &&& b1.spec_blob() == b0.spec_blob()
                &&& forall|r: int| #[trigger] tick_at(b1.spec_ticks(), r) == if r == row.0 && fresh {
                    tick.0
                } else {
                    tick_at(b0.spec_ticks(), r)
                }
                &&& fresh ==> match old(self).col_info().changed {
                    Some(v) => final(self).col_info().changed matches Some(w) && w.wf() && w.spec_events()
                        == v.spec_events().push(e) && w.spec_reads() == v.spec_reads() && w.spec_name() == v.spec_name(),
                    None => final(self).col_info().changed is None,
                }
                &&& !fresh ==> final(self).col_info().changed == old(self).col_info().changed
            }),
    {
        let i = index.index();
        let mut b = BlobTicks::new();
        match self.blobs[i].take() {
            Some(old_b) => {
                b = old_b;
            },
            None => {},
        }
        proof {
            assert(old(self).has(i as int));
        }
        b.changed_tick(&mut self.info, e, row, tick);
        self.blobs.set(i, Some(b));
        proof {
            assert forall|x: int| #[trigger] self.has(x) implies self.blob(x).wf() by {
                if x != i {
                    assert(old(self).has(x));
                }
            }
        }
    }

    /// Moves rows between archetypes: copies, in order, each move's source
    /// row of the archetype at `src` over its destination row of the one at
    /// `dst`, with its tick for a tracked component. The source stays as it
    /// is.
    pub fn move_column(&mut self, src: ArchetypeIndex, dst: ArchetypeIndex, moves: &Vec<(Row, Row, Entity)>)
        requires
            old(self).wf(),
            old(self).has(src.0 as usize as int),
            old(self).has(dst.0 as usize as int),
            src.0 as usize != dst.0 as usize,
            copy_ok(old(self).blob(dst.0 as usize as int), old(self).blob(src.0 as usize as int), moves@),
            old(self).col_info().info.tick_info > 0 ==> tick_moves_ok(moves@),
        ensures
            column_moved(*old(self), *final(self), src, dst, moves@),
    {
        let si = src.index();
        let di = dst.index();
        let tick = self.info.is_tick();
        let mut d = BlobTicks::new();
        match self.blobs[di].take() {
            Some(b) => {
                d = b;
            },
            None => {},
        }
        proof {
            assert(old(self).has(di as int));
            assert(old(self).has(si as int));
        }
        match &self.blobs[si] {
            Some(sb) => {
                d.copy_rows_from(sb, moves, tick);
            },
            None => {},
        }
        self.blobs.set(di, Some(d));
        proof {
            assert forall|x: int| #[trigger] self.has(x) implies self.blob(x).wf() by {
                if x != di {
                    assert(old(self).has(x));
                }
            }
        }
    }

    /// Records the entities of `moves` as removed from the component, when
    /// someone listens for removals.
    pub fn remove_rows(&mut self, moves: &Vec<(Row, Row, Entity)>)
        requires
            old(self).col_info().removed matches Some(v) ==> v.wf(),
        ensures
            rows_removed(*old(self), *final(self), moves@),
    {
        match &mut self.info.removed {
            Some(record) => {
                let ghost e0 = record.spec_events();
                let mut k: usize = 0;
                while k < moves.len()
                    invariant
                        0 <= k <= moves@.len(),
                        record.wf(),
                        record.spec_events() == e0 + moves@.subrange(0, k as int).map_values(
                            |m: (Row, Row, Entity)| m.2,
                        ),
                        record.spec_reads() == old(self).col_info().removed->0.spec_reads(),
                        record.spec_name() == old(self).col_info().removed->0.spec_name(),
                        e0 == old(self).col_info().removed->0.spec_events(),
                    decreases moves@.len() - k,
                {
                    let (_, _, e) = moves[k];
                    record.record(e);
                    proof {
                        assert(moves@.subrange(0, k + 1).map_values(|m: (Row, Row, Entity)| m.2) =~= moves@.subrange(
                            0,
                            k as int,
                        ).map_values(|m: (Row, Row, Entity)| m.2).push(e));
                    }
                    k = k + 1;
                }
                proof {
                    assert(moves@.subrange(0, moves@.len() as int) == moves@);
                }
            },
            None => {},
        }
    }

    /// Compacts the rows of the archetype at `index` after removals: applies
    /// the moves of `action` in order (each copies row `src`, and for a
    /// tracked component its tick, over row `dst`), then settles the blob to
    /// the first `len` rows with room for `additional` more, keeping the
    /// ticks of those rows. A component of size zero has nothing to move.
    pub fn settle_by_index(&mut self, index: ArchetypeIndex, len: usize, additional: usize, action: &Vec<(Row, Row)>)
        requires
            old(self).wf(),
            old(self).has(index.0 as usize as int),
            old(self).col_info().info.mem_size > 0 ==> {
                &&& moves_ok(old(self).blob(index.0 as usize as int), action@)
                &&& settle_ok(old(self).blob(index.0 as usize as int), len, additional)
                &&& old(self).col_info().info.tick_info > 0 ==> tick_rows_ok(action@)
            },
        ensures
            final(self).wf(),
            final(self).col_info() == old(self).col_info(),
            final(self).spec_last_len() == old(self).spec_last_len(),
            forall|i: int| final(self).has(i) == old(self).has(i),
            forall|i: int| i != index.0 as usize as int && old(self).has(i) ==> final(self).blob(i) == old(self).blob(i),
            ({
                let i = index.0 as usize as int;
                let b0 = old(self).blob(i);
                let b1 = final(self).blob(i);
                if old(self).col_info().info.mem_size == 0 {
                    b1 == b0
                } else {
                    &&& exists|mid: BlobTicks| #[trigger] rows_moved(b0, mid, action@) && rows_settled(mid, b1, len, additional)
                    &&& b1.spec_capacity() >= len
                    &&& forall|r: int| 0 <= r < len ==> #[trigger] b1.spec_row(r) == moved_row(b0, action@, r) && b1.spec_held(r)
                    &&& old(self).col_info().info.tick_info > 0 ==> forall|r: int| #[trigger] tick_at(b1.spec_ticks(), r)
                        == if r < len {
                        moved_tick(b0.spec_ticks(), action@, r)
                    } else {
                        0
                    }
                    &&& old(self).col_info().info.tick_info == 0 ==> b1.spec_ticks() == b0.spec_ticks()
                }
            }),
    {
        if self.info.info.size() == 0 {
            return;
        }
        let i = index.index();
        let tick = self.info.is_tick();
        let mut b = BlobTicks::new();
        match self.blobs[i].take() {
            Some(old_b) => {
                b = old_b;
            },
            None => {},
        }
        proof {
            assert(old(self).has(i as int));
        }
        let ghost b0 = b;
        b.move_rows(action, tick);
        let ghost mid = b;
        b.settle_rows(len, additional, tick);
        proof {
            lemma_settled_keeps(mid, b, len, additional);
            assert(rows_moved(b0, mid, action@) && rows_settled(mid, b, len, additional));
            assert forall|r: int| 0 <= r < len implies #[trigger] b.spec_row(r) == moved_row(b0, action@, r) && b.spec_held(r) by {
                assert(b.spec_row(r) == mid.spec_row(r));
                assert(mid.spec_row(r) == moved_row(b0, action@, r));
            }
        }
        self.blobs.set(i, Some(b));
        proof {
            assert forall|x: int| #[trigger] self.has(x) implies self.blob(x).wf() by {
                if x != i {
                    assert(old(self).has(x));
                }
            }
        }
    }
}

} // verus!
