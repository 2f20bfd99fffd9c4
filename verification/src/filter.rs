//! Query filters on component types.
use crate::archetype::Row;
use crate::column::{tick_at, BlobTicks};
use crate::world::Tick;
use std::marker::PhantomData;
use vstd::prelude::*;

verus! {

/// Keeps the archetypes without the component `T`.
pub struct Without<T>(pub PhantomData<T>);

/// Keeps the archetypes with the component `T`.
pub struct With<T>(pub PhantomData<T>);

/// Keeps the rows whose component `T` changed since the system last ran.
pub struct Changed<T>(pub PhantomData<T>);

/// Keeps what any of the filters of `T` keeps.
pub struct Or<T>(pub PhantomData<T>);

impl<T> Changed<T> {
    /// Whether the row is filtered out: its tick is not past `last_run`.
    /// An archetype without the column filters out every row.
    pub fn filter(ticks: Option<&BlobTicks>, row: Row, last_run: Tick) -> (r: bool)
        ensures
            r == match ticks {
                Some(t) => tick_at(t.spec_ticks(), row.0 as int) <= last_run.0,
                None => true,
            },
    {
        match ticks {
            Some(t) => t.get_tick_unchecked(row).0 <= last_run.0,
            None => true,
        }
    }
}

/// A row changed after a system last ran is kept by `Changed::filter`:
/// once `changed_tick` has recorded `tick` for a tracked row (so its tick is
/// at least `tick`), the filter, which drops the rows whose tick is not past
/// `last_run`, keeps the row for every `last_run` before `tick`; and a row
/// whose tick is not past `last_run` is dropped.
pub proof fn lemma_changed_row_kept(before: Map<nat, u32>, after: Map<nat, u32>, row: Row, tick: Tick, last_run: Tick)
    requires
        forall|r: int| #[trigger] tick_at(after, r) == if r == row.0 && tick_at(before, r) < tick.0 {
            tick.0
        } else {
            tick_at(before, r)
        },
        last_run.0 < tick.0,
    ensures
        tick_at(after, row.0 as int) >= tick.0,
        !(tick_at(after, row.0 as int) <= last_run.0),
{
    assert(tick_at(after, row.0 as int) == tick_at(after, row.0 as int));
}

} // verus!
