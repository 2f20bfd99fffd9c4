//! Altering the components of entities: for each source archetype that a
//! query matches, the mapping to the archetype its entities move to (which
//! columns are added, moved and removed) and the rows marked to move; and
//! the state that finds those mappings and moves the marked rows between
//! the columns.
use crate::archetype::{
    alter_adding, alter_keeps, alter_moving, alter_removing, components_digest, keys, lists_exactly, ops_sorted, Archetype,
    ArchetypeIndex, ArchetypeInfo, Row,
};
use crate::column::{column_moved, copy_ok, rows_removed, tick_moves_ok, Column};
use crate::world::{ComponentIndex, Entity};
use vstd::prelude::*;

verus! {

/// The place of an archetype among the archetypes that a query matches;
/// `usize::MAX` stands for none.
#[derive(Clone, Copy, PartialEq, Eq, Structural, Debug)]
pub struct LocalIndex(pub usize);

impl LocalIndex {
    pub fn null() -> (r: LocalIndex)
        ensures
            r.0 == usize::MAX,
    {
        LocalIndex(usize::MAX)
    }

    pub fn is_null(&self) -> (r: bool)
        ensures
            r == (self.0 == usize::MAX),
    {
        self.0 == usize::MAX
    }

    pub fn index(&self) -> (r: usize)
        ensures
            r == self.0,
    {
        self.0
    }
}

/// Where the entities of a source archetype go: the target archetype (none
/// yet while the target index is null), where the target's added, moved
/// and removed columns lie in the lists of the state, and the rows marked to
/// move, as `(source row, target row, entity)`.
pub struct ArchetypeMapping {
    pub src: ArchetypeIndex,
    pub dst: ArchetypeIndex,
    pub dst_index: ArchetypeIndex,
    pub add_indexs: std::ops::Range<usize>,
    pub move_indexs: std::ops::Range<usize>,
    pub removed_indexs: std::ops::Range<usize>,
    pub moves: Vec<(Row, Row, Entity)>,
}

impl ArchetypeMapping {
    /// The mapping of `src`, with no target found yet and no row marked.
    pub fn new(src: ArchetypeIndex, dst: ArchetypeIndex) -> (r: ArchetypeMapping)
        ensures
            r.src == src,
            r.dst == dst,
            r.dst_index.0 == -1,
            r.add_indexs.start == 0 && r.add_indexs.end == 0,
            r.move_indexs.start == 0 && r.move_indexs.end == 0,
            r.removed_indexs.start == 0 && r.removed_indexs.end == 0,
            r.moves@.len() == 0,
    {
        ArchetypeMapping {
            src,
            dst,
            dst_index: ArchetypeIndex(-1),
            move_indexs: 0..0,
            add_indexs: 0..0,
            removed_indexs: 0..0,
            moves: Vec::new(),
        }
    }

    /// Marks the row `src_row` of entity `e` to move to `dst_row`; the first
    /// row marked puts the mapping (at `ar_index`) among the changed ones.
    pub fn push(
        &mut self,
        src_row: Row,
        dst_row: Row,
        e: Entity,
        ar_index: LocalIndex,
        mapping_dirtys: &mut Vec<LocalIndex>,
    )
        ensures
            final(self).moves@ == old(self).moves@.push((src_row, dst_row, e)),
            final(self).src == old(self).src,
            final(self).dst == old(self).dst,
            final(self).dst_index == old(self).dst_index,
            final(self).add_indexs == old(self).add_indexs,
            final(self).move_indexs == old(self).move_indexs,
            final(self).removed_indexs == old(self).removed_indexs,
            final(mapping_dirtys)@ == if old(self).moves@.len() == 0 {
                old(mapping_dirtys)@.push(ar_index)
            } else {
                old(mapping_dirtys)@
            },
    {
        self.moves.push((src_row, dst_row, e));
        if self.moves.len() == 1 {
            mapping_dirtys.push(ar_index);
        }
    }

    /// Sets the target archetype, once the world has found it.
    pub fn set_dst(&mut self, dst: ArchetypeIndex)
        ensures
            final(self).dst == dst,
            final(self).dst_index == dst,
            final(self).src == old(self).src,
            final(self).add_indexs == old(self).add_indexs,
            final(self).move_indexs == old(self).move_indexs,
            final(self).removed_indexs == old(self).removed_indexs,
            final(self).moves == old(self).moves,
    {
        self.dst = dst;
        self.dst_index = dst;
    }
}

/// `info` is the archetype that altering one with the components `cols` by
/// `ops` plans: the components it keeps, sorted, and the id they digest to.
pub open spec fn planned(info: ArchetypeInfo, cols: Seq<u32>, ops: Seq<(ComponentIndex, bool)>) -> bool {
    &&& lists_exactly(keys(info.sorted_components@), |x: u32| alter_keeps(cols, ops, x))
    &&& components_digest(info.id, info.sorted_components@)
}

/// The components of `lists` between `start` and `end`.
pub open spec fn listed(lists: Seq<ComponentIndex>, r: std::ops::Range<usize>) -> Seq<ComponentIndex> {
    lists.subrange(r.start as int, r.end as int)
}

/// Some component of `l` is the one of column `c`.
pub open spec fn lists_column(l: Seq<ComponentIndex>, c: int) -> bool {
    exists|k: int| 0 <= k < l.len() && (#[trigger] l[k]).0 as int == c
}

/// `columns` holds a column for each component of `lists` between `start`
/// and `end`, each listed once, that has both archetypes, which differ, and
/// whose source rows cover the moves.
pub open spec fn move_ready(
    columns: Seq<Column>,
    lists: Seq<ComponentIndex>,
    r: std::ops::Range<usize>,
    src: ArchetypeIndex,
    dst: ArchetypeIndex,
    moves: Seq<(Row, Row, Entity)>,
) -> bool {
    &&& r.start <= r.end <= lists.len()
    &&& listed(lists, r).no_duplicates()
    &&& src.0 as usize != dst.0 as usize
    &&& forall|k: int|
        0 <= k < listed(lists, r).len() ==> {
            let c = (#[trigger] listed(lists, r)[k]).0 as int;
            &&& c < columns.len()
            &&& columns[c].has(src.0 as usize as int)
            &&& columns[c].has(dst.0 as usize as int)
            &&& columns[c].wf()
            &&& copy_ok(columns[c].blob(dst.0 as usize as int), columns[c].blob(src.0 as usize as int), moves)
            &&& columns[c].col_info().info.tick_info > 0 ==> tick_moves_ok(moves)
        }
}

/// `columns` holds a column for each component of `lists` between `start`
/// and `end`, each listed once, whose removal records are well formed.
pub open spec fn remove_ready(columns: Seq<Column>, lists: Seq<ComponentIndex>, r: std::ops::Range<usize>) -> bool {
    &&& r.start <= r.end <= lists.len()
    &&& listed(lists, r).no_duplicates()
    &&& forall|k: int|
        0 <= k < listed(lists, r).len() ==> {
            let c = (#[trigger] listed(lists, r)[k]).0 as int;
            &&& c < columns.len()
            &&& columns[c].col_info().removed matches Some(v) ==> v.wf()
        }
}

/// The state of an alteration: for each matched archetype, by archetype
/// index counted from the first one, its place among the mappings; the
/// components to add (`true`) or remove (`false`), sorted; and the columns
/// that the mappings add, move and remove, each mapping's in a range.
pub struct AState {
    map: Vec<LocalIndex>,
    map_start: usize,
    sorted_add_removes: Vec<(ComponentIndex, bool)>,
    adding: Vec<ComponentIndex>,
    moving: Vec<ComponentIndex>,
    removing: Vec<ComponentIndex>,
}

impl AState {
    pub closed spec fn spec_map(&self) -> Seq<LocalIndex> {
        self.map@
    }

    pub closed spec fn spec_map_start(&self) -> usize {
        self.map_start
    }

    pub closed spec fn spec_ops(&self) -> Seq<(ComponentIndex, bool)> {
        self.sorted_add_removes@
    }

    pub closed spec fn spec_adding(&self) -> Seq<ComponentIndex> {
        self.adding@
    }

    pub closed spec fn spec_moving(&self) -> Seq<ComponentIndex> {
        self.moving@
    }

    pub closed spec fn spec_removing(&self) -> Seq<ComponentIndex> {
        self.removing@
    }

    /// A state for the given operations, with no mapping yet.
    pub fn new(sorted_add_removes: Vec<(ComponentIndex, bool)>) -> (r: AState)
        ensures
            r.spec_map().len() == 0,
            r.spec_map_start() == 0,
            r.spec_ops() == sorted_add_removes@,
            r.spec_adding().len() == 0,
            r.spec_moving().len() == 0,
            r.spec_removing().len() == 0,
    {
        AState {
            map: Vec::new(),
            map_start: 0,
            sorted_add_removes,
            adding: Vec::new(),
            moving: Vec::new(),
            removing: Vec::new(),
        }
    }

    /// Records that the archetype at `index` has the mapping at `len`; the
    /// first mapping (`len` zero) fixes the archetype that the places are
    /// counted from. Places skipped over are none.
    pub fn push_map(&mut self, index: ArchetypeIndex, len: usize)
        requires
            index.0 >= 0,
            len != 0 ==> index.0 >= old(self).spec_map_start(),
            (index.0 as usize - (if len == 0 { index.0 as usize } else { old(self).spec_map_start() })) + 1 <= usize::MAX,
        ensures
            ({
                let start = if len == 0 { index.0 as usize } else { old(self).spec_map_start() };
                let i = index.0 as usize - start;
                let m0 = old(self).spec_map();
                let m1 = final(self).spec_map();
                &&& final(self).spec_map_start() == start
                &&& m1.len() == if i < m0.len() { m0.len() } else { (i + 1) as nat }
                &&& forall|j: int|
                    0 <= j < m1.len() ==> #[trigger] m1[j] == if j == i {
                        LocalIndex(len)
                    } else if j < m0.len() {
                        m0[j]
                    } else {
                        LocalIndex(usize::MAX)
                    }
            }),
            final(self).spec_ops() == old(self).spec_ops(),
            final(self).spec_adding() == old(self).spec_adding(),
            final(self).spec_moving() == old(self).spec_moving(),
            final(self).spec_removing() == old(self).spec_removing(),
    {
        if len == 0 {
            self.map_start = index.index();
        }
        let i = index.index() - self.map_start;
        while self.map.len() <= i
            invariant
                self.map_start == (if len == 0 { index.0 as usize } else { old(self).spec_map_start() }),
                self.sorted_add_removes == old(self).sorted_add_removes,
                self.adding == old(self).adding,
                self.moving == old(self).moving,
                self.removing == old(self).removing,
                old(self).map@.len() <= self.map@.len(),
                self.map@.len() <= i + 1 || self.map@.len() == old(self).map@.len(),
                forall|j: int| 0 <= j < old(self).map@.len() ==> #[trigger] self.map@[j] == old(self).map@[j],
                forall|j: int| old(self).map@.len() <= j < self.map@.len() ==> #[trigger] self.map@[j] == LocalIndex(usize::MAX),
            decreases i + 1 - self.map@.len(),
        {
            self.map.push(LocalIndex::null());
        }
        self.map.set(i, LocalIndex(len));
    }

    /// The place of the archetype at `index` among the mappings, if the
    /// state has it: none when the archetype is not one that the query
    /// matches.
    pub fn check(&self, index: ArchetypeIndex) -> (r: Option<LocalIndex>)
        ensures
            ({
                let i = (index.0 as usize).wrapping_sub(self.spec_map_start());
                r == if i < self.spec_map().len() && self.spec_map()[i as int].0 != usize::MAX {
                    Some(self.spec_map()[i as int])
                } else {
                    None
                }
            }),
    {
        let i = index.index().wrapping_sub(self.map_start);
        if i < self.map.len() && !self.map[i].is_null() {
            Some(self.map[i])
        } else {
            None
        }
    }

    /// Moves the marked rows of `am` in each column that the mapping moves,
    /// from its source archetype to its target.
    pub fn move_columns(&self, am: &ArchetypeMapping, columns: &mut Vec<Column>)
        requires
            move_ready(old(columns)@, self.spec_moving(), am.move_indexs, am.src, am.dst, am.moves@),
        ensures
            final(columns)@.len() == old(columns)@.len(),
            forall|c: int|
                0 <= c < old(columns)@.len() ==> if lists_column(listed(self.spec_moving(), am.move_indexs), c) {
                    column_moved(old(columns)@[c], final(columns)@[c], am.src, am.dst, am.moves@)
                } else {
                    final(columns)@[c] == old(columns)@[c]
                },
    {
        let ghost l = listed(self.spec_moving(), am.move_indexs);
        let mut k = am.move_indexs.start;
        while k < am.move_indexs.end
            invariant
                am.move_indexs.start <= k <= am.move_indexs.end,
                l == listed(self.spec_moving(), am.move_indexs),
                move_ready(old(columns)@, self.spec_moving(), am.move_indexs, am.src, am.dst, am.moves@),
                columns@.len() == old(columns)@.len(),
                forall|c: int|
                    0 <= c < old(columns)@.len() ==> if lists_column(l.subrange(0, k - am.move_indexs.start), c) {
                        column_moved(old(columns)@[c], columns@[c], am.src, am.dst, am.moves@)
                    } else {
                        columns@[c] == old(columns)@[c]
                    },
            decreases am.move_indexs.end - k,
        {
            let j = k - am.move_indexs.start;
            let c = self.moving[k].index();
            proof {
                assert(l[j as int] == self.moving@[k as int]);
                assert(l.subrange(0, j + 1) == l.subrange(0, j as int).push(l[j as int]));
                assert(!lists_column(l.subrange(0, j as int), c as int)) by {
                    if lists_column(l.subrange(0, j as int), c as int) {
                        let q = choose|q: int| 0 <= q < j && (#[trigger] l.subrange(0, j as int)[q]).0 as int == c as int;
                        assert(l[q] == l[j as int]);
                    }
                }
                assert(columns@[c as int] == old(columns)@[c as int]);
            }
            let ghost before = columns@;
            columns[c].move_column(am.src, am.dst, &am.moves);
            proof {
                assert forall|x: int| 0 <= x < old(columns)@.len() implies if lists_column(l.subrange(0, j + 1), x) {
                    column_moved(old(columns)@[x], columns@[x], am.src, am.dst, am.moves@)
                } else {
                    columns@[x] == old(columns)@[x]
                } by {
                    if x != c {
                        assert(columns@[x] == before[x]);
                        if lists_column(l.subrange(0, j + 1), x) {
                            let q = choose|q: int| 0 <= q < j + 1 && (#[trigger] l.subrange(0, j + 1)[q]).0 as int == x;
                            assert(q != j);
                            assert(l.subrange(0, j as int)[q] == l.subrange(0, j + 1)[q]);
                        }
                        if lists_column(l.subrange(0, j as int), x) {
                            let q = choose|q: int| 0 <= q < j && (#[trigger] l.subrange(0, j as int)[q]).0 as int == x;
                            assert(l.subrange(0, j + 1)[q] == l.subrange(0, j as int)[q]);
                        }
                    } else {
                        assert(l.subrange(0, j + 1)[j as int].0 as int == x);
                    }
                }
            }
            k = k + 1;
        }
        proof {
            assert(l.subrange(0, (am.move_indexs.end - am.move_indexs.start) as int) == l);
        }
    }

    /// Records the marked entities of `am` as removed in each column that
    /// the mapping removes.
    pub fn remove_columns(&self, am: &ArchetypeMapping, columns: &mut Vec<Column>)
        requires
            remove_ready(old(columns)@, self.spec_removing(), am.removed_indexs),
        ensures
            final(columns)@.len() == old(columns)@.len(),
            forall|c: int|
                0 <= c < old(columns)@.len() ==> if lists_column(listed(self.spec_removing(), am.removed_indexs), c) {
                    rows_removed(old(columns)@[c], final(columns)@[c], am.moves@)
                } else {
                    final(columns)@[c] == old(columns)@[c]
                },
    {
        let ghost l = listed(self.spec_removing(), am.removed_indexs);
        let mut k = am.removed_indexs.start;
        while k < am.removed_indexs.end
            invariant
                am.removed_indexs.start <= k <= am.removed_indexs.end,
                l == listed(self.spec_removing(), am.removed_indexs),
                remove_ready(old(columns)@, self.spec_removing(), am.removed_indexs),
                columns@.len() == old(columns)@.len(),
                forall|c: int|
                    0 <= c < old(columns)@.len() ==> if lists_column(l.subrange(0, k - am.removed_indexs.start), c) {
                        rows_removed(old(columns)@[c], columns@[c], am.moves@)
                    } else {
                        columns@[c] == old(columns)@[c]
                    },
            decreases am.removed_indexs.end - k,
        {
            let j = k - am.removed_indexs.start;
            let c = self.removing[k].index();
            proof {
                assert(l[j as int] == self.removing@[k as int]);
                assert(l.subrange(0, j + 1) == l.subrange(0, j as int).push(l[j as int]));
                assert(!lists_column(l.subrange(0, j as int), c as int)) by {
                    if lists_column(l.subrange(0, j as int), c as int) {
                        let q = choose|q: int| 0 <= q < j && (#[trigger] l.subrange(0, j as int)[q]).0 as int == c as int;
                        assert(l[q] == l[j as int]);
                    }
                }
                assert(columns@[c as int] == old(columns)@[c as int]);
            }
            let ghost before = columns@;
            columns[c].remove_rows(&am.moves);
            proof {
                assert forall|x: int| 0 <= x < old(columns)@.len() implies if lists_column(l.subrange(0, j + 1), x) {
                    rows_removed(old(columns)@[x], columns@[x], am.moves@)
                } else {
                    columns@[x] == old(columns)@[x]
                } by {
                    if x != c {
                        assert(columns@[x] == before[x]);
                        if lists_column(l.subrange(0, j + 1), x) {
                            let q = choose|q: int| 0 <= q < j + 1 && (#[trigger] l.subrange(0, j + 1)[q]).0 as int == x;
                            assert(q != j);
                            assert(l.subrange(0, j as int)[q] == l.subrange(0, j + 1)[q]);
                        }
                        if lists_column(l.subrange(0, j as int), x) {
                            let q = choose|q: int| 0 <= q < j && (#[trigger] l.subrange(0, j as int)[q]).0 as int == x;
                            assert(l.subrange(0, j + 1)[q] == l.subrange(0, j as int)[q]);
                        }
                    } else {
                        assert(l.subrange(0, j + 1)[j as int].0 as int == x);
                    }
                }
            }
            k = k + 1;
        }
        proof {
            assert(l.subrange(0, (am.removed_indexs.end - am.removed_indexs.start) as int) == l);
        }
    }

    /// Finds where the entities of `src` go, unless the mapping knows it:
    /// plans the alteration of `src` by the state's operations, appends the
    /// target's added, moved and removed columns to the state's lists and
    /// records their ranges in the mapping. When the plan keeps `src` as it
    /// is (the same id), the target is `src` itself; otherwise the world's
    /// `find_archetype` finds or makes the planned archetype, and the
    /// mapping records it. Returns whether the mapping was new, and whether
    /// its target differs from `src`.
    pub fn find_mapping<F: Fn(&ArchetypeInfo) -> ArchetypeIndex>(
        &mut self,
        src: &Archetype,
        mapping: &mut ArchetypeMapping,
        existed_adding_is_move: bool,
        find_archetype: F,
    ) -> (r: (bool, bool))
        requires
            src.wf(),
            src.spec_index().0 >= 0,
            ops_sorted(old(self).spec_ops()),
            forall|info: &ArchetypeInfo| #[trigger] call_requires(find_archetype, (info,)),
            forall|info: &ArchetypeInfo, d: ArchetypeIndex| #[trigger] call_ensures(find_archetype, (info,), d) ==> d.0 >= 0,
        ensures
            final(self).spec_ops() == old(self).spec_ops(),
            final(self).spec_map() == old(self).spec_map(),
            final(self).spec_map_start() == old(self).spec_map_start(),
            final(mapping).src == old(mapping).src,
            final(mapping).moves == old(mapping).moves,
            old(mapping).dst_index.0 != -1 ==> r == (false, false) && *final(mapping) == *old(mapping)
                && final(self).spec_adding() == old(self).spec_adding() && final(self).spec_moving() == old(self).spec_moving()
                && final(self).spec_removing() == old(self).spec_removing(),
            old(mapping).dst_index.0 == -1 ==> {
                let cols = src.column_keys();
                let ops = old(self).spec_ops();
                let mv = existed_adding_is_move;
                &&& r.0
                &&& final(mapping).dst_index.0 >= 0
                &&& final(mapping).dst == final(mapping).dst_index
                &&& final(self).spec_adding().subrange(0, old(self).spec_adding().len() as int) == old(self).spec_adding()
                &&& final(self).spec_moving().subrange(0, old(self).spec_moving().len() as int) == old(self).spec_moving()
                &&& final(self).spec_removing().subrange(0, old(self).spec_removing().len() as int) == old(
                    self,
                ).spec_removing()
                &&& final(mapping).add_indexs.start == old(self).spec_adding().len()
                &&& final(mapping).add_indexs.end == final(self).spec_adding().len()
                &&& final(mapping).move_indexs.start == old(self).spec_moving().len()
                &&& final(mapping).move_indexs.end == final(self).spec_moving().len()
                &&& final(mapping).removed_indexs.start == old(self).spec_removing().len()
                &&& final(mapping).removed_indexs.end == final(self).spec_removing().len()
                &&& lists_exactly(
                    keys(listed(final(self).spec_adding(), final(mapping).add_indexs)),
                    |x: u32| alter_adding(cols, ops, mv, x),
                )
                &&& lists_exactly(
                    keys(listed(final(self).spec_moving(), final(mapping).move_indexs)),
                    |x: u32| alter_moving(cols, ops, mv, x),
                )
                &&& lists_exactly(
                    keys(listed(final(self).spec_removing(), final(mapping).removed_indexs)),
                    |x: u32| alter_removing(cols, ops, x),
                )
                &&& exists|info: ArchetypeInfo|
                    #[trigger] planned(info, cols, ops) && (r.1 <==> info.id != src.spec_id()) && if r.1 {
                        call_ensures(find_archetype, (&info,), final(mapping).dst)
                    } else {
                        final(mapping).dst == src.spec_index()
                    }
            },
    {
        if mapping.dst_index.0 != -1 {
            return (false, false);
        }
        let add_start = self.adding.len();
        let move_start = self.moving.len();
        let removing_start = self.removing.len();
        let info = src.alter(
            self.sorted_add_removes.as_slice(),
            &mut self.adding,
            &mut self.moving,
            &mut self.removing,
            existed_adding_is_move,
        );
        mapping.add_indexs = add_start..self.adding.len();
        mapping.move_indexs = move_start..self.moving.len();
        mapping.removed_indexs = removing_start..self.removing.len();
        if info.id == src.id() {
            mapping.dst = src.index();
            mapping.dst_index = src.index();
            assert(planned(info, src.column_keys(), self.sorted_add_removes@));
            return (true, false);
        }
        let dst = find_archetype(&info);
        mapping.dst = dst;
        mapping.dst_index = dst;
        assert(planned(info, src.column_keys(), self.sorted_add_removes@));
        (true, true)
    }
}

} // verus!
