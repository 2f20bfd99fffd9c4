//! Archetypes: the sets of component types that entities share, the plan of
//! columns when an archetype gains or loses components, and the read/write
//! dependencies that systems declare on archetypes.
use crate::world::ComponentIndex;
use std::collections::hash_map::DefaultHasher;
use std::hash::Hash;
use std::hash::Hasher;
use vstd::std_specs::hash::DefaultHasherAdditionalSpecFns;
use vstd::prelude::*;
use vstd::string::StringExecFns;

verus! {

/// The position of a column in an archetype's table.
pub type ColumnIndex = u32;

/// The tick information of a component whose changes are tracked.
pub const COMPONENT_TICK: u8 = 1;

/// A row of an archetype's table.
#[derive(Clone, Copy, Debug, PartialEq, Eq, Structural, Hash, Default)]
pub struct Row(pub u32);

impl Row {
    pub fn index(&self) -> (r: usize)
        ensures
            r == self.0,
    {
        self.0 as usize
    }

    pub fn null() -> (r: Row)
        ensures
            r.0 == u32::MAX,
    {
        Row(u32::MAX)
    }

    pub fn is_null(&self) -> (r: bool)
        ensures
            r == (self.0 == u32::MAX),
    {
        self.0 == u32::MAX
    }
}

impl From<u32> for Row {
    fn from(index: u32) -> (r: Row) {
        Row(index)
    }
}

impl vstd::std_specs::convert::FromSpecImpl<u32> for Row {
    open spec fn obeys_from_spec() -> bool {
        true
    }

    open spec fn from_spec(index: u32) -> Row {
        Row(index)
    }
}

impl From<usize> for Row {
    /// Keeps the low 32 bits of the index.
    fn from(index: usize) -> (r: Row) {
        Row(index as u32)
    }
}

impl vstd::std_specs::convert::FromSpecImpl<usize> for Row {
    open spec fn obeys_from_spec() -> bool {
        true
    }

    open spec fn from_spec(index: usize) -> Row {
        Row(index as u32)
    }
}

/// The position of an archetype in the world; the null index is `-1`.
#[derive(Clone, Copy, Debug, PartialEq, Eq, Structural, Hash, Default)]
pub struct ArchetypeIndex(pub i32);

impl ArchetypeIndex {
    pub fn index(&self) -> (r: usize)
        ensures
            r == self.0 as usize,
    {
        self.0 as usize
    }

    pub fn null() -> (r: ArchetypeIndex)
        ensures
            r.0 == -1,
    {
        ArchetypeIndex(-1)
    }

    pub fn is_null(&self) -> (r: bool)
        ensures
            r == (self.0 == -1),
    {
        self.0 == -1
    }
}

impl From<u32> for ArchetypeIndex {
    fn from(index: u32) -> (r: ArchetypeIndex) {
        ArchetypeIndex(index as i32)
    }
}

impl vstd::std_specs::convert::FromSpecImpl<u32> for ArchetypeIndex {
    open spec fn obeys_from_spec() -> bool {
        true
    }

    open spec fn from_spec(index: u32) -> ArchetypeIndex {
        ArchetypeIndex(index as i32)
    }
}

impl From<usize> for ArchetypeIndex {
    fn from(index: usize) -> (r: ArchetypeIndex) {
        ArchetypeIndex(index as i32)
    }
}

impl vstd::std_specs::convert::FromSpecImpl<usize> for ArchetypeIndex {
    open spec fn obeys_from_spec() -> bool {
        true
    }

    open spec fn from_spec(index: usize) -> ArchetypeIndex {
        ArchetypeIndex(index as i32)
    }
}

/// The kinds of access that a system declares on an archetype, a component
/// or a resource, as a set of bits; the associated constants name the bits.
#[derive(Clone, Copy, Debug, PartialEq, Eq, Structural, Hash)]
pub struct Flags(pub u32);

impl Flags {
    /// Excludes the archetype or component.
    pub const WITHOUT: u32 = 0b000000001;
    /// Optional, together with a read or a write.
    pub const OPTION: u32 = 0b000000010;
    /// Reads the component or resource.
    pub const READ: u32 = 0b000000100;
    /// Writes the component or resource.
    pub const WRITE: u32 = 0b000001000;
    /// Moved to another archetype by an alteration; may come after reads.
    pub const MOVE: u32 = 0b000010000;
    /// Creates and destroys entities and edits all their components.
    pub const ENTITY_EDIT: u32 = 0b000100000;
    /// Shared write of a multiple resource.
    pub const SHARE_WRITE: u32 = 0b001000000;
    /// Reads the world.
    pub const WORLD_READ: u32 = 0b010000000;
    /// Writes the world.
    pub const WORLD_WRITE: u32 = 0b100000000;

    pub fn from_bits(bits: u32) -> (r: Flags)
        ensures
            r.0 == bits,
    {
        Flags(bits)
    }

    pub fn empty() -> (r: Flags)
        ensures
            r.0 == 0,
    {
        Flags(0)
    }

    pub fn bits(&self) -> (r: u32)
        ensures
            r == self.0,
    {
        self.0
    }

    /// All the bits of `other` are set.
    pub fn contains(&self, other: Flags) -> (r: bool)
        ensures
            r == (self.0 & other.0 == other.0),
    {
        self.0 & other.0 == other.0
    }

    pub fn is_empty(&self) -> (r: bool)
        ensures
            r == (self.0 == 0),
    {
        self.0 == 0
    }

    pub fn union(self, other: Flags) -> (r: Flags)
        ensures
            r.0 == self.0 | other.0,
    {
        Flags(self.0 | other.0)
    }

    /// Adds the bits of `other`.
    pub fn insert(&mut self, other: Flags)
        ensures
            final(self).0 == old(self).0 | other.0,
    {
        self.0 = self.0 | other.0;
    }
}

/// The component numbers of a list of component indices.
pub open spec fn keys(s: Seq<ComponentIndex>) -> Seq<u32> {
    s.map_values(|c: ComponentIndex| c.0)
}

/// `s` is strictly increasing.
pub open spec fn strictly_sorted(s: Seq<u32>) -> bool {
    forall|i: int, j: int| 0 <= i < j < s.len() ==> s[i] < s[j]
}

/// The operations are sorted by component, ascending.
pub open spec fn ops_sorted(ops: Seq<(ComponentIndex, bool)>) -> bool {
    forall|i: int, j: int| 0 <= i <= j < ops.len() ==> ops[i].0.0 <= ops[j].0.0
}

/// Operation `i` takes effect: it is the first one on its component.
pub open spec fn op_effective(ops: Seq<(ComponentIndex, bool)>, i: int) -> bool {
    &&& 0 <= i < ops.len()
    &&& (i == 0 || ops[i].0.0 != ops[i - 1].0.0)
}

/// The component `x` is added.
pub open spec fn op_adds(ops: Seq<(ComponentIndex, bool)>, x: u32) -> bool {
    exists|i: int| #[trigger] op_effective(ops, i) && ops[i].0.0 == x && ops[i].1
}

/// The component `x` is removed.
pub open spec fn op_removes(ops: Seq<(ComponentIndex, bool)>, x: u32) -> bool {
    exists|i: int| #[trigger] op_effective(ops, i) && ops[i].0.0 == x && !ops[i].1
}

/// `x` is a component of the altered archetype.
pub open spec fn alter_keeps(cols: Seq<u32>, ops: Seq<(ComponentIndex, bool)>, x: u32) -> bool {
    (cols.contains(x) && !op_removes(ops, x)) || op_adds(ops, x)
}

/// `x` is a column that the alteration adds: a new one, or one the archetype
/// had when that does not count as a move.
pub open spec fn alter_adding(cols: Seq<u32>, ops: Seq<(ComponentIndex, bool)>, mv: bool, x: u32) -> bool {
    op_adds(ops, x) && (!cols.contains(x) || !mv)
}

/// `x` is a column that moves over unchanged.
pub open spec fn alter_moving(cols: Seq<u32>, ops: Seq<(ComponentIndex, bool)>, mv: bool, x: u32) -> bool {
    cols.contains(x) && ((!op_adds(ops, x) && !op_removes(ops, x)) || (op_adds(ops, x) && mv))
}

/// `x` is a column that the alteration drops.
pub open spec fn alter_removing(cols: Seq<u32>, ops: Seq<(ComponentIndex, bool)>, x: u32) -> bool {
    cols.contains(x) && op_removes(ops, x)
}

/// `s` lists, in increasing order, exactly the numbers that satisfy `p`.
pub open spec fn lists_exactly(s: Seq<u32>, p: spec_fn(u32) -> bool) -> bool {
    &&& strictly_sorted(s)
    &&& forall|x: u32| #![trigger s.contains(x)] #![trigger p(x)] s.contains(x) <==> p(x)
}

/// `s` lists, in increasing order, exactly the numbers up to `f` that
/// satisfy `p`.
pub open spec fn lists_upto(s: Seq<u32>, p: spec_fn(u32) -> bool, f: int) -> bool {
    &&& strictly_sorted(s)
    &&& forall|x: u32| #![trigger s.contains(x)] #![trigger p(x)] s.contains(x) <==> (x <= f && p(x))
}

/// Moving the bound from `f` to `g`, where `y` is the only number in
/// between that may satisfy `p`, pushing `y` when it does.
proof fn lemma_lists_advance(s: Seq<u32>, p: spec_fn(u32) -> bool, f: int, g: int, y: u32)
    requires
        lists_upto(s, p, f),
        f < y <= g,
        forall|x: u32| f < x <= g && x != y ==> !#[trigger] p(x),
    ensures
        p(y) ==> lists_upto(s.push(y), p, g),
        !p(y) ==> lists_upto(s, p, g),
{
    if p(y) {
        let t = s.push(y);
        assert forall|i: int, j: int| 0 <= i < j < t.len() implies t[i] < t[j] by {
            if j == s.len() {
                assert(t[i] == s[i]);
                assert(s.contains(s[i]));
            } else {
                assert(t[i] == s[i] && t[j] == s[j]);
            }
        }
        assert forall|x: u32| t.contains(x) <==> (x <= g && p(x)) by {
            if t.contains(x) {
                let k = choose|k: int| 0 <= k < t.len() && t[k] == x;
                if k < s.len() {
                    assert(s.contains(s[k]));
                }
            }
            if x <= g && p(x) {
                if x == y {
                    assert(t[s.len() as int] == x);
                } else {
                    assert(s.contains(x));
                    let k = choose|k: int| 0 <= k < s.len() && s[k] == x;
                    assert(t[k] == x);
                }
            }
        }
    }
}

/// Two effective operations on one component are the same operation.
proof fn lemma_effective_unique(ops: Seq<(ComponentIndex, bool)>, i: int, j: int)
    requires
        ops_sorted(ops),
        op_effective(ops, i),
        op_effective(ops, j),
        ops[i].0.0 == ops[j].0.0,
    ensures
        i == j,
{
    if i < j {
        assert(ops[i].0.0 <= ops[j - 1].0.0);
    } else if j < i {
        assert(ops[j].0.0 <= ops[i - 1].0.0);
    }
}

/// The four lists of an alteration, each complete up to `f`.
pub open spec fn alter_lists(
    cols: Seq<u32>,
    ops: Seq<(ComponentIndex, bool)>,
    mv: bool,
    r: Seq<u32>,
    a: Seq<u32>,
    m: Seq<u32>,
    d: Seq<u32>,
    f: int,
) -> bool {
    &&& lists_upto(r, |x: u32| alter_keeps(cols, ops, x), f)
    &&& lists_upto(a, |x: u32| alter_adding(cols, ops, mv, x), f)
    &&& lists_upto(m, |x: u32| alter_moving(cols, ops, mv, x), f)
    &&& lists_upto(d, |x: u32| alter_removing(cols, ops, x), f)
}

/// No operation takes effect on `x`.
pub open spec fn untouched(ops: Seq<(ComponentIndex, bool)>, x: u32) -> bool {
    !op_adds(ops, x) && !op_removes(ops, x)
}

/// A column that no operation touches moves over.
proof fn lemma_alter_col(
    cols: Seq<u32>,
    ops: Seq<(ComponentIndex, bool)>,
    mv: bool,
    r: Seq<u32>,
    a: Seq<u32>,
    m: Seq<u32>,
    d: Seq<u32>,
    g: int,
    c: u32,
)
    requires
        alter_lists(cols, ops, mv, r, a, m, d, g),
        g < c,
        cols.contains(c),
        untouched(ops, c),
        forall|x: u32| g < x < c ==> !cols.contains(x) && #[trigger] untouched(ops, x),
    ensures
        alter_lists(cols, ops, mv, r.push(c), a, m.push(c), d, c as int),
{
    let pk = |x: u32| alter_keeps(cols, ops, x);
    let pa = |x: u32| alter_adding(cols, ops, mv, x);
    let pm = |x: u32| alter_moving(cols, ops, mv, x);
    let pd = |x: u32| alter_removing(cols, ops, x);
    assert forall|x: u32| #![trigger pk(x)] #![trigger pa(x)] #![trigger pm(x)] #![trigger pd(x)] g < x <= c && x != c implies !pk(x) && !pa(x) && !pm(x) && !pd(x) by {
        assert(untouched(ops, x));
    }
    lemma_lists_advance(r, pk, g, c as int, c);
    lemma_lists_advance(a, pa, g, c as int, c);
    lemma_lists_advance(m, pm, g, c as int, c);
    lemma_lists_advance(d, pd, g, c as int, c);
}

/// The component of an effective operation goes to the lists that the
/// operation and the archetype's own columns call for.
proof fn lemma_alter_key(
    cols: Seq<u32>,
    ops: Seq<(ComponentIndex, bool)>,
    mv: bool,
    r: Seq<u32>,
    a: Seq<u32>,
    m: Seq<u32>,
    d: Seq<u32>,
    g: int,
    k: u32,
    add: bool,
)
    requires
        alter_lists(cols, ops, mv, r, a, m, d, g),
        g < k,
        op_adds(ops, k) == add,
        op_removes(ops, k) == !add,
        forall|x: u32| g < x < k ==> !cols.contains(x) && #[trigger] untouched(ops, x),
    ensures
        alter_lists(
            cols,
            ops,
            mv,
            if add { r.push(k) } else { r },
            if add && (!cols.contains(k) || !mv) { a.push(k) } else { a },
            if add && cols.contains(k) && mv { m.push(k) } else { m },
            if !add && cols.contains(k) { d.push(k) } else { d },
            k as int,
        ),
{
    let pk = |x: u32| alter_keeps(cols, ops, x);
    let pa = |x: u32| alter_adding(cols, ops, mv, x);
    let pm = |x: u32| alter_moving(cols, ops, mv, x);
    let pd = |x: u32| alter_removing(cols, ops, x);
    assert forall|x: u32| #![trigger pk(x)] #![trigger pa(x)] #![trigger pm(x)] #![trigger pd(x)] g < x <= k && x != k implies !pk(x) && !pa(x) && !pm(x) && !pd(x) by {
        assert(untouched(ops, x));
    }
    lemma_lists_advance(r, pk, g, k as int, k);
    lemma_lists_advance(a, pa, g, k as int, k);
    lemma_lists_advance(m, pm, g, k as int, k);
    lemma_lists_advance(d, pd, g, k as int, k);
}

/// Past the last column and the last effective operation, the lists are
/// complete.
proof fn lemma_alter_done(
    cols: Seq<u32>,
    ops: Seq<(ComponentIndex, bool)>,
    mv: bool,
    r: Seq<u32>,
    a: Seq<u32>,
    m: Seq<u32>,
    d: Seq<u32>,
    g: int,
)
    requires
        alter_lists(cols, ops, mv, r, a, m, d, g),
        forall|x: u32| g < x ==> !cols.contains(x) && #[trigger] untouched(ops, x),
    ensures
        lists_exactly(r, |x: u32| alter_keeps(cols, ops, x)),
        lists_exactly(a, |x: u32| alter_adding(cols, ops, mv, x)),
        lists_exactly(m, |x: u32| alter_moving(cols, ops, mv, x)),
        lists_exactly(d, |x: u32| alter_removing(cols, ops, x)),
{
    assert forall|x: u32| #![trigger alter_keeps(cols, ops, x)] #![trigger alter_adding(cols, ops, mv, x)] #![trigger alter_moving(cols, ops, mv, x)] #![trigger alter_removing(cols, ops, x)] g < x implies !alter_keeps(cols, ops, x) && !alter_adding(cols, ops, mv, x)
        && !alter_moving(cols, ops, mv, x) && !alter_removing(cols, ops, x) by {
        assert(untouched(ops, x));
    }
}

/// An effective operation after position `p` is on a larger component than
/// the operation before `p`.
proof fn lemma_effective_after(ops: Seq<(ComponentIndex, bool)>, p: int, i: int)
    requires
        ops_sorted(ops),
        0 < p <= i,
        op_effective(ops, i),
    ensures
        ops[i].0.0 > ops[p - 1].0.0,
{
    assert(ops[p - 1].0.0 <= ops[i - 1].0.0);
}

/// The four bytes of `x`, least significant first.
pub open spec fn u32_le_bytes(x: u32) -> Seq<u8> {
    seq![(x % 256) as u8, ((x / 256) % 256) as u8, ((x / 65536) % 256) as u8, ((x / 16777216) % 256) as u8]
}

/// The four bytes of `x`, most significant first.
pub open spec fn u32_be_bytes(x: u32) -> Seq<u8> {
    seq![((x / 16777216) % 256) as u8, ((x / 65536) % 256) as u8, ((x / 256) % 256) as u8, (x % 256) as u8]
}

/// The bytes that hashing `x` writes: those of `x` in the machine's byte
/// order, one of the two.
pub open spec fn u32_hash_write(w: Seq<u8>, x: u32) -> bool {
    w == u32_le_bytes(x) || w == u32_be_bytes(x)
}

/// `id` is the digest of hashing the indices of `cs`, in order, into a new
/// `DefaultHasher`.
pub open spec fn components_digest(id: u64, cs: Seq<ComponentIndex>) -> bool {
    exists|s: Seq<Seq<u8>>|
        #[trigger] DefaultHasher::spec_finish(s) == id && s.len() == cs.len() && forall|i: int|
            0 <= i < s.len() ==> u32_hash_write(#[trigger] s[i], cs[i].0)
}

/// `<u32 as Hash>::hash` on a `DefaultHasher`: `Hasher::write_u32`, which
/// makes one `write` of the four bytes of `x` in the machine's byte order.
/// Which of the two orders the machine has is left unsaid.
#[verifier::external_body]
fn feed_u32(h: &mut DefaultHasher, x: u32)
    ensures
        final(h)@.len() == old(h)@.len() + 1,
        final(h)@.subrange(0, old(h)@.len() as int) == old(h)@,
        u32_hash_write(final(h)@.last(), x),
{
    x.hash(h)
}

/// The component columns of an archetype to be, sorted by component, and
/// the archetype's id, a digest of those components.
pub struct ArchetypeInfo {
    pub id: u64,
    pub sorted_components: Vec<ComponentIndex>,
}

impl ArchetypeInfo {
    /// Keeps the sorted components and hashes their indices, in order, into
    /// the id.
    pub fn new(sorted_components: Vec<ComponentIndex>) -> (r: ArchetypeInfo)
        ensures
            r.sorted_components@ == sorted_components@,
            components_digest(r.id, sorted_components@),
    {
        let mut hasher = DefaultHasher::new();
        let mut i: usize = 0;
        while i < sorted_components.len()
            invariant
                0 <= i <= sorted_components.len(),
                hasher@.len() == i,
                forall|j: int| 0 <= j < i ==> u32_hash_write(#[trigger] hasher@[j], sorted_components@[j].0),
            decreases sorted_components.len() - i,
        {
            let ghost h0 = hasher@;
            feed_u32(&mut hasher, sorted_components[i].0);
            proof {
                assert forall|j: int| 0 <= j < i + 1 implies u32_hash_write(#[trigger] hasher@[j], sorted_components@[j].0) by {
                    if j < i {
                        assert(hasher@[j] == hasher@.subrange(0, i as int)[j]);
                    }
                }
            }
            i = i + 1;
        }
        let id = hasher.finish();
        proof {
            assert(DefaultHasher::spec_finish(hasher@) == id);
        }
        ArchetypeInfo { id, sorted_components }
    }
}

/// An archetype: its id and name, its component columns sorted by
/// component, its position in the world and whether the execution graph has
/// taken it in.
pub struct Archetype {
    id: u64,
    name: String,
    columns: Vec<ComponentIndex>,
    index: ArchetypeIndex,
    ready: bool,
}

impl Archetype {
    /// The components of the columns, in order.
    pub closed spec fn column_keys(&self) -> Seq<u32> {
        keys(self.columns@)
    }

    pub closed spec fn spec_index(&self) -> ArchetypeIndex {
        self.index
    }

    pub closed spec fn spec_id(&self) -> u64 {
        self.id
    }

    pub closed spec fn spec_name(&self) -> Seq<char> {
        self.name@
    }

    pub closed spec fn spec_ready(&self) -> bool {
        self.ready
    }

    /// The columns are sorted by component, without repetition.
    pub open spec fn wf(&self) -> bool {
        strictly_sorted(self.column_keys())
    }

    /// An archetype with the columns and id of `info` and the given name,
    /// not yet placed in the world and not ready.
    pub fn with_name(info: ArchetypeInfo, name: String) -> (r: Archetype)
        requires
            strictly_sorted(keys(info.sorted_components@)),
        ensures
            r.wf(),
            r.column_keys() == keys(info.sorted_components@),
            r.spec_id() == info.id,
            r.spec_name() == name@,
            r.spec_index().0 == -1,
            !r.spec_ready(),
    {
        Archetype { id: info.id, name, columns: info.sorted_components, index: ArchetypeIndex(-1), ready: false }
    }

    pub fn set_index(&mut self, index: ArchetypeIndex)
        ensures
            final(self).spec_index() == index,
            final(self).column_keys() == old(self).column_keys(),
            final(self).spec_id() == old(self).spec_id(),
            final(self).spec_name() == old(self).spec_name(),
            final(self).spec_ready() == old(self).spec_ready(),
    {
        self.index = index;
    }

    pub fn index(&self) -> (r: ArchetypeIndex)
        ensures
            r == self.spec_index(),
    {
        self.index
    }

    pub fn ready(&self) -> (r: bool)
        ensures
            r == self.spec_ready(),
    {
        self.ready
    }

    pub fn set_ready(&mut self, ready: bool)
        ensures
            final(self).spec_ready() == ready,
            final(self).spec_index() == old(self).spec_index(),
            final(self).column_keys() == old(self).column_keys(),
            final(self).spec_id() == old(self).spec_id(),
            final(self).spec_name() == old(self).spec_name(),
    {
        self.ready = ready;
    }

    pub fn id(&self) -> (r: u64)
        ensures
            r == self.spec_id(),
    {
        self.id
    }

    pub fn name(&self) -> (r: &str)
        ensures
            r@ == self.spec_name(),
    {
        self.name.as_str()
    }

    pub fn column_len(&self) -> (r: usize)
        ensures
            r == self.column_keys().len(),
    {
        self.columns.len()
    }

    pub fn is_empty_columns(&self) -> (r: bool)
        ensures
            r == (self.column_keys().len() == 0),
    {
        self.columns.len() == 0
    }

    /// The components of the columns, in order.
    pub fn get_columns(&self) -> (r: &Vec<ComponentIndex>)
        ensures
            keys(r@) == self.column_keys(),
    {
        &self.columns
    }

    /// Plans the archetype that this one becomes when the components of
    /// `sorted_add_removes` (sorted by component) are added (`true`) or
    /// removed (`false`); of several operations on one component only the
    /// first counts. Appends to `adding` the columns that the new archetype
    /// gets (a column this one has counts as moved instead when
    /// `existed_adding_is_move`), to `moving` those that carry over, and to
    /// `removing` those that are dropped; each list is sorted. Returns the
    /// new archetype's columns, sorted.
    pub fn alter(
        &self,
        sorted_add_removes: &[(ComponentIndex, bool)],
        adding: &mut Vec<ComponentIndex>,
        moving: &mut Vec<ComponentIndex>,
        removing: &mut Vec<ComponentIndex>,
        existed_adding_is_move: bool,
    ) -> (r: ArchetypeInfo)
        requires
            self.wf(),
            ops_sorted(sorted_add_removes@),
        ensures
            lists_exactly(keys(r.sorted_components@), |x: u32| alter_keeps(self.column_keys(), sorted_add_removes@, x)),
            components_digest(r.id, r.sorted_components@),
            final(adding)@.subrange(0, old(adding)@.len() as int) == old(adding)@,
            final(moving)@.subrange(0, old(moving)@.len() as int) == old(moving)@,
            final(removing)@.subrange(0, old(removing)@.len() as int) == old(removing)@,
            lists_exactly(
                keys(final(adding)@.subrange(old(adding)@.len() as int, final(adding)@.len() as int)),
                |x: u32| alter_adding(self.column_keys(), sorted_add_removes@, existed_adding_is_move, x),
            ),
            lists_exactly(
                keys(final(moving)@.subrange(old(moving)@.len() as int, final(moving)@.len() as int)),
                |x: u32| alter_moving(self.column_keys(), sorted_add_removes@, existed_adding_is_move, x),
            ),
            lists_exactly(
                keys(final(removing)@.subrange(old(removing)@.len() as int, final(removing)@.len() as int)),
                |x: u32| alter_removing(self.column_keys(), sorted_add_removes@, x),
            ),
    {
        let ghost cols = self.column_keys();
        let ghost ops = sorted_add_removes@;
        let ghost mv = existed_adding_is_move;
        let ghost a0 = adding@;
        let ghost m0 = moving@;
        let ghost d0 = removing@;
        let mut result: Vec<ComponentIndex> = Vec::new();
        let len = self.columns.len();
        let n = sorted_add_removes.len();
        let mut column_index: usize = 0;
        let mut pre_index: u32 = u32::MAX;
        let mut p: usize = 0;
        let ghost mut f: int = -1;
        proof {
            assert(alter_lists(cols, ops, mv, keys(result@), keys(adding@.subrange(a0.len() as int, adding@.len() as int)),
                keys(moving@.subrange(m0.len() as int, moving@.len() as int)),
                keys(removing@.subrange(d0.len() as int, removing@.len() as int)), f));
        }
        while p < n
            invariant
                cols == self.column_keys(),
                strictly_sorted(cols),
                len == cols.len(),
                ops == sorted_add_removes@,
                n == ops.len(),
                mv == existed_adding_is_move,
                ops_sorted(ops),
                0 <= p <= n,
                0 <= column_index <= len,
                f >= -1,
                forall|j: int| 0 <= j < column_index ==> cols[j] <= f,
                forall|j: int| column_index <= j < len ==> cols[j] > f,
                p == 0 ==> pre_index == u32::MAX,
                p > 0 ==> pre_index == ops[p - 1].0.0,
                f == -1 || (p > 0 && f == ops[p - 1].0.0),
                forall|i: int| 0 <= i < p && #[trigger] op_effective(ops, i) ==> ops[i].0.0 <= f,
                adding@.subrange(0, a0.len() as int) == a0,
                moving@.subrange(0, m0.len() as int) == m0,
                removing@.subrange(0, d0.len() as int) == d0,
                a0.len() <= adding@.len(),
                m0.len() <= moving@.len(),
                d0.len() <= removing@.len(),
                alter_lists(cols, ops, mv, keys(result@), keys(adding@.subrange(a0.len() as int, adding@.len() as int)),
                    keys(moving@.subrange(m0.len() as int, moving@.len() as int)),
                    keys(removing@.subrange(d0.len() as int, removing@.len() as int)), f),
            decreases n - p,
        {
            let (index, add) = sorted_add_removes[p];
            if p > 0 && pre_index == index.0 {
                proof {
                    assert(!op_effective(ops, p as int));
                }
                p = p + 1;
                continue;
            }
            pre_index = index.0;
            let k = index.0;
            proof {
                assert(op_effective(ops, p as int));
                assert(k > f) by {
                    if f != -1 {
                        lemma_effective_after(ops, p as int, p as int);
                    }
                }
            }
            let ghost mut g: int = f;
            while column_index < len && self.columns[column_index].0 < k
                invariant
                    cols == self.column_keys(),
                    strictly_sorted(cols),
                    len == cols.len(),
                    ops == sorted_add_removes@,
                    ops_sorted(ops),
                    0 <= p < n,
                    k == ops[p as int].0.0,
                    op_effective(ops, p as int),
                    f < k,
                    f <= g < k,
                    0 <= column_index <= len,
                    forall|j: int| 0 <= j < column_index ==> cols[j] <= g,
                    forall|j: int| column_index <= j < len ==> cols[j] > g,
                    forall|i: int| 0 <= i < p && #[trigger] op_effective(ops, i) ==> ops[i].0.0 <= f,
                    adding@.subrange(0, a0.len() as int) == a0,
                    moving@.subrange(0, m0.len() as int) == m0,
                    removing@.subrange(0, d0.len() as int) == d0,
                    a0.len() <= adding@.len(),
                    m0.len() <= moving@.len(),
                    d0.len() <= removing@.len(),
                    alter_lists(cols, ops, mv, keys(result@), keys(adding@.subrange(a0.len() as int, adding@.len() as int)),
                        keys(moving@.subrange(m0.len() as int, moving@.len() as int)),
                        keys(removing@.subrange(d0.len() as int, removing@.len() as int)), g),
                decreases len - column_index,
            {
                let c = self.columns[column_index];
                let ghost r1 = keys(result@);
                let ghost m1 = keys(moving@.subrange(m0.len() as int, moving@.len() as int));
                proof {
                    assert(cols[column_index as int] == c.0);
                    assert(cols.contains(c.0));
                    self.lemma_gap_untouched(ops, p as int, f, k, c.0);
                    assert forall|x: u32| g < x < c.0 implies !cols.contains(x) && #[trigger] untouched(ops, x) by {
                        self.lemma_gap_untouched(ops, p as int, f, k, x);
                        if cols.contains(x) {
                            let j = choose|j: int| 0 <= j < cols.len() && cols[j] == x;
                            if j < column_index {
                            } else if j > column_index {
                                assert(cols[column_index as int] < cols[j]);
                            }
                        }
                    }
                    lemma_alter_col(cols, ops, mv, r1, keys(adding@.subrange(a0.len() as int, adding@.len() as int)), m1,
                        keys(removing@.subrange(d0.len() as int, removing@.len() as int)), g, c.0);
                }
                moving.push(c);
                result.push(c);
                proof {
                    assert(keys(result@) == r1.push(c.0));
                    assert(moving@.subrange(0, m0.len() as int) == m0);
                    assert(keys(moving@.subrange(m0.len() as int, moving@.len() as int)) == m1.push(c.0));
                    g = c.0 as int;
                    assert forall|j: int| column_index + 1 <= j < len implies cols[j] > g by {
                        assert(cols[column_index as int] < cols[j]);
                    }
                }
                column_index = column_index + 1;
            }
            let ghost r1 = keys(result@);
            let ghost a1 = keys(adding@.subrange(a0.len() as int, adding@.len() as int));
            let ghost m1 = keys(moving@.subrange(m0.len() as int, moving@.len() as int));
            let ghost d1 = keys(removing@.subrange(d0.len() as int, removing@.len() as int));
            let matched = column_index < len && self.columns[column_index].0 == k;
            proof {
                self.lemma_key_ops(ops, p as int);
                assert(matched == cols.contains(k)) by {
                    if cols.contains(k) {
                        let j = choose|j: int| 0 <= j < cols.len() && cols[j] == k;
                        if j < column_index {
                        } else if j > column_index {
                            assert(cols[column_index as int] < cols[j]);
                        }
                    }
                }
                assert forall|x: u32| g < x < k implies !cols.contains(x) && #[trigger] untouched(ops, x) by {
                    self.lemma_gap_untouched(ops, p as int, f, k, x);
                    if cols.contains(x) {
                        let j = choose|j: int| 0 <= j < cols.len() && cols[j] == x;
                        if j < column_index {
                        } else if j > column_index {
                            assert(cols[column_index as int] < cols[j]);
                        }
                    }
                }
                lemma_alter_key(cols, ops, mv, r1, a1, m1, d1, g, k, add);
            }
            let ghost aa = adding@;
            let ghost mm = moving@;
            let ghost dd = removing@;
            let ghost rr = result@;
            if matched {
                let c = self.columns[column_index];
                assert(c.0 == k);
                if add {
                    if existed_adding_is_move {
                        moving.push(c);
                        proof {
                            lemma_keys_push_tail(mm, m0.len() as int, c);
                        }
                    } else {
                        adding.push(c);
                        proof {
                            assert(adding@ == aa.push(c));
                            lemma_keys_push_tail(aa, a0.len() as int, c);
                        }
                    }
                    result.push(c);
                    proof {
                        lemma_keys_push_tail(rr, 0, c);
                    }
                } else {
                    removing.push(c);
                    proof {
                        lemma_keys_push_tail(dd, d0.len() as int, c);
                    }
                }
                column_index = column_index + 1;
            } else if add {
                adding.push(index);
                result.push(index);
                proof {
                    assert(adding@ == aa.push(index));
                    lemma_keys_push_tail(aa, a0.len() as int, index);
                    lemma_keys_push_tail(rr, 0, index);
                }
            }
            proof {
                assert(rr.subrange(0, rr.len() as int) == rr);
                assert(result@.subrange(0, result@.len() as int) == result@);
            }
            proof {
                assert(adding@.subrange(0, a0.len() as int) == a0);
                assert(moving@.subrange(0, m0.len() as int) == m0);
                assert(removing@.subrange(0, d0.len() as int) == d0);
                assert(keys(result@) == if add { r1.push(k) } else { r1 });
                if add && (!cols.contains(k) || !mv) {
                    assert(adding@ == aa.push(ComponentIndex(k)));
                    assert(keys(adding@.subrange(a0.len() as int, adding@.len() as int)) == a1.push(k));
                } else {
                    assert(adding@ == aa);
                    assert(keys(adding@.subrange(a0.len() as int, adding@.len() as int)) == a1);
                }
                assert(keys(adding@.subrange(a0.len() as int, adding@.len() as int)) == if add && (!cols.contains(k) || !mv) {
                    a1.push(k) } else { a1 });
                assert(keys(moving@.subrange(m0.len() as int, moving@.len() as int)) == if add && cols.contains(k) && mv {
                    m1.push(k) } else { m1 });
                assert(keys(removing@.subrange(d0.len() as int, removing@.len() as int)) == if !add && cols.contains(k) {
                    d1.push(k) } else { d1 });
                f = k as int;
                assert forall|j: int| column_index <= j < len implies cols[j] > f by {
                    if matched {
                        assert(cols[column_index - 1] < cols[j]);
                    }
                }
                assert forall|i: int| 0 <= i < p + 1 && #[trigger] op_effective(ops, i) implies ops[i].0.0 <= f by {
                    if i == p {
                    } else {
                        assert(ops[i].0.0 <= ops[p as int].0.0);
                    }
                }
            }
            p = p + 1;
        }
        let ghost g0 = f;
        let ghost mut g: int = f;
        while column_index < len
            invariant
                cols == self.column_keys(),
                strictly_sorted(cols),
                len == cols.len(),
                ops == sorted_add_removes@,
                n == ops.len(),
                mv == existed_adding_is_move,
                ops_sorted(ops),
                g0 <= g,
                0 <= column_index <= len,
                forall|j: int| 0 <= j < column_index ==> cols[j] <= g,
                forall|j: int| column_index <= j < len ==> cols[j] > g,
                forall|i: int| 0 <= i < n && #[trigger] op_effective(ops, i) ==> ops[i].0.0 <= g0,
                adding@.subrange(0, a0.len() as int) == a0,
                moving@.subrange(0, m0.len() as int) == m0,
                removing@.subrange(0, d0.len() as int) == d0,
                a0.len() <= adding@.len(),
                m0.len() <= moving@.len(),
                d0.len() <= removing@.len(),
                alter_lists(cols, ops, mv, keys(result@), keys(adding@.subrange(a0.len() as int, adding@.len() as int)),
                    keys(moving@.subrange(m0.len() as int, moving@.len() as int)),
                    keys(removing@.subrange(d0.len() as int, removing@.len() as int)), g),
            decreases len - column_index,
        {
            let c = self.columns[column_index];
            let ghost r1 = keys(result@);
            let ghost m1 = keys(moving@.subrange(m0.len() as int, moving@.len() as int));
            proof {
                assert(cols[column_index as int] == c.0);
                assert(cols.contains(c.0));
                lemma_beyond_untouched(ops, g0, c.0);
                assert forall|x: u32| g < x < c.0 implies !cols.contains(x) && #[trigger] untouched(ops, x) by {
                    lemma_beyond_untouched(ops, g0, x);
                    if cols.contains(x) {
                        let j = choose|j: int| 0 <= j < cols.len() && cols[j] == x;
                        if j > column_index {
                            assert(cols[column_index as int] < cols[j]);
                        }
                    }
                }
                lemma_alter_col(cols, ops, mv, r1, keys(adding@.subrange(a0.len() as int, adding@.len() as int)), m1,
                    keys(removing@.subrange(d0.len() as int, removing@.len() as int)), g, c.0);
            }
            moving.push(c);
            result.push(c);
            proof {
                assert(keys(result@) == r1.push(c.0));
                assert(moving@.subrange(0, m0.len() as int) == m0);
                assert(keys(moving@.subrange(m0.len() as int, moving@.len() as int)) == m1.push(c.0));
                g = c.0 as int;
                assert forall|j: int| column_index + 1 <= j < len implies cols[j] > g by {
                    assert(cols[column_index as int] < cols[j]);
                }
            }
            column_index = column_index + 1;
        }
        proof {
            assert forall|x: u32| g < x implies !cols.contains(x) && #[trigger] untouched(ops, x) by {
                lemma_beyond_untouched(ops, g0, x);
                if cols.contains(x) {
                    let j = choose|j: int| 0 <= j < cols.len() && cols[j] == x;
                }
            }
            lemma_alter_done(cols, ops, mv, keys(result@), keys(adding@.subrange(a0.len() as int, adding@.len() as int)),
                keys(moving@.subrange(m0.len() as int, moving@.len() as int)),
                keys(removing@.subrange(d0.len() as int, removing@.len() as int)), g);
        }
        ArchetypeInfo::new(result)
    }

    /// A component strictly between the previous bound and the key of the
    /// operation at `p` is touched by no operation.
    proof fn lemma_gap_untouched(&self, ops: Seq<(ComponentIndex, bool)>, p: int, f: int, k: u32, x: u32)
        requires
            ops_sorted(ops),
            0 <= p < ops.len(),
            op_effective(ops, p),
            k == ops[p].0.0,
            forall|i: int| 0 <= i < p && #[trigger] op_effective(ops, i) ==> ops[i].0.0 <= f,
            f < x < k,
        ensures
            untouched(ops, x),
    {
        assert forall|i: int| #[trigger] op_effective(ops, i) implies ops[i].0.0 != x by {
            if i > p {
                lemma_effective_after(ops, p + 1, i);
            }
        }
    }

    /// The effective operation at `p` decides alone whether its component is
    /// added or removed.
    proof fn lemma_key_ops(&self, ops: Seq<(ComponentIndex, bool)>, p: int)
        requires
            ops_sorted(ops),
            op_effective(ops, p),
        ensures
            op_adds(ops, ops[p].0.0) == ops[p].1,
            op_removes(ops, ops[p].0.0) == !ops[p].1,
    {
        let k = ops[p].0.0;
        if op_adds(ops, k) {
            let i = choose|i: int| #[trigger] op_effective(ops, i) && ops[i].0.0 == k && ops[i].1;
            lemma_effective_unique(ops, i, p);
        }
        if op_removes(ops, k) {
            let i = choose|i: int| #[trigger] op_effective(ops, i) && ops[i].0.0 == k && !ops[i].1;
            lemma_effective_unique(ops, i, p);
        }
    }
}

/// Past every effective operation's component, nothing is touched.
proof fn lemma_beyond_untouched(ops: Seq<(ComponentIndex, bool)>, g0: int, x: u32)
    requires
        forall|i: int| 0 <= i < ops.len() && #[trigger] op_effective(ops, i) ==> ops[i].0.0 <= g0,
        g0 < x,
    ensures
        untouched(ops, x),
{
}

/// Pushing onto a list extends its tail from `start` by the pushed
/// component.
proof fn lemma_keys_push_tail(s: Seq<ComponentIndex>, start: int, x: ComponentIndex)
    requires
        0 <= start <= s.len(),
    ensures
        keys(s.push(x).subrange(start, s.len() as int + 1)) == keys(s.subrange(start, s.len() as int)).push(x.0),
        s.push(x).subrange(0, start) == s.subrange(0, start),
{
    assert(s.push(x).subrange(start, s.len() as int + 1) =~= s.subrange(start, s.len() as int).push(x));
    assert(keys(s.push(x).subrange(start, s.len() as int + 1)) =~= keys(s.subrange(start, s.len() as int)).push(x.0));
    assert(s.push(x).subrange(0, start) =~= s.subrange(0, start));
}

/// There is only one sorted rearrangement of numbers: two sorted sequences
/// that hold each number equally often are the same. So what
/// `ArchetypeInfo::sort` gives is the components in increasing order, and
/// nothing else.
pub proof fn lemma_sorted_unique(a: Seq<u32>, b: Seq<u32>)
    requires
        forall|i: int, j: int| 0 <= i <= j < a.len() ==> a[i] <= a[j],
        forall|i: int, j: int| 0 <= i <= j < b.len() ==> b[i] <= b[j],
        a.to_multiset() == b.to_multiset(),
    ensures
        a == b,
    decreases a.len(),
{
    broadcast use vstd::seq_lib::group_to_multiset_ensures;

    assert(a.len() == a.to_multiset().len());
    assert(b.len() == b.to_multiset().len());
    if a.len() == 0 {
        assert(a =~= b);
    } else {
        assert(a.contains(a[0]));
        assert(b.to_multiset().count(a[0]) > 0);
        assert(b.contains(a[0]));
        let j = choose|j: int| 0 <= j < b.len() && b[j] == a[0];
        assert(b.contains(b[0]));
        assert(a.to_multiset().count(b[0]) > 0);
        assert(a.contains(b[0]));
        let i = choose|i: int| 0 <= i < a.len() && a[i] == b[0];
        assert(a[0] <= a[i] && b[0] <= b[j]);
        assert(a[0] == b[0]);
        vstd::seq_lib::to_multiset_remove(a, 0);
        vstd::seq_lib::to_multiset_remove(b, 0);
        assert(a.remove(0) =~= a.drop_first());
        assert(b.remove(0) =~= b.drop_first());
        let a1 = a.drop_first();
        let b1 = b.drop_first();
        assert forall|x: int, y: int| 0 <= x <= y < a1.len() implies a1[x] <= a1[y] by {
            assert(a1[x] == a[x + 1] && a1[y] == a[y + 1]);
        }
        assert forall|x: int, y: int| 0 <= x <= y < b1.len() implies b1[x] <= b1[y] by {
            assert(b1[x] == b[x + 1] && b1[y] == b[y + 1]);
        }
        lemma_sorted_unique(a1, b1);
        assert(a =~= b) by {
            assert forall|x: int| 0 <= x < a.len() implies a[x] == b[x] by {
                if x > 0 {
                    assert(a[x] == a1[x - 1] && b[x] == b1[x - 1]);
                }
            }
        }
    }
}

/// Sorts the numbers in increasing order, keeping each as often as it
/// occurs: each number in turn goes into the sorted ones before the first
/// larger one.
fn sort_u32(v: &mut Vec<u32>)
    ensures
        forall|i: int, j: int| 0 <= i <= j < final(v)@.len() ==> final(v)@[i] <= final(v)@[j],
        final(v)@.to_multiset() == old(v)@.to_multiset(),
{
    broadcast use vstd::seq_lib::group_to_multiset_ensures;

    let mut r: Vec<u32> = Vec::new();
    let mut k: usize = 0;
    while k < v.len()
        invariant
            0 <= k <= v@.len(),
            v@ == old(v)@,
            forall|i: int, j: int| 0 <= i <= j < r@.len() ==> r@[i] <= r@[j],
            r@.to_multiset() == v@.subrange(0, k as int).to_multiset(),
        decreases v@.len() - k,
    {
        let x = v[k];
        let mut p: usize = 0;
        while p < r.len() && r[p] <= x
            invariant
                0 <= p <= r@.len(),
                forall|q: int| 0 <= q < p ==> r@[q] <= x,
            decreases r@.len() - p,
        {
            p = p + 1;
        }
        let ghost r0 = r@;
        r.insert(p, x);
        proof {
            assert(v@.subrange(0, k + 1) =~= v@.subrange(0, k as int).push(x));
            vstd::seq_lib::to_multiset_insert(r0, p as int, x);
            vstd::seq_lib::to_multiset_build(v@.subrange(0, k as int), x);
            assert(r@.to_multiset() == r0.to_multiset().insert(x));
            assert(v@.subrange(0, k + 1).to_multiset() == v@.subrange(0, k as int).to_multiset().insert(x));
            assert forall|i: int, j: int| 0 <= i <= j < r@.len() implies r@[i] <= r@[j] by {
                if p < r0.len() {
                    assert(x < r0[p as int]);
                }
                if i < p as int && j > p as int {
                    assert(r@[i] == r0[i] && r@[j] == r0[j - 1]);
                } else if i == p as int && j > p as int {
                    assert(r@[j] == r0[j - 1]);
                    assert(r0[p as int] <= r0[j - 1]);
                } else if i < p as int && j == p as int {
                    assert(r@[i] == r0[i]);
                } else if i > p as int {
                    assert(r@[i] == r0[i - 1] && r@[j] == r0[j - 1]);
                } else if j < p as int {
                    assert(r@[i] == r0[i] && r@[j] == r0[j]);
                }
            }
        }
        k = k + 1;
    }
    proof {
        assert(v@.subrange(0, v@.len() as int) =~= v@);
    }
    *v = r;
}

/// The names joined with `+` between them.
pub open spec fn joined(names: Seq<Seq<char>>) -> Seq<char>
    decreases names.len(),
{
    if names.len() == 0 {
        Seq::empty()
    } else if names.len() == 1 {
        names[0]
    } else {
        joined(names.drop_last()) + seq!['+'] + names.last()
    }
}

/// What the world records of a component type: its type id and name, its
/// index in the world, its size in bytes and its tick information.
#[derive(Debug)]
pub struct ComponentInfo {
    pub type_id: u128,
    pub name: String,
    pub index: ComponentIndex,
    pub mem_size: u32,
    pub tick_info: u8,
}

impl ComponentInfo {
    /// A component type not yet registered: its index is null.
    pub fn create(type_id: u128, name: String, mem_size: u32, tick_info: u8) -> (r: ComponentInfo)
        ensures
            r.type_id == type_id,
            r.name == name,
            r.index.0 == u32::MAX,
            r.mem_size == mem_size,
            r.tick_info == tick_info,
    {
        ComponentInfo { type_id, name, index: ComponentIndex(u32::MAX), mem_size, tick_info }
    }

    pub fn type_id(&self) -> (r: u128)
        ensures
            r == self.type_id,
    {
        self.type_id
    }

    pub fn name(&self) -> (r: &str)
        ensures
            r@ == self.name@,
    {
        self.name.as_str()
    }

    pub fn size(&self) -> (r: usize)
        ensures
            r == self.mem_size,
    {
        self.mem_size as usize
    }

    /// The type id as a number.
    pub fn id(&self) -> (r: u128)
        ensures
            r == self.type_id,
    {
        self.type_id
    }

    pub fn is_tick(&self) -> (r: bool)
        ensures
            r == (self.tick_info > 0),
    {
        self.tick_info > 0
    }

    /// The exclusive or of the type ids.
    pub fn calc_id(vec: &Vec<ComponentInfo>) -> (r: u128)
        ensures
            r == xor_ids(vec@),
    {
        let mut id: u128 = 0;
        let mut i: usize = 0;
        while i < vec.len()
            invariant
                0 <= i <= vec.len(),
                id == xor_ids(vec@.subrange(0, i as int)),
            decreases vec.len() - i,
        {
            assert(vec@.subrange(0, i + 1).drop_last() == vec@.subrange(0, i as int));
            id = id ^ vec[i].type_id;
            i = i + 1;
        }
        assert(vec@.subrange(0, vec.len() as int) == vec@);
        id
    }
}

/// The exclusive or of the type ids of `v`.
pub open spec fn xor_ids(v: Seq<ComponentInfo>) -> u128
    decreases v.len(),
{
    if v.len() == 0 {
        0
    } else {
        xor_ids(v.drop_last()) ^ v.last().type_id
    }
}

/// The type names of the components, in order.
pub open spec fn component_names(cs: Seq<ComponentIndex>, infos: Seq<ComponentInfo>) -> Seq<Seq<char>> {
    cs.map_values(|c: ComponentIndex| infos[c.0 as int].name@)
}

impl ArchetypeInfo {
    /// Sorts the components and takes them as the archetype's.
    pub fn sort(components: Vec<ComponentIndex>) -> (r: ArchetypeInfo)
        ensures
            forall|i: int, j: int|
                0 <= i <= j < r.sorted_components@.len() ==> r.sorted_components@[i].0 <= r.sorted_components@[j].0,
            keys(r.sorted_components@).to_multiset() == keys(components@).to_multiset(),
            components_digest(r.id, r.sorted_components@),
    {
        let mut v: Vec<u32> = Vec::new();
        let mut i: usize = 0;
        while i < components.len()
            invariant
                0 <= i <= components.len(),
                v@ == keys(components@.subrange(0, i as int)),
            decreases components.len() - i,
        {
            v.push(components[i].0);
            i = i + 1;
            assert(v@ == keys(components@.subrange(0, i as int)));
        }
        assert(components@.subrange(0, components.len() as int) == components@);
        sort_u32(&mut v);
        let mut sorted: Vec<ComponentIndex> = Vec::new();
        let mut j: usize = 0;
        while j < v.len()
            invariant
                0 <= j <= v.len(),
                keys(sorted@) == v@.subrange(0, j as int),
            decreases v.len() - j,
        {
            let ghost s0 = sorted@;
            sorted.push(ComponentIndex(v[j]));
            proof {
                assert(keys(sorted@) =~= keys(s0).push(v@[j as int]));
                assert(v@.subrange(0, j + 1) =~= v@.subrange(0, j as int).push(v@[j as int]));
            }
            j = j + 1;
        }
        assert(v@.subrange(0, v.len() as int) == v@);
        let r = ArchetypeInfo::new(sorted);
        proof {
            assert forall|i: int, j: int| 0 <= i <= j < r.sorted_components@.len() implies r.sorted_components@[i].0
                <= r.sorted_components@[j].0 by {
                assert(keys(r.sorted_components@)[i] == r.sorted_components@[i].0);
                assert(keys(r.sorted_components@)[j] == r.sorted_components@[j].0);
            }
        }
        r
    }

    /// The type names of the components joined with `+`; `infos` holds the
    /// world's component types by index.
    pub fn name(&self, infos: &Vec<ComponentInfo>) -> (r: String)
        requires
            forall|i: int| 0 <= i < self.sorted_components@.len() ==> (#[trigger] self.sorted_components@[i]).0 < infos@.len(),
        ensures
            r@ == joined(component_names(self.sorted_components@, infos@)),
    {
        let ghost names = component_names(self.sorted_components@, infos@);
        let mut s = String::new();
        let mut i: usize = 0;
        while i < self.sorted_components.len()
            invariant
                0 <= i <= self.sorted_components@.len(),
                names == component_names(self.sorted_components@, infos@),
                forall|j: int| 0 <= j < self.sorted_components@.len() ==> (#[trigger] self.sorted_components@[j]).0 < infos@.len(),
                s@ == joined(names.subrange(0, i as int)),
            decreases self.sorted_components@.len() - i,
        {
            let c = self.sorted_components[i].0 as usize;
            if i > 0 {
                let plus = "+";
                proof {
                    reveal_strlit("+");
                }
                s.append(plus);
            }
            s.append(infos[c].name.as_str());
            proof {
                let sub = names.subrange(0, i + 1);
                assert(sub.drop_last() == names.subrange(0, i as int));
                assert(sub.last() == infos@[c as int].name@);
                if i == 0 {
                    assert(sub.len() == 1);
                }
            }
            i = i + 1;
        }
        assert(names.subrange(0, self.sorted_components@.len() as int) == names);
        s
    }
}

impl Archetype {
    /// An archetype with the columns and id of `info`, named after its
    /// components; `infos` holds the world's component types by index.
    pub fn new(info: ArchetypeInfo, infos: &Vec<ComponentInfo>) -> (r: Archetype)
        requires
            strictly_sorted(keys(info.sorted_components@)),
            forall|i: int| 0 <= i < info.sorted_components@.len() ==> (#[trigger] info.sorted_components@[i]).0 < infos@.len(),
        ensures
            r.wf(),
            r.column_keys() == keys(info.sorted_components@),
            r.spec_id() == info.id,
            r.spec_name() == joined(component_names(info.sorted_components@, infos@)),
            r.spec_index().0 == -1,
            !r.spec_ready(),
    {
        let name = info.name(infos);
        Archetype::with_name(info, name)
    }
}

/// What a system declares on an archetype: access flags, or that it alters
/// the archetype into the one with the given id, name and components.
pub enum ArchetypeDepend {
    Flag(Flags),
    Alter((u128, String, Vec<ComponentInfo>)),
}

/// The dependencies gathered for one archetype: the union of the flags, the
/// components read and written, and the alterations.
pub struct ArchetypeDependResult {
    pub flag: Flags,
    pub reads: Vec<ComponentIndex>,
    pub writes: Vec<ComponentIndex>,
    pub alters: Vec<(u128, String, Vec<ComponentInfo>)>,
}

impl ArchetypeDependResult {
    pub fn new() -> (r: ArchetypeDependResult)
        ensures
            r.flag.0 == 0,
            r.reads@.len() == 0,
            r.writes@.len() == 0,
            r.alters@.len() == 0,
    {
        ArchetypeDependResult {
            flag: Flags(0),
            reads: Vec::with_capacity(256),
            writes: Vec::with_capacity(256),
            alters: Vec::with_capacity(256),
        }
    }

    /// Adds flags to the union; records an alteration unless the archetype
    /// is excluded.
    pub fn merge(&mut self, depend: ArchetypeDepend)
        ensures
            final(self).reads@ == old(self).reads@,
            final(self).writes@ == old(self).writes@,
            match depend {
                ArchetypeDepend::Flag(f) => final(self).flag.0 == old(self).flag.0 | f.0 && final(self).alters@
                    == old(self).alters@,
                ArchetypeDepend::Alter(t) => final(self).flag == old(self).flag && final(self).alters@ == if old(
                    self,
                ).flag.0 & Flags::WITHOUT == Flags::WITHOUT {
                    old(self).alters@
                } else {
                    old(self).alters@.push(t)
                },
            },
    {
        match depend {
            ArchetypeDepend::Flag(f) => self.flag.insert(f),
            ArchetypeDepend::Alter(t) => {
                if !self.flag.contains(Flags(Flags::WITHOUT)) {
                    self.alters.push(t);
                }
            },
        }
    }

    /// Records a write of the archetype and of each of the given components.
    pub fn insert(&mut self, components: &Vec<ComponentIndex>)
        ensures
            final(self).flag.0 == old(self).flag.0 | Flags::WRITE,
            final(self).reads@ == old(self).reads@,
            final(self).writes@ == old(self).writes@ + components@,
            final(self).alters@ == old(self).alters@,
    {
        self.merge(ArchetypeDepend::Flag(Flags(Flags::WRITE)));
        let ghost w0 = self.writes@;
        let ghost f0 = self.flag;
        let ghost r0 = self.reads@;
        let ghost t0 = self.alters@;
        let mut i: usize = 0;
        while i < components.len()
            invariant
                0 <= i <= components.len(),
                self.writes@ == w0 + components@.subrange(0, i as int),
                self.flag == f0,
                self.reads@ == r0,
                self.alters@ == t0,
            decreases components.len() - i,
        {
            self.writes.push(components[i]);
            i = i + 1;
            assert(self.writes@ =~= w0 + components@.subrange(0, i as int));
        }
        assert(components@.subrange(0, components.len() as int) == components@);
    }

    /// Forgets everything gathered.
    pub fn clear(&mut self)
        ensures
            final(self).flag.0 == 0,
            final(self).reads@.len() == 0,
            final(self).writes@.len() == 0,
            final(self).alters@.len() == 0,
    {
        self.flag = Flags(0);
        self.reads.clear();
        self.writes.clear();
        self.alters.clear();
    }
}

} // verus!
