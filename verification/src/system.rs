//! What a system declares of its parameters, and the check that the
//! parameters do not conflict.
//!
//! Each parameter relates the system to components: it reads or writes
//! them, possibly optionally, or filters archetypes with or without them
//! (the filters between `Or` and `End` are alternatives). A parameter's
//! relations form a group. Two relations clash when one writes a component
//! that the other reads or writes. Two groups conflict when some of their
//! relations clash and the groups may meet the same archetype, that is when
//! no component is required by one group and excluded by the other. The
//! groups of one parameter set are not checked against each other, since
//! only one parameter of a set is in use at a time.
use crate::world::ComponentIndex;
use std::any::TypeId;
use vstd::prelude::*;

verus! {

#[verifier::external_type_specification]
#[verifier::external_body]
pub struct ExTypeId(std::any::TypeId);

/// The type id and name of a type.
pub struct TypeInfo {
    pub type_id: TypeId,
    pub name: String,
}

impl TypeInfo {
    pub fn new(type_id: TypeId, name: String) -> (r: TypeInfo)
        ensures
            r.type_id == type_id,
            r.name == name,
    {
        TypeInfo { type_id, name }
    }
}

/// A relation of a parameter to a component.
#[derive(Clone, Copy, Debug, PartialEq, Eq, Structural)]
pub enum Relation {
    Read(ComponentIndex),
    Write(ComponentIndex),
    OptRead(ComponentIndex),
    OptWrite(ComponentIndex),
    Without(ComponentIndex),
    With(ComponentIndex),
    Or,
    End,
    WriteAll,
}

/// The component that the relation writes, when it writes just one.
pub open spec fn write_of(r: Relation) -> Option<u32> {
    match r {
        Relation::Write(c) => Some(c.0),
        Relation::OptWrite(c) => Some(c.0),
        _ => None,
    }
}

/// The component that the relation reads or writes, when just one.
pub open spec fn touch_of(r: Relation) -> Option<u32> {
    match r {
        Relation::Read(c) => Some(c.0),
        Relation::Write(c) => Some(c.0),
        Relation::OptRead(c) => Some(c.0),
        Relation::OptWrite(c) => Some(c.0),
        _ => None,
    }
}

/// The relation reads or writes some component.
pub open spec fn touches_any(r: Relation) -> bool {
    touch_of(r) is Some || r is WriteAll
}

/// One relation writes what the other reads or writes.
pub open spec fn clash(a: Relation, b: Relation) -> bool {
    ||| (a is WriteAll && touches_any(b))
    ||| (b is WriteAll && touches_any(a))
    ||| (write_of(a) is Some && write_of(a) == touch_of(b))
    ||| (write_of(b) is Some && write_of(b) == touch_of(a))
}

/// The component that the relation requires the archetype to have.
pub open spec fn required_of(r: Relation) -> Option<u32> {
    match r {
        Relation::Read(c) => Some(c.0),
        Relation::Write(c) => Some(c.0),
        Relation::With(c) => Some(c.0),
        _ => None,
    }
}

/// The component that the relation requires the archetype to lack.
pub open spec fn excluded_of(r: Relation) -> Option<u32> {
    match r {
        Relation::Without(c) => Some(c.0),
        _ => None,
    }
}

/// One relation requires a component that the other excludes.
pub open spec fn separates(a: Relation, b: Relation) -> bool {
    ||| (required_of(a) is Some && required_of(a) == excluded_of(b))
    ||| (required_of(b) is Some && required_of(b) == excluded_of(a))
}

/// The number of `Or`s before position `i`.
pub open spec fn count_or(g: Seq<Relation>, i: int) -> nat
    decreases i,
{
    if i <= 0 {
        0
    } else {
        count_or(g, i - 1) + if g[i - 1] is Or {
            1nat
        } else {
            0nat
        }
    }
}

/// The number of `End`s before position `i`.
pub open spec fn count_end(g: Seq<Relation>, i: int) -> nat
    decreases i,
{
    if i <= 0 {
        0
    } else {
        count_end(g, i - 1) + if g[i - 1] is End {
            1nat
        } else {
            0nat
        }
    }
}

/// The relation at position `i` is outside every `Or`...`End` block, so it
/// binds the archetype.
pub open spec fn binding(g: Seq<Relation>, i: int) -> bool {
    count_or(g, i) <= count_end(g, i)
}

/// Some component is required by one group and excluded by the other, so
/// no archetype meets both.
pub open spec fn disjoint(g1: Seq<Relation>, g2: Seq<Relation>) -> bool {
    exists|i: int, j: int|
        0 <= i < g1.len() && 0 <= j < g2.len() && binding(g1, i) && binding(g2, j) && #[trigger] separates(
            g1[i],
            g2[j],
        )
}

/// Some relation of one group clashes with some relation of the other.
pub open spec fn groups_clash(g1: Seq<Relation>, g2: Seq<Relation>) -> bool {
    exists|i: int, j: int| 0 <= i < g1.len() && 0 <= j < g2.len() && #[trigger] clash(g1[i], g2[j])
}

/// Two relations of the group clash.
pub open spec fn self_clash(g: Seq<Relation>) -> bool {
    exists|i: int, j: int| 0 <= i < g.len() && 0 <= j < g.len() && i != j && #[trigger] clash(g[i], g[j])
}

/// Groups `i <= j` of `groups` conflict: a group with itself when two of
/// its relations clash; two groups not in one parameter set when they may
/// meet the same archetype and clash.
pub open spec fn conflicting(groups: Seq<(Vec<Relation>, u32)>, i: int, j: int) -> bool {
    if i == j {
        self_clash(groups[i].0@)
    } else {
        &&& !(groups[i].1 != 0 && groups[i].1 == groups[j].1)
        &&& !disjoint(groups[i].0@, groups[j].0@)
        &&& groups_clash(groups[i].0@, groups[j].0@)
    }
}

fn write_of_exec(r: Relation) -> (o: Option<u32>)
    ensures
        o == write_of(r),
{
    match r {
        Relation::Write(c) => Some(c.0),
        Relation::OptWrite(c) => Some(c.0),
        _ => None,
    }
}

fn touch_of_exec(r: Relation) -> (o: Option<u32>)
    ensures
        o == touch_of(r),
{
    match r {
        Relation::Read(c) => Some(c.0),
        Relation::Write(c) => Some(c.0),
        Relation::OptRead(c) => Some(c.0),
        Relation::OptWrite(c) => Some(c.0),
        _ => None,
    }
}

fn required_of_exec(r: Relation) -> (o: Option<u32>)
    ensures
        o == required_of(r),
{
    match r {
        Relation::Read(c) => Some(c.0),
        Relation::Write(c) => Some(c.0),
        Relation::With(c) => Some(c.0),
        _ => None,
    }
}

fn excluded_of_exec(r: Relation) -> (o: Option<u32>)
    ensures
        o == excluded_of(r),
{
    match r {
        Relation::Without(c) => Some(c.0),
        _ => None,
    }
}

fn is_write_all(r: Relation) -> (b: bool)
    ensures
        b == (r is WriteAll),
{
    match r {
        Relation::WriteAll => true,
        _ => false,
    }
}

fn opt_eq(a: Option<u32>, b: Option<u32>) -> (r: bool)
    ensures
        r == (a is Some && a == b),
{
    match (a, b) {
        (Some(x), Some(y)) => x == y,
        _ => false,
    }
}

/// Whether one relation writes what the other reads or writes.
pub fn clashes(a: Relation, b: Relation) -> (r: bool)
    ensures
        r == clash(a, b),
{
    let ta = touch_of_exec(a);
    let tb = touch_of_exec(b);
    let wa = is_write_all(a);
    let wb = is_write_all(b);
    (wa && (tb.is_some() || wb)) || (wb && (ta.is_some() || wa)) || opt_eq(write_of_exec(a), tb) || opt_eq(
        write_of_exec(b),
        ta,
    )
}

/// Whether one relation requires a component that the other excludes.
pub fn separate(a: Relation, b: Relation) -> (r: bool)
    ensures
        r == separates(a, b),
{
    opt_eq(required_of_exec(a), excluded_of_exec(b)) || opt_eq(required_of_exec(b), excluded_of_exec(a))
}

/// For each relation of the group, whether it binds the archetype.
fn binding_flags(g: &Vec<Relation>) -> (r: Vec<bool>)
    ensures
        r@.len() == g@.len(),
        forall|i: int| 0 <= i < g@.len() ==> r@[i] == binding(g@, i),
{
    let mut r: Vec<bool> = Vec::new();
    let mut ors: usize = 0;
    let mut ends: usize = 0;
    let mut i: usize = 0;
    while i < g.len()
        invariant
            0 <= i <= g@.len(),
            ors == count_or(g@, i as int),
            ends == count_end(g@, i as int),
            ors <= i,
            ends <= i,
            r@.len() == i,
            forall|k: int| 0 <= k < i ==> r@[k] == binding(g@, k),
        decreases g@.len() - i,
    {
        r.push(ors <= ends);
        match g[i] {
            Relation::Or => {
                ors = ors + 1;
            },
            Relation::End => {
                ends = ends + 1;
            },
            _ => {},
        }
        i = i + 1;
    }
    r
}

/// Whether no archetype meets both groups.
pub fn groups_disjoint(g1: &Vec<Relation>, g2: &Vec<Relation>) -> (r: bool)
    ensures
        r == disjoint(g1@, g2@),
{
    let b1 = binding_flags(g1);
    let b2 = binding_flags(g2);
    let mut i: usize = 0;
    while i < g1.len()
        invariant
            0 <= i <= g1@.len(),
            b1@.len() == g1@.len(),
            b2@.len() == g2@.len(),
            forall|k: int| 0 <= k < g1@.len() ==> b1@[k] == binding(g1@, k),
            forall|k: int| 0 <= k < g2@.len() ==> b2@[k] == binding(g2@, k),
            forall|a: int, b: int|
                0 <= a < i && 0 <= b < g2@.len() && binding(g1@, a) && binding(g2@, b) ==> !#[trigger] separates(
                    g1@[a],
                    g2@[b],
                ),
        decreases g1@.len() - i,
    {
        let mut j: usize = 0;
        while j < g2.len()
            invariant
                0 <= i < g1@.len(),
                0 <= j <= g2@.len(),
                b1@.len() == g1@.len(),
                b2@.len() == g2@.len(),
                forall|k: int| 0 <= k < g1@.len() ==> b1@[k] == binding(g1@, k),
                forall|k: int| 0 <= k < g2@.len() ==> b2@[k] == binding(g2@, k),
                forall|a: int, b: int|
                    0 <= a < i && 0 <= b < g2@.len() && binding(g1@, a) && binding(g2@, b) ==> !#[trigger] separates(
                        g1@[a],
                        g2@[b],
                    ),
                forall|b: int|
                    0 <= b < j && binding(g1@, i as int) && binding(g2@, b) ==> !#[trigger] separates(
                        g1@[i as int],
                        g2@[b],
                    ),
            decreases g2@.len() - j,
        {
            if b1[i] && b2[j] && separate(g1[i], g2[j]) {
                return true;
            }
            j = j + 1;
        }
        i = i + 1;
    }
    false
}

/// Whether some relation of one group clashes with some relation of the
/// other; with `same`, a relation is not compared with itself.
fn clash_between(g1: &Vec<Relation>, g2: &Vec<Relation>, same: bool) -> (r: bool)
    ensures
        !same ==> r == groups_clash(g1@, g2@),
        same ==> r == (exists|a: int, b: int|
            0 <= a < g1@.len() && 0 <= b < g2@.len() && a != b && #[trigger] clash(g1@[a], g2@[b])),
{
    let mut i: usize = 0;
    while i < g1.len()
        invariant
            0 <= i <= g1@.len(),
            forall|a: int, b: int|
                0 <= a < i && 0 <= b < g2@.len() && !(same && a == b) ==> !#[trigger] clash(g1@[a], g2@[b]),
        decreases g1@.len() - i,
    {
        let mut j: usize = 0;
        while j < g2.len()
            invariant
                0 <= i < g1@.len(),
                0 <= j <= g2@.len(),
                forall|a: int, b: int|
                    0 <= a < i && 0 <= b < g2@.len() && !(same && a == b) ==> !#[trigger] clash(g1@[a], g2@[b]),
                forall|b: int| 0 <= b < j && !(same && i == b) ==> !#[trigger] clash(g1@[i as int], g2@[b]),
            decreases g2@.len() - j,
        {
            if !(same && i == j) && clashes(g1[i], g2[j]) {
                return true;
            }
            j = j + 1;
        }
        i = i + 1;
    }
    false
}

/// What a system declares of its parameters: its type, the relations of
/// the parameter being declared, the groups of the parameters declared so
/// far with their parameter set (zero for none), and the parameter set
/// being declared.
pub struct SystemMeta {
    type_info: TypeInfo,
    cur: Vec<Relation>,
    groups: Vec<(Vec<Relation>, u32)>,
    sets: u32,
    in_set: u32,
}

impl SystemMeta {
    /// The relations of the parameter being declared.
    pub closed spec fn spec_cur(&self) -> Seq<Relation> {
        self.cur@
    }

    /// The groups declared so far, each with its parameter set.
    pub closed spec fn spec_groups(&self) -> Seq<(Vec<Relation>, u32)> {
        self.groups@
    }

    /// The parameter set being declared, zero for none.
    pub closed spec fn spec_in_set(&self) -> u32 {
        self.in_set
    }

    pub closed spec fn spec_sets(&self) -> u32 {
        self.sets
    }

    pub fn new(type_info: TypeInfo) -> (r: SystemMeta)
        ensures
            r.spec_type_info() == type_info,
            r.spec_cur().len() == 0,
            r.spec_groups().len() == 0,
            r.spec_in_set() == 0,
            r.spec_sets() == 0,
    {
        SystemMeta { type_info, cur: Vec::new(), groups: Vec::new(), sets: 0, in_set: 0 }
    }

    pub closed spec fn spec_type_info(&self) -> TypeInfo {
        self.type_info
    }

    pub fn type_info(&self) -> (r: &TypeInfo)
        ensures
            *r == self.spec_type_info(),
    {
        &self.type_info
    }

    /// Adds a relation to the parameter being declared.
    pub fn relate(&mut self, r: Relation)
        ensures
            final(self).spec_cur() == old(self).spec_cur().push(r),
            final(self).spec_groups() == old(self).spec_groups(),
            final(self).spec_in_set() == old(self).spec_in_set(),
            final(self).spec_sets() == old(self).spec_sets(),
    {
        self.cur.push(r);
    }

    /// Ends the parameter being declared: its relations become a group of
    /// the current parameter set, and are returned.
    pub fn related_ok(&mut self) -> (r: Vec<Relation>)
        ensures
            r@ == old(self).spec_cur(),
            final(self).spec_cur().len() == 0,
            final(self).spec_groups().len() == old(self).spec_groups().len() + 1,
            final(self).spec_groups().last().0@ == old(self).spec_cur(),
            final(self).spec_groups().last().1 == old(self).spec_in_set(),
            final(self).spec_groups().drop_last() == old(self).spec_groups(),
            final(self).spec_in_set() == old(self).spec_in_set(),
            final(self).spec_sets() == old(self).spec_sets(),
    {
        let mut cur: Vec<Relation> = Vec::new();
        std::mem::swap(&mut cur, &mut self.cur);
        let mut copy: Vec<Relation> = Vec::new();
        let mut i: usize = 0;
        while i < cur.len()
            invariant
                0 <= i <= cur@.len(),
                copy@ == cur@.subrange(0, i as int),
            decreases cur@.len() - i,
        {
            copy.push(cur[i]);
            i = i + 1;
            assert(copy@ =~= cur@.subrange(0, i as int));
        }
        assert(cur@.subrange(0, cur@.len() as int) == cur@);
        let ghost g0 = self.groups@;
        self.groups.push((cur, self.in_set));
        assert(self.groups@.drop_last() == g0);
        copy
    }

    /// Starts a parameter set: the groups declared until its end are not
    /// checked against each other.
    pub fn param_set_start(&mut self)
        requires
            old(self).spec_sets() < u32::MAX,
        ensures
            final(self).spec_sets() == old(self).spec_sets() + 1,
            final(self).spec_in_set() == final(self).spec_sets(),
            final(self).spec_cur() == old(self).spec_cur(),
            final(self).spec_groups() == old(self).spec_groups(),
    {
        self.sets = self.sets + 1;
        self.in_set = self.sets;
    }

    /// Ends the parameter set.
    pub fn param_set_end(&mut self)
        ensures
            final(self).spec_in_set() == 0,
            final(self).spec_sets() == old(self).spec_sets(),
            final(self).spec_cur() == old(self).spec_cur(),
            final(self).spec_groups() == old(self).spec_groups(),
    {
        self.in_set = 0;
    }

    /// The first pair of conflicting groups `(i, j)`, `i <= j`, in order, or
    /// `None` when no groups conflict.
    pub fn check_conflict(&self) -> (r: Option<(usize, usize)>)
        ensures
            r is None <==> forall|i: int, j: int|
                0 <= i <= j < self.spec_groups().len() ==> !#[trigger] conflicting(self.spec_groups(), i, j),
            r matches Some((i, j)) ==> i <= j < self.spec_groups().len() && conflicting(
                self.spec_groups(),
                i as int,
                j as int,
            ),
    {
        let gs = &self.groups;
        let mut i: usize = 0;
        while i < gs.len()
            invariant
                0 <= i <= gs@.len(),
                gs@ == self.spec_groups(),
                forall|a: int, b: int| 0 <= a < i && a <= b < gs@.len() ==> !#[trigger] conflicting(gs@, a, b),
            decreases gs@.len() - i,
        {
            let mut j: usize = i;
            while j < gs.len()
                invariant
                    0 <= i < gs@.len(),
                    i <= j <= gs@.len(),
                    gs@ == self.spec_groups(),
                    forall|a: int, b: int| 0 <= a < i && a <= b < gs@.len() ==> !#[trigger] conflicting(gs@, a, b),
                    forall|b: int| i <= b < j ==> !#[trigger] conflicting(gs@, i as int, b),
                decreases gs@.len() - j,
            {
                let c = if i == j {
                    clash_between(&gs[i].0, &gs[i].0, true)
                } else if gs[i].1 != 0 && gs[i].1 == gs[j].1 {
                    false
                } else {
                    !groups_disjoint(&gs[i].0, &gs[j].0) && clash_between(&gs[i].0, &gs[j].0, false)
                };
                assert(c == conflicting(gs@, i as int, j as int));
                if c {
                    return Some((i, j));
                }
                j = j + 1;
            }
            i = i + 1;
        }
        None
    }
}

} // verus!
