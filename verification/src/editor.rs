//! The operations of an entity editor: the components to add (`true`) or
//! remove (`false`), gathered in reverse and sorted by component so that of
//! several operations on one component the last one given comes first, and
//! so takes effect when the archetype is altered.
use crate::alter::{AState, ArchetypeMapping, LocalIndex};
use crate::archetype::{ops_sorted, ArchetypeIndex};
use crate::world::ComponentIndex;
use vstd::prelude::*;

verus! {

/// The operations on component `k`.
pub open spec fn on_component(k: u32) -> spec_fn((ComponentIndex, bool)) -> bool {
    |p: (ComponentIndex, bool)| p.0.0 == k
}

/// Filtering a reversed sequence gives the filtered sequence reversed.
pub proof fn lemma_filter_reverse<A>(s: Seq<A>, p: spec_fn(A) -> bool)
    ensures
        s.reverse().filter(p) == s.filter(p).reverse(),
    decreases s.len(),
{
    reveal(Seq::filter);
    if s.len() > 0 {
        let l = s.last();
        let d = s.drop_last();
        lemma_filter_reverse(d, p);
        assert(s.reverse() =~= seq![l] + d.reverse());
        Seq::filter_distributes_over_add(seq![l], d.reverse(), p);
        assert(seq![l].drop_last() =~= Seq::<A>::empty());
        assert(seq![l].last() == l);
        assert(Seq::<A>::empty().filter(p) =~= Seq::<A>::empty());
        assert(seq![l].filter(p) == if p(l) {
            seq![l]
        } else {
            Seq::<A>::empty()
        });
        if p(l) {
            assert(s.filter(p) == d.filter(p).push(l));
            assert(d.filter(p).push(l).reverse() =~= seq![l] + d.filter(p).reverse());
        } else {
            assert(s.filter(p) == d.filter(p));
        }
    }
}

/// Filtering what was filtered for component `b` keeps it all for `b` and
/// nothing for another component.
proof fn lemma_filter_twice(s: Seq<(ComponentIndex, bool)>, b: u32, k: u32)
    ensures
        s.filter(on_component(b)).filter(on_component(k)) == if k == b {
            s.filter(on_component(b))
        } else {
            Seq::<(ComponentIndex, bool)>::empty()
        },
    decreases s.len(),
{
    reveal(Seq::filter);
    if s.len() > 0 {
        lemma_filter_twice(s.drop_last(), b, k);
        let l = s.last();
        if l.0.0 == b {
            assert(s.filter(on_component(b)) == s.drop_last().filter(on_component(b)).push(l));
            let t = s.drop_last().filter(on_component(b)).push(l);
            assert(t.drop_last() == s.drop_last().filter(on_component(b)));
            assert(t.last() == l);
        }
    }
}

/// No operation is on component `k`: filtering for it keeps nothing.
proof fn lemma_filter_none(s: Seq<(ComponentIndex, bool)>, k: u32)
    requires
        forall|i: int| 0 <= i < s.len() ==> (#[trigger] s[i]).0.0 != k,
    ensures
        s.filter(on_component(k)) == Seq::<(ComponentIndex, bool)>::empty(),
{
    s.lemma_all_neg_filter_empty(on_component(k));
}

/// The operations sorted by component, keeping, for each component, its
/// operations in the order given.
pub fn sorted_by_component(ops: &Vec<(ComponentIndex, bool)>) -> (r: Vec<(ComponentIndex, bool)>)
    ensures
        ops_sorted(r@),
        forall|k: u32| #[trigger] r@.filter(on_component(k)) == ops@.filter(on_component(k)),
{
    let mut out: Vec<(ComponentIndex, bool)> = Vec::new();
    let mut bound: u64 = 0;
    while bound <= u32::MAX as u64
        invariant_except_break
            bound <= u32::MAX as u64 + 1,
            forall|i: int| 0 <= i < out@.len() ==> (#[trigger] out@[i]).0.0 < bound,
            ops_sorted(out@),
            forall|k: u32| k < bound ==> #[trigger] out@.filter(on_component(k)) == ops@.filter(on_component(k)),
            forall|k: u32| k >= bound ==> #[trigger] out@.filter(on_component(k)) == Seq::<(ComponentIndex, bool)>::empty(),
        ensures
            ops_sorted(out@),
            forall|k: u32| #[trigger] out@.filter(on_component(k)) == ops@.filter(on_component(k)),
        decreases u32::MAX as u64 + 1 - bound,
    {
        let mut best: u64 = u32::MAX as u64 + 1;
        let mut i: usize = 0;
        while i < ops.len()
            invariant
                0 <= i <= ops@.len(),
                bound <= u32::MAX as u64,
                bound <= best <= u32::MAX as u64 + 1,
                best <= u32::MAX as u64 ==> exists|j: int| 0 <= j < i && (#[trigger] ops@[j]).0.0 == best,
                forall|j: int| 0 <= j < i && (#[trigger] ops@[j]).0.0 >= bound ==> ops@[j].0.0 >= best,
            decreases ops@.len() - i,
        {
            let key = ops[i].0.0 as u64;
            if key >= bound && key < best {
                best = key;
            }
            i = i + 1;
        }
        if best > u32::MAX as u64 {
            proof {
                assert forall|k: u32| #[trigger] out@.filter(on_component(k)) == ops@.filter(on_component(k)) by {
                    if k >= bound {
                        assert forall|j: int| 0 <= j < ops@.len() implies (#[trigger] ops@[j]).0.0 != k by {}
                        lemma_filter_none(ops@, k);
                    }
                }
            }
            break;
        }
        let b = best as u32;
        let ghost out0 = out@;
        let mut j: usize = 0;
        while j < ops.len()
            invariant
                0 <= j <= ops@.len(),
                out@ == out0 + ops@.take(j as int).filter(on_component(b)),
            decreases ops@.len() - j,
        {
            let ghost before = out@;
            proof {
                assert(ops@.take(j + 1).drop_last() == ops@.take(j as int));
                assert(ops@.take(j + 1).last() == ops@[j as int]);
                reveal(Seq::filter);
            }
            if ops[j].0.0 == b {
                out.push(ops[j]);
            }
            proof {
                assert(out@ =~= out0 + ops@.take(j + 1).filter(on_component(b)));
            }
            j = j + 1;
        }
        proof {
            let seg = ops@.filter(on_component(b));
            assert(ops@.take(ops@.len() as int) == ops@);
            assert(out@ == out0 + seg);
            assert forall|q: int| 0 <= q < seg.len() implies (#[trigger] seg[q]).0.0 == b by {
                ops@.lemma_filter_pred(on_component(b), q);
            }
            assert forall|i: int| 0 <= i < out@.len() implies (#[trigger] out@[i]).0.0 < b + 1 by {
                if i >= out0.len() {
                    assert(out@[i] == seg[i - out0.len()]);
                } else {
                    assert(out@[i] == out0[i]);
                }
            }
            assert(ops_sorted(out@)) by {
                assert forall|i: int, k: int| 0 <= i <= k < out@.len() implies out@[i].0.0 <= out@[k].0.0 by {
                    if k >= out0.len() {
                        assert(out@[k] == seg[k - out0.len()]);
                        if i >= out0.len() {
                            assert(out@[i] == seg[i - out0.len()]);
                        } else {
                            assert(out@[i] == out0[i]);
                        }
                    } else {
                        assert(out@[i] == out0[i]);
                        assert(out@[k] == out0[k]);
                    }
                }
            }
            assert forall|k: u32| #[trigger] out@.filter(on_component(k)) == if k < b + 1 {
                ops@.filter(on_component(k))
            } else {
                Seq::<(ComponentIndex, bool)>::empty()
            } by {
                Seq::filter_distributes_over_add(out0, seg, on_component(k));
                lemma_filter_twice(ops@, b, k);
                if bound <= k && k < b {
                    assert forall|q: int| 0 <= q < ops@.len() implies (#[trigger] ops@[q]).0.0 != k by {}
                    lemma_filter_none(ops@, k);
                }
            }
        }
        bound = best + 1;
    }
    out
}

/// The state of an entity editor: the alteration state of each list of
/// operations planned so far, the mapping of each archetype under each list
/// (by its place among the mappings), the mappings, and the operations being
/// planned, the last one given first.
pub struct EditorState {
    alter_map: Vec<(Vec<(ComponentIndex, bool)>, AState)>,
    archetype_map: Vec<(ArchetypeIndex, Vec<(ComponentIndex, bool)>, LocalIndex)>,
    vec: Vec<ArchetypeMapping>,
    tmp: Vec<(ComponentIndex, bool)>,
}

/// Two lists of operations are the same.
fn same_ops(a: &Vec<(ComponentIndex, bool)>, b: &Vec<(ComponentIndex, bool)>) -> (r: bool)
    ensures
        r == (a@ == b@),
{
    if a.len() != b.len() {
        return false;
    }
    let mut i: usize = 0;
    while i < a.len()
        invariant
            a@.len() == b@.len(),
            0 <= i <= a@.len(),
            forall|j: int| 0 <= j < i ==> a@[j] == b@[j],
        decreases a@.len() - i,
    {
        if a[i].0.0 != b[i].0.0 || a[i].1 != b[i].1 {
            return false;
        }
        i = i + 1;
    }
    proof {
        assert(a@ =~= b@);
    }
    true
}

/// A copy of a list of operations.
fn copy_ops(a: &Vec<(ComponentIndex, bool)>) -> (r: Vec<(ComponentIndex, bool)>)
    ensures
        r@ == a@,
{
    let mut r: Vec<(ComponentIndex, bool)> = Vec::new();
    let mut i: usize = 0;
    while i < a.len()
        invariant
            0 <= i <= a@.len(),
            r@ == a@.take(i as int),
        decreases a@.len() - i,
    {
        r.push(a[i]);
        proof {
            assert(r@ =~= a@.take(i + 1));
        }
        i = i + 1;
    }
    proof {
        assert(a@.take(a@.len() as int) =~= a@);
    }
    r
}

impl EditorState {
    pub closed spec fn ops(&self) -> Seq<(ComponentIndex, bool)> {
        self.tmp@
    }

    /// The lists of operations that have an alteration state, in order.
    pub closed spec fn state_keys(&self) -> Seq<Seq<(ComponentIndex, bool)>> {
        self.alter_map@.map_values(|e: (Vec<(ComponentIndex, bool)>, AState)| e.0@)
    }

    /// The alteration state at `i`.
    pub closed spec fn state_at(&self, i: int) -> AState {
        self.alter_map@[i].1
    }

    /// The archetypes and lists of operations that have a mapping, with the
    /// place of the mapping, in order.
    pub closed spec fn mapping_keys(&self) -> Seq<(ArchetypeIndex, Seq<(ComponentIndex, bool)>, LocalIndex)> {
        self.archetype_map@.map_values(
            |e: (ArchetypeIndex, Vec<(ComponentIndex, bool)>, LocalIndex)| (e.0, e.1@, e.2),
        )
    }

    /// The mappings.
    pub closed spec fn mappings(&self) -> Seq<ArchetypeMapping> {
        self.vec@
    }

    pub fn new() -> (r: EditorState)
        ensures
            r.ops().len() == 0,
            r.state_keys().len() == 0,
            r.mapping_keys().len() == 0,
            r.mappings().len() == 0,
    {
        EditorState { alter_map: Vec::new(), archetype_map: Vec::new(), vec: Vec::new(), tmp: Vec::new() }
    }

    /// Finds, for the operations planned, the mapping of the archetype at
    /// `ar_index` and the alteration state, creating them when missing: a
    /// new mapping goes from the archetype to `empty` with no target yet, a
    /// new state has the operations planned. Returns the mapping's place
    /// and the state's position.
    pub fn locate(&mut self, ar_index: ArchetypeIndex, empty: ArchetypeIndex) -> (r: (LocalIndex, usize))
        requires
            old(self).mappings().len() < usize::MAX,
        ensures
            final(self).ops() == old(self).ops(),
            ({
                let key = (ar_index, old(self).ops());
                let found = exists|i: int|
                    0 <= i < old(self).mapping_keys().len() && (#[trigger] old(self).mapping_keys()[i]).0 == key.0
                        && old(self).mapping_keys()[i].1 == key.1;
                &&& found ==> final(self).mappings() == old(self).mappings() && final(self).mapping_keys() == old(
                    self,
                ).mapping_keys() && exists|i: int|
                    0 <= i < old(self).mapping_keys().len() && (#[trigger] old(self).mapping_keys()[i]).0 == key.0
                        && old(self).mapping_keys()[i].1 == key.1 && old(self).mapping_keys()[i].2 == r.0
                &&& !found ==> r.0 == LocalIndex(old(self).mappings().len() as usize) && final(self).mappings().len()
                    == old(self).mappings().len() + 1 && final(self).mappings().subrange(
                    0,
                    old(self).mappings().len() as int,
                ) == old(self).mappings() && final(self).mappings().last().src == ar_index
                    && final(self).mappings().last().dst == empty && final(self).mappings().last().dst_index.0 == -1
                    && final(self).mappings().last().moves@.len() == 0 && final(self).mapping_keys() == old(
                    self,
                ).mapping_keys().push((ar_index, old(self).ops(), r.0))
            }),
            ({
                let found = old(self).state_keys().contains(old(self).ops());
                &&& found ==> final(self).state_keys() == old(self).state_keys() && r.1 < old(self).state_keys().len()
                    && old(self).state_keys()[r.1 as int] == old(self).ops() && forall|i: int|
                    0 <= i < old(self).state_keys().len() ==> final(self).state_at(i) == old(self).state_at(i)
                &&& !found ==> r.1 == old(self).state_keys().len() && final(self).state_keys() == old(
                    self,
                ).state_keys().push(old(self).ops()) && final(self).state_at(r.1 as int).spec_ops() == old(self).ops()
                    && final(self).state_at(r.1 as int).spec_map().len() == 0
                    && final(self).state_at(r.1 as int).spec_adding().len() == 0
                    && final(self).state_at(r.1 as int).spec_moving().len() == 0
                    && final(self).state_at(r.1 as int).spec_removing().len() == 0 && forall|i: int|
                    0 <= i < old(self).state_keys().len() ==> final(self).state_at(i) == old(self).state_at(i)
            }),
    {
        let ghost mk = self.mapping_keys();
        let mut local: Option<LocalIndex> = None;
        let mut i: usize = 0;
        while i < self.archetype_map.len()
            invariant
                0 <= i <= self.archetype_map@.len(),
                mk == self.mapping_keys(),
                local is None ==> forall|j: int| 0 <= j < i ==> !((#[trigger] mk[j]).0 == ar_index && mk[j].1 == self.tmp@),
                local matches Some(l) ==> exists|j: int| 0 <= j < mk.len() && (#[trigger] mk[j]).0 == ar_index
                    && mk[j].1 == self.tmp@ && mk[j].2 == l,
            decreases self.archetype_map@.len() - i,
        {
            if local.is_none() && self.archetype_map[i].0 == ar_index && same_ops(&self.archetype_map[i].1, &self.tmp) {
                local = Some(self.archetype_map[i].2);
                proof {
                    assert(mk[i as int].0 == ar_index && mk[i as int].1 == self.tmp@);
                }
            }
            i = i + 1;
        }
        let l = match local {
            Some(l) => l,
            None => {
                self.vec.push(ArchetypeMapping::new(ar_index, empty));
                let l = LocalIndex(self.vec.len() - 1);
                let key_ops = copy_ops(&self.tmp);
                self.archetype_map.push((ar_index, key_ops, l));
                proof {
                    assert(self.mapping_keys() =~= mk.push((ar_index, self.tmp@, l)));
                }
                l
            },
        };
        let ghost sk = self.state_keys();
        let mut at: Option<usize> = None;
        let mut j: usize = 0;
        while j < self.alter_map.len()
            invariant
                0 <= j <= self.alter_map@.len(),
                sk == self.state_keys(),
                at is None ==> forall|q: int| 0 <= q < j ==> sk[q] != self.tmp@,
                at matches Some(a) ==> a < sk.len() && sk[a as int] == self.tmp@,
            decreases self.alter_map@.len() - j,
        {
            if at.is_none() && same_ops(&self.alter_map[j].0, &self.tmp) {
                at = Some(j);
            }
            j = j + 1;
        }
        let a = match at {
            Some(a) => a,
            None => {
                let key_ops = copy_ops(&self.tmp);
                let st = AState::new(copy_ops(&self.tmp));
                self.alter_map.push((key_ops, st));
                proof {
                    assert(self.state_keys() =~= sk.push(self.tmp@));
                    assert(!sk.contains(self.tmp@));
                }
                self.alter_map.len() - 1
            },
        };
        (l, a)
    }

    /// The operations planned: the sorted list of the last call.
    pub fn sorted_add_removes(&self) -> (r: &Vec<(ComponentIndex, bool)>)
        ensures
            r@ == self.ops(),
    {
        &self.tmp
    }

    /// Takes the operations: each component of `components`, added when
    /// `add`, removed otherwise.
    fn gather(&mut self, components: &Vec<ComponentIndex>, add: bool)
        ensures
            final(self).ops() == components@.reverse().map_values(|c: ComponentIndex| (c, add)),
    {
        self.tmp.clear();
        let n = components.len();
        let mut i: usize = 0;
        while i < n
            invariant
                n == components@.len(),
                0 <= i <= n,
                self.tmp@ == components@.reverse().map_values(|c: ComponentIndex| (c, add)).take(i as int),
            decreases n - i,
        {
            self.tmp.push((components[n - 1 - i], add));
            proof {
                assert(self.tmp@ =~= components@.reverse().map_values(|c: ComponentIndex| (c, add)).take(i + 1));
            }
            i = i + 1;
        }
        proof {
            assert(components@.reverse().map_values(|c: ComponentIndex| (c, add)).take(n as int) =~= components@.reverse().map_values(
                |c: ComponentIndex| (c, add),
            ));
        }
    }

    /// Plans adding the components, sorted by component.
    pub fn add_components_by_index(&mut self, components: &Vec<ComponentIndex>)
        ensures
            ops_sorted(final(self).ops()),
            forall|k: u32| #[trigger] final(self).ops().filter(on_component(k)) == components@.reverse().map_values(
                |c: ComponentIndex| (c, true),
            ).filter(on_component(k)),
    {
        self.gather(components, true);
        self.tmp = sorted_by_component(&self.tmp);
    }

    /// Plans removing the components, sorted by component.
    pub fn remove_components_by_index(&mut self, components: &Vec<ComponentIndex>)
        ensures
            ops_sorted(final(self).ops()),
            forall|k: u32| #[trigger] final(self).ops().filter(on_component(k)) == components@.reverse().map_values(
                |c: ComponentIndex| (c, false),
            ).filter(on_component(k)),
    {
        self.gather(components, false);
        self.tmp = sorted_by_component(&self.tmp);
    }

    /// Plans the operations, sorted by component; of several operations on
    /// one component, the last one given comes first.
    pub fn alter_components_by_index(&mut self, components: &Vec<(ComponentIndex, bool)>)
        ensures
            ops_sorted(final(self).ops()),
            forall|k: u32| #[trigger] final(self).ops().filter(on_component(k)) == components@.reverse().filter(
                on_component(k),
            ),
    {
        self.tmp.clear();
        let n = components.len();
        let mut i: usize = 0;
        while i < n
            invariant
                n == components@.len(),
                0 <= i <= n,
                self.tmp@ == components@.reverse().take(i as int),
            decreases n - i,
        {
            self.tmp.push(components[n - 1 - i]);
            proof {
                assert(self.tmp@ =~= components@.reverse().take(i + 1));
            }
            i = i + 1;
        }
        proof {
            assert(components@.reverse().take(n as int) =~= components@.reverse());
        }
        self.tmp = sorted_by_component(&self.tmp);
    }
}

/// Of several operations on one component, the one that comes first in the
/// plan, and so takes effect, is the last one given.
pub proof fn lemma_last_op_wins(given: Seq<(ComponentIndex, bool)>, planned: Seq<(ComponentIndex, bool)>, k: u32)
    requires
        planned.filter(on_component(k)) == given.reverse().filter(on_component(k)),
        given.filter(on_component(k)).len() > 0,
    ensures
        planned.filter(on_component(k))[0] == given.filter(on_component(k)).last(),
{
    lemma_filter_reverse(given, on_component(k));
}

} // verus!
