//! A plain directed graph over node keys, used to order the execution graph
//! topologically and to report a dependency cycle when there is one.
use std::collections::HashSet;
use std::collections::VecDeque;
use vstd::prelude::*;

verus! {

/// The targets of the edges before `upto` that leave `k`, oldest first.
pub open spec fn outs(edges: Seq<(usize, usize)>, upto: int, k: usize) -> Seq<usize>
    decreases upto,
{
    if upto <= 0 {
        Seq::empty()
    } else if edges[upto - 1].0 == k {
        outs(edges, upto - 1, k).push(edges[upto - 1].1)
    } else {
        outs(edges, upto - 1, k)
    }
}

/// The sources of the edges before `upto` that enter `k`, oldest first.
pub open spec fn ins(edges: Seq<(usize, usize)>, upto: int, k: usize) -> Seq<usize>
    decreases upto,
{
    if upto <= 0 {
        Seq::empty()
    } else if edges[upto - 1].1 == k {
        ins(edges, upto - 1, k).push(edges[upto - 1].0)
    } else {
        ins(edges, upto - 1, k)
    }
}

pub proof fn lemma_outs_ins_contains(edges: Seq<(usize, usize)>, upto: int, k: usize, y: usize)
    requires
        0 <= upto <= edges.len(),
    ensures
        outs(edges, upto, k).contains(y) <==> exists|i: int| 0 <= i < upto && #[trigger] edges[i] == (k, y),
        ins(edges, upto, k).contains(y) <==> exists|i: int| 0 <= i < upto && #[trigger] edges[i] == (y, k),
    decreases upto,
{
    if upto > 0 {
        lemma_outs_ins_contains(edges, upto - 1, k, y);
        let o = outs(edges, upto - 1, k);
        let n = ins(edges, upto - 1, k);
        if edges[upto - 1].0 == k {
            assert(outs(edges, upto, k) == o.push(edges[upto - 1].1));
            if o.contains(y) {
                let j = choose|j: int| 0 <= j < o.len() && o[j] == y;
                assert(outs(edges, upto, k)[j] == y);
            }
            if outs(edges, upto, k).contains(y) {
                let j = choose|j: int| 0 <= j < outs(edges, upto, k).len() && outs(edges, upto, k)[j] == y;
                if j < o.len() {
                    assert(o[j] == y);
                }
            }
            if edges[upto - 1].1 == y {
                assert(outs(edges, upto, k)[o.len() as int] == y);
            }
        }
        if edges[upto - 1].1 == k {
            assert(ins(edges, upto, k) == n.push(edges[upto - 1].0));
            if n.contains(y) {
                let j = choose|j: int| 0 <= j < n.len() && n[j] == y;
                assert(ins(edges, upto, k)[j] == y);
            }
            if ins(edges, upto, k).contains(y) {
                let j = choose|j: int| 0 <= j < ins(edges, upto, k).len() && ins(edges, upto, k)[j] == y;
                if j < n.len() {
                    assert(n[j] == y);
                }
            }
            if edges[upto - 1].0 == y {
                assert(ins(edges, upto, k)[n.len() as int] == y);
            }
        }
    }
}

pub proof fn lemma_outs_ins_len(edges: Seq<(usize, usize)>, upto: int, k: usize)
    requires
        0 <= upto <= edges.len(),
    ensures
        outs(edges, upto, k).len() <= upto,
        ins(edges, upto, k).len() <= upto,
    decreases upto,
{
    if upto > 0 {
        lemma_outs_ins_len(edges, upto - 1, k);
    }
}

/// The lists of a key only read the edges before `k`.
pub proof fn lemma_outs_ins_prefix(s1: Seq<(usize, usize)>, s2: Seq<(usize, usize)>, k: int, x: usize)
    requires
        0 <= k <= s1.len(),
        k <= s2.len(),
        forall|i: int| 0 <= i < k ==> s1[i] == s2[i],
    ensures
        outs(s1, k, x) == outs(s2, k, x),
        ins(s1, k, x) == ins(s2, k, x),
    decreases k,
{
    if k > 0 {
        lemma_outs_ins_prefix(s1, s2, k - 1, x);
    }
}

/// A sequence without repetition drawn from `0..n` has at most `n` elements.
pub proof fn lemma_distinct_bound(s: Seq<usize>, n: nat)
    requires
        s.no_duplicates(),
        forall|i: int| 0 <= i < s.len() ==> s[i] < n,
    ensures
        s.len() <= n,
{
    s.unique_seq_to_set();
    let r = Set::new(|x: usize| x < n);
    assert(s.to_set().subset_of(r));
    lemma_usize_range_finite(n);
    vstd::set_lib::lemma_len_subset(s.to_set(), r);
}

proof fn lemma_usize_range_finite(n: nat)
    ensures
        Set::new(|x: usize| x < n).finite(),
        Set::new(|x: usize| x < n).len() <= n,
    decreases n,
{
    let r = Set::new(|x: usize| x < n);
    if n == 0 {
        assert(r =~= Set::empty());
    } else {
        lemma_usize_range_finite((n - 1) as nat);
        let r1 = Set::new(|x: usize| x < (n - 1) as nat);
        if n - 1 <= usize::MAX {
            assert(r =~= r1.insert((n - 1) as usize));
        } else {
            assert(r =~= r1);
        }
    }
}

/// `c` is a cycle along `edges`: each element has an edge to the next, and
/// the last one has an edge to the first.
pub open spec fn is_cycle_in(edges: Seq<(usize, usize)>, c: Seq<usize>) -> bool {
    &&& c.len() > 0
    &&& forall|i: int| 0 <= i < c.len() - 1 ==> edges.contains((#[trigger] c[i], c[i + 1]))
    &&& edges.contains((c.last(), c[0]))
}

/// `t` lists each of the keys `0..n` once, and every edge's source before
/// its target.
pub open spec fn is_topo_order_in(n: nat, edges: Seq<(usize, usize)>, t: Seq<usize>) -> bool {
    &&& t.no_duplicates()
    &&& forall|i: int| 0 <= i < t.len() ==> #[trigger] t[i] < n
    &&& forall|k: usize| k < n ==> t.contains(k)
    &&& forall|e: int, j: int|
        0 <= e < edges.len() && 0 <= j < t.len() && #[trigger] t[j] == (#[trigger] edges[e]).1 ==> t.subrange(
            0,
            j,
        ).contains(edges[e].0)
}

/// A node of the graph: the keys of its predecessors and of its successors.
pub struct NGraphNode {
    from: Vec<usize>,
    to: Vec<usize>,
}

/// A directed graph whose nodes are keys into a vector of optional slots.
pub struct NGraph {
    nodes: Vec<Option<NGraphNode>>,
    from: Vec<usize>,
    to: Vec<usize>,
    edges: Vec<(usize, usize)>,
}

impl NGraph {
    /// `k` is a node of the graph.
    pub closed spec fn present(&self, k: int) -> bool {
        0 <= k < self.nodes.len() && self.nodes[k] is Some
    }

    /// The edges `(before, after)`, oldest first.
    pub closed spec fn edge_seq(&self) -> Seq<(usize, usize)> {
        self.edges@
    }

    /// One more than the largest key the graph can hold so far.
    pub closed spec fn bound(&self) -> nat {
        self.nodes.len() as nat
    }

    pub closed spec fn wf(&self) -> bool {
        &&& self.nodes.len() < usize::MAX
        &&& self.edges@.no_duplicates()
        &&& forall|i: int|
            0 <= i < self.edges.len() ==> self.present((#[trigger] self.edges[i]).0 as int) && self.present(
                self.edges[i].1 as int,
            )
        &&& forall|k: int|
            #![trigger self.nodes[k]]
            self.present(k) ==> self.nodes[k]->0.to@ == outs(self.edges@, self.edges.len() as int, k as usize)
                && self.nodes[k]->0.from@ == ins(self.edges@, self.edges.len() as int, k as usize)
    }

    pub fn new() -> (r: NGraph)
        ensures
            r.wf(),
            r.bound() == 0,
            forall|j: int| !r.present(j),
            r.edge_seq() == Seq::<(usize, usize)>::empty(),
    {
        NGraph { nodes: Vec::new(), from: Vec::new(), to: Vec::new(), edges: Vec::new() }
    }

    /// Adds the node `k`, which must not be in the graph yet.
    pub fn add_node(&mut self, k: usize)
        requires
            old(self).wf(),
            !old(self).present(k as int),
            k + 2 < usize::MAX,
        ensures
            final(self).wf(),
            final(self).present(k as int),
            forall|j: int| j != k ==> (final(self).present(j) <==> old(self).present(j)),
            final(self).edge_seq() == old(self).edge_seq(),
            final(self).bound() == if k < old(self).bound() { old(self).bound() } else { (k + 1) as nat },
    {
        while self.nodes.len() <= k
            invariant
                self.wf(),
                !self.present(k as int),
                forall|j: int| j != k ==> (self.present(j) <==> old(self).present(j)),
                self.edges@ == old(self).edges@,
                old(self).nodes.len() <= k ==> self.nodes.len() <= k + 1,
                old(self).nodes.len() > k ==> self.nodes.len() == old(self).nodes.len(),
                k + 2 < usize::MAX,
            decreases k + 1 - self.nodes.len(),
        {
            let ghost before = self.nodes@;
            self.nodes.push(None);
            proof {
                assert forall|q: int| self.present(q) <==> (0 <= q < before.len() && before[q] is Some) by {
                    if 0 <= q < before.len() {
                        assert(self.nodes[q] == before[q]);
                    }
                }
                assert forall|q: int| #![trigger self.nodes[q]] self.present(q) implies self.nodes[q]->0.to@ == outs(
                    self.edges@, self.edges.len() as int, q as usize) && self.nodes[q]->0.from@ == ins(
                    self.edges@, self.edges.len() as int, q as usize) by {
                    assert(self.nodes[q] == before[q]);
                }
            }
        }
        let ghost es = self.edges@;
        proof {
            assert forall|i: int| 0 <= i < es.len() implies (#[trigger] es[i]).0 != k && es[i].1 != k by {
                assert(self.present(es[i].0 as int));
                assert(self.present(es[i].1 as int));
            }
            lemma_absent_lists(es, es.len() as int, k);
        }
        self.nodes.set(k, Some(NGraphNode { from: Vec::new(), to: Vec::new() }));
        proof {
            assert forall|i: int| 0 <= i < self.edges.len() implies self.present((#[trigger] self.edges[i]).0 as int)
                && self.present(self.edges[i].1 as int) by {
                assert(old(self).present(self.edges[i].0 as int));
                assert(old(self).present(self.edges[i].1 as int));
            }
        }
    }

    /// Adds the edge `before -> after` between two nodes of the graph; the
    /// edge must not be in the graph yet.
    pub fn add_edge(&mut self, before: usize, after: usize)
        requires
            old(self).wf(),
            old(self).present(before as int),
            old(self).present(after as int),
            !old(self).edge_seq().contains((before, after)),
        ensures
            final(self).wf(),
            final(self).edge_seq() == old(self).edge_seq().push((before, after)),
            forall|j: int| final(self).present(j) <==> old(self).present(j),
            final(self).bound() == old(self).bound(),
    {
        let ghost es = self.edges@;
        self.edges.push((before, after));
        match &mut self.nodes[before] {
            Some(n) => {
                n.to.push(after);
            },
            None => {},
        }
        match &mut self.nodes[after] {
            Some(n) => {
                n.from.push(before);
            },
            None => {},
        }
        proof {
            let ne = self.edges@;
            assert(ne == es.push((before, after)));
            assert forall|k: int| #![trigger self.nodes[k]] self.present(k) implies self.nodes[k]->0.to@ == outs(
                ne, ne.len() as int, k as usize) && self.nodes[k]->0.from@ == ins(ne, ne.len() as int, k as usize) by {
                lemma_outs_ins_prefix(es, ne, es.len() as int, k as usize);
                assert(old(self).present(k));
            }
            assert forall|i: int| 0 <= i < self.edges.len() implies self.present((#[trigger] self.edges[i]).0 as int)
                && self.present(self.edges[i].1 as int) by {
                if i < es.len() {
                    assert(old(self).present(es[i].0 as int));
                    assert(old(self).present(es[i].1 as int));
                }
            }
            assert(ne.no_duplicates()) by {
                assert forall|i: int, j: int| 0 <= i < ne.len() && 0 <= j < ne.len() && i != j implies ne[i] != ne[j] by {
                    if i == es.len() as int {
                        assert(ne[j] == es[j]);
                    } else if j == es.len() as int {
                        assert(ne[i] == es[i]);
                    }
                }
            }
        }
    }
}

proof fn lemma_absent_lists(es: Seq<(usize, usize)>, upto: int, k: usize)
    requires
        0 <= upto <= es.len(),
        forall|i: int| 0 <= i < upto ==> (#[trigger] es[i]).0 != k && es[i].1 != k,
    ensures
        outs(es, upto, k) == Seq::<usize>::empty(),
        ins(es, upto, k) == Seq::<usize>::empty(),
    decreases upto,
{
    if upto > 0 {
        lemma_absent_lists(es, upto - 1, k);
    }
}


/// The number of elements of `s` that are not in `done`.
pub open spec fn pending(s: Seq<usize>, done: Seq<usize>) -> nat
    decreases s.len(),
{
    if s.len() == 0 {
        0
    } else {
        pending(s.drop_last(), done) + if done.contains(s.last()) {
            0nat
        } else {
            1nat
        }
    }
}

proof fn lemma_pending_empty(s: Seq<usize>)
    ensures
        pending(s, Seq::empty()) == s.len(),
    decreases s.len(),
{
    if s.len() > 0 {
        lemma_pending_empty(s.drop_last());
    }
}

proof fn lemma_pending_zero(s: Seq<usize>, done: Seq<usize>)
    ensures
        (pending(s, done) == 0) <==> (forall|i: int| 0 <= i < s.len() ==> done.contains(#[trigger] s[i])),
    decreases s.len(),
{
    if s.len() > 0 {
        lemma_pending_zero(s.drop_last(), done);
        if pending(s, done) == 0 {
            assert forall|i: int| 0 <= i < s.len() implies done.contains(#[trigger] s[i]) by {
                if i < s.len() - 1 {
                    assert(s.drop_last()[i] == s[i]);
                }
            }
        }
        if forall|i: int| 0 <= i < s.len() ==> done.contains(#[trigger] s[i]) {
            assert(done.contains(s[s.len() - 1]));
            assert forall|i: int| 0 <= i < s.drop_last().len() implies done.contains(#[trigger] s.drop_last()[i]) by {
                assert(s.drop_last()[i] == s[i]);
            }
        }
    }
}

proof fn lemma_pending_push(s: Seq<usize>, done: Seq<usize>, k: usize)
    requires
        s.no_duplicates(),
        !done.contains(k),
    ensures
        pending(s, done.push(k)) + (if s.contains(k) {
            1nat
        } else {
            0nat
        }) == pending(s, done),
    decreases s.len(),
{
    if s.len() > 0 {
        let t = s.drop_last();
        assert(t.no_duplicates()) by {
            assert forall|i: int, j: int| 0 <= i < t.len() && 0 <= j < t.len() && i != j implies t[i] != t[j] by {
                assert(t[i] == s[i] && t[j] == s[j]);
            }
        }
        lemma_pending_push(t, done, k);
        assert forall|x: usize| done.push(k).contains(x) <==> (done.contains(x) || x == k) by {
            if done.push(k).contains(x) {
                let i = choose|i: int| 0 <= i < done.push(k).len() && done.push(k)[i] == x;
                if i < done.len() {
                    assert(done[i] == x);
                }
            }
            if done.contains(x) {
                let i = choose|i: int| 0 <= i < done.len() && done[i] == x;
                assert(done.push(k)[i] == x);
            }
            if x == k {
                assert(done.push(k)[done.len() as int] == x);
            }
        }
        assert forall|x: usize| s.contains(x) <==> (t.contains(x) || x == s.last()) by {
            if s.contains(x) {
                let i = choose|i: int| 0 <= i < s.len() && s[i] == x;
                if i < t.len() {
                    assert(t[i] == x);
                }
            }
            if t.contains(x) {
                let i = choose|i: int| 0 <= i < t.len() && t[i] == x;
                assert(s[i] == x);
            }
        }
        if s.last() == k {
            assert(!t.contains(k)) by {
                if t.contains(k) {
                    let i = choose|i: int| 0 <= i < t.len() && t[i] == k;
                    assert(s[i] == s[s.len() - 1]);
                }
            }
        }
    }
}

proof fn lemma_outs_ins_distinct(edges: Seq<(usize, usize)>, upto: int, k: usize)
    requires
        0 <= upto <= edges.len(),
        edges.no_duplicates(),
    ensures
        outs(edges, upto, k).no_duplicates(),
        ins(edges, upto, k).no_duplicates(),
    decreases upto,
{
    if upto > 0 {
        lemma_outs_ins_distinct(edges, upto - 1, k);
        let e = edges[upto - 1];
        lemma_outs_ins_contains(edges, upto - 1, k, e.1);
        lemma_outs_ins_contains(edges, upto - 1, k, e.0);
        let o = outs(edges, upto - 1, k);
        let n = ins(edges, upto - 1, k);
        if e.0 == k {
            assert(!o.contains(e.1));
            assert(outs(edges, upto, k) == o.push(e.1));
            assert forall|i: int, j: int| 0 <= i < o.len() + 1 && 0 <= j < o.len() + 1 && i != j implies o.push(e.1)[i] != o.push(e.1)[j] by {
                if i == o.len() as int {
                    assert(o[j] != e.1);
                } else if j == o.len() as int {
                    assert(o[i] != e.1);
                }
            }
        }
        if e.1 == k {
            assert(!n.contains(e.0));
            assert(ins(edges, upto, k) == n.push(e.0));
            assert forall|i: int, j: int| 0 <= i < n.len() + 1 && 0 <= j < n.len() + 1 && i != j implies n.push(e.0)[i] != n.push(e.0)[j] by {
                if i == n.len() as int {
                    assert(n[j] != e.0);
                } else if j == n.len() as int {
                    assert(n[i] != e.0);
                }
            }
        }
    }
}


/// The number of nodes among the first `k` slots.
pub open spec fn count_present(nodes: Seq<Option<NGraphNode>>, k: int) -> nat
    decreases k,
{
    if k <= 0 {
        0
    } else {
        count_present(nodes, k - 1) + if nodes[k - 1] is Some {
            1nat
        } else {
            0nat
        }
    }
}

proof fn lemma_present_set(nodes: Seq<Option<NGraphNode>>, k: int)
    requires
        0 <= k <= nodes.len(),
        nodes.len() < usize::MAX,
    ensures
        Set::new(|x: usize| x < k && nodes[x as int] is Some).finite(),
        Set::new(|x: usize| x < k && nodes[x as int] is Some).len() == count_present(nodes, k),
    decreases k,
{
    let r = Set::new(|x: usize| x < k && nodes[x as int] is Some);
    if k == 0 {
        assert(r =~= Set::empty());
    } else {
        lemma_present_set(nodes, k - 1);
        let r1 = Set::new(|x: usize| x < k - 1 && nodes[x as int] is Some);
        if nodes[k - 1] is Some {
            assert(r =~= r1.insert((k - 1) as usize));
        } else {
            assert(r =~= r1);
        }
    }
}

impl NGraph {
    /// `t` lists every node once, and every edge's source before its target.
    pub open spec fn is_topo_order(&self, t: Seq<usize>) -> bool {
        &&& t.no_duplicates()
        &&& forall|i: int| 0 <= i < t.len() ==> self.present(#[trigger] t[i] as int)
        &&& forall|k: int| self.present(k) ==> t.contains(k as usize)
        &&& forall|e: int, j: int|
            0 <= e < self.edge_seq().len() && 0 <= j < t.len() && #[trigger] t[j] == (
            #[trigger] self.edge_seq()[e]).1 ==> t.subrange(0, j).contains(self.edge_seq()[e].0)
    }

    /// `c` is a cycle: each element has an edge to the next, and the last one
    /// has an edge to the first.
    pub open spec fn is_cycle(&self, c: Seq<usize>) -> bool {
        is_cycle_in(self.edge_seq(), c)
    }

    /// Orders the nodes so that every edge goes forward (Kahn's algorithm):
    /// `Ok` with the order when every node could be placed, otherwise `Err`
    /// with a cycle. The nodes left out are those downstream of a cycle; the
    /// cycle reported is what the depth-first search from the first of them
    /// (by key) whose search finds one finds.
    pub fn build(&mut self) -> (r: Result<Vec<usize>, Vec<usize>>)
        requires
            old(self).wf(),
        ensures
            *final(self) == *old(self),
            r is Ok <==> !final(self).has_cycle(),
            r is Ok ==> final(self).is_topo_order(r->Ok_0@),
            r is Err ==> final(self).is_cycle(r->Err_0@) && r->Err_0@.no_duplicates(),
            r is Err ==> exists|k: usize|
                #[trigger] final(self).dfs_found(k) == r->Err_0@ && final(self).present(k as int) && final(self).cycle_above(k)
                    && forall|j: usize|
                    j < k && final(self).present(j as int) && final(self).cycle_above(j)
                        ==> #[trigger] final(self).dfs_found(j).len() == 0,
    {
        let ghost es = self.edges@;
        let ghost len = self.edges.len() as int;
        let mut queue: VecDeque<usize> = VecDeque::new();
        let mut counts: Vec<usize> = Vec::with_capacity(self.nodes.len());
        let mut present: usize = 0;
        let mut k: usize = 0;
        while k < self.nodes.len()
            invariant
                self.wf(),
                es == self.edges@,
                len == es.len(),
                0 <= k <= self.nodes.len(),
                counts.len() == k,
                forall|j: int| 0 <= j < k ==> #[trigger] counts[j] == if self.present(j) {
                    ins(es, len, j as usize).len()
                } else {
                    0
                },
                queue@.no_duplicates(),
                forall|i: int| 0 <= i < queue@.len() ==> (#[trigger] queue@[i]) < k && self.present(queue@[i] as int)
                    && counts[queue@[i] as int] == 0,
                forall|j: int| 0 <= j < k && self.present(j) && #[trigger] counts[j] == 0 ==> queue@.contains(j as usize),
                present == count_present(self.nodes@, k as int),
                present <= k,
            decreases self.nodes.len() - k,
        {
            match &self.nodes[k] {
                Some(r) => {
                    proof {
                        assert(self.nodes[k as int]->0.from@ == ins(es, len, k as usize));
                    }
                    let ghost q0 = queue@;
                    if r.from.len() == 0 {
                        queue.push_back(k);
                        proof {
                            assert forall|i: int, j: int| 0 <= i < queue@.len() && 0 <= j < queue@.len() && i != j implies queue@[i] != queue@[j] by {
                                if i == q0.len() as int {
                                    assert(queue@[j] == q0[j]);
                                } else if j == q0.len() as int {
                                    assert(queue@[i] == q0[i]);
                                }
                            }
                            assert(queue@[q0.len() as int] == k);
                        }
                    }
                    counts.push(r.from.len());
                    present = present + 1;
                    proof {
                        assert forall|j: int| 0 <= j < k + 1 && self.present(j) && #[trigger] counts[j] == 0 implies queue@.contains(j as usize) by {
                            if j < k {
                                assert(q0.contains(j as usize));
                                let i = choose|i: int| 0 <= i < q0.len() && q0[i] == j as usize;
                                assert(queue@[i] == q0[i]);
                            } else {
                                assert(queue@[q0.len() as int] == k);
                            }
                        }
                    }
                },
                None => {
                    counts.push(0);
                },
            }
            k = k + 1;
        }
        let mut topological: Vec<usize> = Vec::new();
        let mut topological_len: usize = 0;
        proof {
            assert forall|j: int| 0 <= j < self.nodes.len() && self.present(j) implies #[trigger] counts[j] == pending(
                ins(es, len, j as usize), topological@) by {
                lemma_pending_empty(ins(es, len, j as usize));
            }
        }
        while queue.len() > 0
            invariant
                self.wf(),
                es == self.edges@,
                len == es.len(),
                *self == *old(self),
                counts.len() == self.nodes.len(),
                topological_len == topological@.len(),
                topological@.no_duplicates(),
                forall|i: int| 0 <= i < topological@.len() ==> self.present(#[trigger] topological@[i] as int),
                forall|j: int| 0 <= j < self.nodes.len() && self.present(j) ==> #[trigger] counts[j] == pending(
                    ins(es, len, j as usize), topological@),
                queue@.no_duplicates(),
                forall|i: int| 0 <= i < queue@.len() ==> self.present(#[trigger] queue@[i] as int)
                    && !topological@.contains(queue@[i]) && counts[queue@[i] as int] == 0,
                forall|j: int| 0 <= j < self.nodes.len() && self.present(j) && !topological@.contains(j as usize)
                    && #[trigger] counts[j] == 0 ==> queue@.contains(j as usize),
                forall|i: int, x: usize| 0 <= i < topological@.len() && #[trigger] ins(es, len, topological@[i]).contains(x)
                    ==> topological@.subrange(0, i).contains(x),
                topological@.len() <= self.nodes.len(),
            decreases self.nodes.len() - topological@.len(),
        {
            let ghost done = topological@;
            let ghost q0 = queue@;
            let k = queue.pop_front().unwrap();
            assert(q0[0] == k);
            assert(self.present(k as int));
            proof {
                lemma_pending_zero(ins(es, len, k), done);
            }
            topological.push(k);
            topological_len = topological_len + 1;
            let ghost done2 = topological@;
            proof {
                assert(done2 == done.push(k));
                assert forall|x: usize| done2.contains(x) <==> (done.contains(x) || x == k) by {
                    if done2.contains(x) {
                        let i = choose|i: int| 0 <= i < done2.len() && done2[i] == x;
                        if i < done.len() {
                            assert(done[i] == x);
                        }
                    }
                    if done.contains(x) {
                        let i = choose|i: int| 0 <= i < done.len() && done[i] == x;
                        assert(done2[i] == x);
                    }
                    if x == k {
                        assert(done2[done.len() as int] == x);
                    }
                }
                assert(done2.no_duplicates()) by {
                    assert forall|i: int, j: int| 0 <= i < done2.len() && 0 <= j < done2.len() && i != j implies done2[i] != done2[j] by {
                        if i == done.len() as int {
                            assert(done2[j] == done[j]);
                        } else if j == done.len() as int {
                            assert(done2[i] == done[i]);
                        } else {
                            assert(done2[i] == done[i] && done2[j] == done[j]);
                        }
                    }
                }
                assert forall|i: int, x: usize| 0 <= i < done2.len() && #[trigger] ins(es, len, done2[i]).contains(x)
                    implies done2.subrange(0, i).contains(x) by {
                    if i < done.len() {
                        assert(done2[i] == done[i]);
                        assert(done2.subrange(0, i) == done.subrange(0, i));
                    } else {
                        assert(done2.subrange(0, i) == done);
                        let m = choose|m: int| 0 <= m < ins(es, len, k).len() && ins(es, len, k)[m] == x;
                        assert(done.contains(ins(es, len, k)[m]));
                    }
                }
                lemma_outs_ins_distinct(es, len, k);
                assert forall|j: int| 0 <= j < self.nodes.len() && self.present(j) implies #[trigger] counts[j] == pending(
                    ins(es, len, j as usize), done2) + (if outs(es, len, k).subrange(0, outs(es, len, k).len() as int).contains(j as usize) {
                    1nat
                } else {
                    0nat
                }) by {
                    lemma_outs_ins_distinct(es, len, j as usize);
                    lemma_pending_push(ins(es, len, j as usize), done, k);
                    lemma_outs_ins_contains(es, len, k, j as usize);
                    lemma_outs_ins_contains(es, len, j as usize, k);
                    assert(outs(es, len, k).subrange(0, outs(es, len, k).len() as int) == outs(es, len, k));
                    assert(es.subrange(0, len) == es);
                }
                assert forall|i: int| 0 <= i < queue@.len() implies self.present(#[trigger] queue@[i] as int)
                    && !done2.contains(queue@[i]) && counts[queue@[i] as int] == 0 by {
                    assert(queue@[i] == q0[i + 1]);
                    assert(q0[i + 1] != q0[0]);
                }
                assert(queue@.no_duplicates()) by {
                    assert forall|i: int, j: int| 0 <= i < queue@.len() && 0 <= j < queue@.len() && i != j implies queue@[i] != queue@[j] by {
                        assert(queue@[i] == q0[i + 1] && queue@[j] == q0[j + 1]);
                    }
                }
                assert forall|j: int| 0 <= j < self.nodes.len() && self.present(j) && !done2.contains(j as usize)
                    && #[trigger] counts[j] == 0 implies queue@.contains(j as usize) by {
                    assert(q0.contains(j as usize));
                    let i = choose|i: int| 0 <= i < q0.len() && q0[i] == j as usize;
                    assert(i != 0);
                    assert(queue@[i - 1] == q0[i]);
                }
            }
            let node = self.nodes[k].as_ref().unwrap();
            let ghost outk = outs(es, len, k);
            assert(node.to@ == outk);
            let mut j: usize = 0;
            while j < node.to.len()
                invariant
                    self.wf(),
                    es == self.edges@,
                    len == es.len(),
                    *self == *old(self),
                    node.to@ == outk,
                    outk == outs(es, len, k),
                    outk.no_duplicates(),
                    done2 == topological@,
                    done2 == done.push(k),
                    done2.no_duplicates(),
                    !done.contains(k),
                    forall|x: usize| done2.contains(x) <==> (done.contains(x) || x == k),
                    forall|i: int, x: usize| 0 <= i < done2.len() && #[trigger] ins(es, len, done2[i]).contains(x)
                        ==> done2.subrange(0, i).contains(x),
                    0 <= j <= outk.len(),
                    counts.len() == self.nodes.len(),
                    forall|y: int| 0 <= y < self.nodes.len() && self.present(y) ==> #[trigger] counts[y] == pending(
                        ins(es, len, y as usize), done2) + (if outk.subrange(j as int, outk.len() as int).contains(y as usize) {
                        1nat
                    } else {
                        0nat
                    }),
                    queue@.no_duplicates(),
                    forall|i: int| 0 <= i < queue@.len() ==> self.present(#[trigger] queue@[i] as int)
                        && !done2.contains(queue@[i]) && counts[queue@[i] as int] == 0,
                    forall|y: int| 0 <= y < self.nodes.len() && self.present(y) && !done2.contains(y as usize)
                        && #[trigger] counts[y] == 0 ==> queue@.contains(y as usize),
                decreases outk.len() - j,
            {
                let t = node.to[j];
                proof {
                    lemma_outs_ins_contains(es, len, k, t);
                    assert(outk[j as int] == t);
                    let e = choose|e: int| 0 <= e < len && #[trigger] es[e] == (k, t);
                    assert(self.present(es[e].1 as int));
                    assert(outk.subrange(j as int, outk.len() as int)[0] == t);
                    lemma_outs_ins_contains(es, len, t, k);
                    assert(ins(es, len, t).contains(k));
                    if done2.contains(t) {
                        let i = choose|i: int| 0 <= i < done2.len() && done2[i] == t;
                        assert(done2.subrange(0, i).contains(k));
                        let m = choose|m: int| 0 <= m < i && done2.subrange(0, i)[m] == k;
                        assert(done2[m] == k);
                        assert(done2[done.len() as int] == k);
                        assert(false);
                    }
                }
                let c = counts[t];
                counts.set(t, c - 1);
                let ghost q1 = queue@;
                if c - 1 == 0 {
                    proof {
                        if q1.contains(t) {
                            let i = choose|i: int| 0 <= i < q1.len() && q1[i] == t;
                            assert(counts@[t as int] == 0);
                        }
                    }
                    queue.push_back(t);
                    proof {
                        assert(queue@ == q1.push(t));
                        assert(queue@.no_duplicates()) by {
                            assert forall|a: int, b: int| 0 <= a < queue@.len() && 0 <= b < queue@.len() && a != b implies queue@[a] != queue@[b] by {
                                if a == q1.len() as int {
                                    assert(queue@[b] == q1[b]);
                                } else if b == q1.len() as int {
                                    assert(queue@[a] == q1[a]);
                                }
                            }
                        }
                    }
                }
                proof {
                    let s0 = outk.subrange(j as int, outk.len() as int);
                    let s1 = outk.subrange(j + 1, outk.len() as int);
                    assert forall|y: usize| s0.contains(y) <==> (s1.contains(y) || y == t) by {
                        if s0.contains(y) {
                            let i = choose|i: int| 0 <= i < s0.len() && s0[i] == y;
                            if i > 0 {
                                assert(s1[i - 1] == y);
                            }
                        }
                        if s1.contains(y) {
                            let i = choose|i: int| 0 <= i < s1.len() && s1[i] == y;
                            assert(s0[i + 1] == y);
                        }
                    }
                    assert(!s1.contains(t)) by {
                        if s1.contains(t) {
                            let i = choose|i: int| 0 <= i < s1.len() && s1[i] == t;
                            assert(outk[j + 1 + i] == outk[j as int]);
                        }
                    }
                    assert forall|i: int| 0 <= i < queue@.len() implies self.present(#[trigger] queue@[i] as int)
                        && !done2.contains(queue@[i]) && counts[queue@[i] as int] == 0 by {
                        if i < q1.len() {
                            assert(queue@[i] == q1[i]);
                        }
                    }
                    assert forall|y: int| 0 <= y < self.nodes.len() && self.present(y) && !done2.contains(y as usize)
                        && #[trigger] counts[y] == 0 implies queue@.contains(y as usize) by {
                        if y == t as int {
                            assert(queue@[queue@.len() - 1] == t);
                        } else {
                            assert(q1.contains(y as usize));
                            let i = choose|i: int| 0 <= i < q1.len() && q1[i] == y as usize;
                            assert(queue@[i] == q1[i]);
                        }
                    }
                }
                j = j + 1;
            }
            proof {
                assert forall|y: int| 0 <= y < self.nodes.len() && self.present(y) implies #[trigger] counts[y] == pending(
                    ins(es, len, y as usize), done2) by {
                    assert(outk.subrange(j as int, outk.len() as int).len() == 0);
                }
                assert forall|i: int| 0 <= i < done2.len() implies self.present(#[trigger] done2[i] as int) by {
                    if i < done.len() {
                        assert(done2[i] == done[i]);
                    }
                }
                lemma_distinct_bound(done2, self.nodes.len() as nat);
            }
        }
        proof {
            lemma_present_set(self.nodes@, self.nodes.len() as int);
            assert forall|j: int| 0 <= j < self.nodes.len() && self.present(j) && !topological@.contains(
                j as usize) implies #[trigger] counts[j] != 0 by {
                if counts[j] == 0 {
                    assert(queue@.contains(j as usize));
                }
            }
        }
        let ghost t = topological@;
        let ghost cs = counts@;
        let mut all: usize = 0;
        let mut i: usize = 0;
        while i < self.nodes.len()
            invariant
                0 <= i <= self.nodes.len(),
                all == count_present(self.nodes@, i as int),
                all <= i,
            decreases self.nodes.len() - i,
        {
            if self.nodes[i].is_some() {
                all = all + 1;
            }
            i = i + 1;
        }
        if topological_len == all {
            proof {
                let ps = Set::new(|x: usize| x < self.nodes.len() && self.nodes[x as int] is Some);
                t.unique_seq_to_set();
                assert(t.to_set().subset_of(ps)) by {
                    assert forall|x: usize| t.to_set().contains(x) implies ps.contains(x) by {
                        let m = choose|m: int| 0 <= m < t.len() && t[m] == x;
                        assert(self.present(t[m] as int));
                    }
                }
                vstd::set_lib::lemma_subset_equality(t.to_set(), ps);
                assert forall|k: int| self.present(k) implies t.contains(k as usize) by {
                    assert(ps.contains(k as usize));
                    assert(t.to_set().contains(k as usize));
                }
                assert forall|e: int, j: int| 0 <= e < self.edges.len() && 0 <= j < t.len() && #[trigger] t[j] == (
                    #[trigger] self.edges[e]).1 implies t.subrange(0, j).contains(self.edges[e].0) by {
                    lemma_outs_ins_contains(es, len, t[j], self.edges[e].0);
                    assert(es[e] == (self.edges[e].0, t[j]));
                }
            }
            proof {
                if self.has_cycle() {
                    let c = choose|c: Seq<usize>| self.is_cycle(c);
                    self.lemma_topo_no_cycle(t, c);
                }
            }
            return Ok(topological);
        }
        proof {
            let ps = Set::new(|x: usize| x < self.nodes.len() && self.nodes[x as int] is Some);
            t.unique_seq_to_set();
            assert(t.to_set().subset_of(ps)) by {
                assert forall|x: usize| t.to_set().contains(x) implies ps.contains(x) by {
                    let m = choose|m: int| 0 <= m < t.len() && t[m] == x;
                    assert(self.present(t[m] as int));
                }
            }
            if forall|k: int| self.present(k) ==> t.contains(k as usize) {
                assert(ps.subset_of(t.to_set())) by {
                    assert forall|x: usize| ps.contains(x) implies t.to_set().contains(x) by {
                        assert(self.present(x as int));
                    }
                }
                assert(t.to_set() =~= ps);
                assert(false);
            }
            let u = choose|k: int| self.present(k) && !t.contains(k as usize);
            self.lemma_stuck_has_cycle(t, cs, u as usize);
            self.lemma_unplaced_iff(t, cs);
        }
        let mut k: usize = 0;
        while k < self.nodes.len()
            invariant
                self.wf(),
                *self == *old(self),
                self.has_cycle(),
                t == topological@,
                t.no_duplicates(),
                forall|i: int, x: usize| 0 <= i < t.len() && #[trigger] ins(self.edges@, self.edges.len() as int, t[i]).contains(x)
                    ==> t.subrange(0, i).contains(x),
                forall|j: int| 0 <= j < k && self.present(j) && !t.contains(j as usize) ==> !self.on_cycle(j as usize),
                forall|j: usize| self.present(j as int) ==> (!t.contains(j) <==> #[trigger] self.cycle_above(j)),
                forall|j: usize| j < k && self.present(j as int) && self.cycle_above(j) ==> #[trigger] self.dfs_found(j).len()
                    == 0,
            decreases self.nodes.len() - k,
        {
            if self.nodes[k].is_some() && !vec_contains(&topological, k) {
                let mut cycle_keys: Vec<usize> = Vec::new();
                self.find_cycle(k, &mut cycle_keys, Vec::new(), HashSet::new());
                if cycle_keys.len() > 0 {
                    proof {
                        assert(self.present(k as int));
                        assert(self.cycle_above(k));
                    }
                    return Err(cycle_keys);
                }
            }
            k = k + 1;
        }
        proof {
            let c = choose|c: Seq<usize>| self.is_cycle(c);
            self.lemma_placed_off_cycle(t, c);
            let e = choose|e: int| 0 <= e < self.edges.len() && self.edges@[e] == (c.last(), c[0]);
            assert(self.present(self.edges[e].1 as int));
            assert(self.on_cycle(c[0]));
        }
        Err(Vec::new())
    }
}

impl NGraph {
    /// Some cycle runs through the graph.
    pub open spec fn has_cycle(&self) -> bool {
        exists|c: Seq<usize>| self.is_cycle(c)
    }

    /// `k` starts some cycle.
    pub open spec fn on_cycle(&self, k: usize) -> bool {
        exists|c: Seq<usize>| #[trigger] self.is_cycle(c) && c[0] == k
    }

    /// `k` lies downstream of a cycle: some walk leads from a node of a cycle
    /// to `k` (a node of a cycle counts).
    pub open spec fn cycle_above(&self, k: usize) -> bool {
        exists|c: Seq<usize>, p: Seq<usize>|
            #[trigger] self.is_cycle(c) && #[trigger] self.is_walk(p) && p[0] == c[0] && p.last() == k
    }

    /// Along a walk that ends at a node placed after all its predecessors,
    /// every node is placed, the first one included.
    #[verifier::spinoff_prover]
    proof fn lemma_placed_walk(&self, t: Seq<usize>, p: Seq<usize>)
        requires
            self.wf(),
            forall|i: int, x: usize| 0 <= i < t.len() && #[trigger] ins(self.edges@, self.edges.len() as int, t[i]).contains(x)
                ==> t.subrange(0, i).contains(x),
            self.is_walk(p),
            t.contains(p.last()),
        ensures
            t.contains(p[0]),
        decreases p.len(),
    {
        if p.len() > 1 {
            let es = self.edges@;
            let len = self.edges.len() as int;
            let n = p.len() - 1;
            let x = p[n - 1];
            let y = p[n];
            assert(es.contains((p[n - 1], p[n])));
            let e = choose|e: int| 0 <= e < len && es[e] == (x, y);
            lemma_outs_ins_contains(es, len, y, x);
            assert(es[e] == (x, y));
            let i = choose|i: int| 0 <= i < t.len() && t[i] == y;
            assert(ins(es, len, t[i]).contains(x));
            let q = choose|q: int| 0 <= q < i && t.subrange(0, i)[q] == x;
            assert(t[q] == x);
            let p2 = p.drop_last();
            assert forall|j: int| 0 <= j < p2.len() - 1 implies self.edge_seq().contains((#[trigger] p2[j], p2[j + 1])) by {
                assert(p2[j] == p[j] && p2[j + 1] == p[j + 1]);
            }
            assert(p2.last() == x);
            self.lemma_placed_walk(t, p2);
        }
    }

    /// A walk backwards that meets a node twice, at `i` and `j`, closes a
    /// cycle that starts at that node.
    #[verifier::spinoff_prover]
    proof fn lemma_cycle_of_walk(&self, w: Seq<usize>, i: int, j: int) -> (c: Seq<usize>)
        requires
            0 <= i < j < w.len(),
            w[i] == w[j],
            forall|k: int| 0 <= k < w.len() - 1 ==> self.edges@.contains((w[k + 1], #[trigger] w[k])),
        ensures
            self.is_cycle(c),
            c[0] == w[i],
    {
        let c = Seq::new((j - i) as nat, |t: int| w[j - t]);
        assert forall|t: int| 0 <= t < c.len() - 1 implies self.edges@.contains((#[trigger] c[t], c[t + 1])) by {
            let k = j - t - 1;
            assert(c[t] == w[k + 1] && c[t + 1] == w[k]);
        }
        assert(c.last() == w[i + 1]);
        assert(c[0] == w[i]);
        c
    }

    /// A walk backwards from `w[0]` to `w[i]`, read forwards, is a walk.
    #[verifier::spinoff_prover]
    proof fn lemma_walk_forward(&self, w: Seq<usize>, i: int) -> (p: Seq<usize>)
        requires
            0 <= i < w.len(),
            forall|k: int| 0 <= k < w.len() - 1 ==> self.edges@.contains((w[k + 1], #[trigger] w[k])),
        ensures
            self.is_walk(p),
            p[0] == w[i],
            p.last() == w[0],
    {
        let p = Seq::new((i + 1) as nat, |t: int| w[i - t]);
        assert forall|t: int| 0 <= t < p.len() - 1 implies self.edge_seq().contains((#[trigger] p[t], p[t + 1])) by {
            let k = i - t - 1;
            assert(p[t] == w[k + 1] && p[t + 1] == w[k]);
        }
        assert(p.last() == w[0]);
        p
    }

    /// With every node outside `done` waiting on a predecessor outside it,
    /// each such node lies downstream of a cycle.
    #[verifier::spinoff_prover]
    proof fn lemma_open_preds_cycle_above(&self, done: Seq<usize>, u: usize)
        requires
            self.wf(),
            self.present(u as int),
            !done.contains(u),
            forall|y: usize| self.present(y as int) && !done.contains(y) ==> #[trigger] self.open_pred(done, y),
        ensures
            self.cycle_above(u),
    {
        let n = self.nodes.len() as nat;
        let w = self.lemma_backward_walk(done, u, n);
        let (i, j) = lemma_repeat(w, n);
        let c = self.lemma_cycle_of_walk(w, i, j);
        let p = self.lemma_walk_forward(w, i);
        assert(self.is_cycle(c) && self.is_walk(p) && p[0] == c[0] && p.last() == u);
    }

    /// After Kahn's placing stops, a node is left out exactly when it lies
    /// downstream of a cycle.
    #[verifier::spinoff_prover]
    proof fn lemma_unplaced_iff(&self, done: Seq<usize>, counts: Seq<usize>)
        requires
            self.wf(),
            done.no_duplicates(),
            forall|i: int, x: usize| 0 <= i < done.len() && #[trigger] ins(self.edges@, self.edges.len() as int, done[i]).contains(x)
                ==> done.subrange(0, i).contains(x),
            counts.len() == self.nodes.len(),
            forall|j: int|
                0 <= j < self.nodes.len() && self.present(j) ==> #[trigger] counts[j] == pending(
                    ins(self.edges@, self.edges.len() as int, j as usize),
                    done,
                ),
            forall|j: int|
                0 <= j < self.nodes.len() && self.present(j) && !done.contains(j as usize) ==> #[trigger] counts[j]
                    != 0,
        ensures
            forall|k: usize| self.present(k as int) ==> (!done.contains(k) <==> #[trigger] self.cycle_above(k)),
    {
        assert forall|y: usize| self.present(y as int) && !done.contains(y) implies #[trigger] self.open_pred(
            done, y) by {
            assert(counts[y as int] != 0);
            self.lemma_waiting_open_pred(done, y);
        }
        assert forall|k: usize| self.present(k as int) implies (!done.contains(k) <==> #[trigger] self.cycle_above(k)) by {
            if !done.contains(k) {
                self.lemma_open_preds_cycle_above(done, k);
            }
            if self.cycle_above(k) && done.contains(k) {
                let (c, p) = choose|c: Seq<usize>, p: Seq<usize>|
                    #[trigger] self.is_cycle(c) && #[trigger] self.is_walk(p) && p[0] == c[0] && p.last() == k;
                self.lemma_placed_walk(done, p);
                self.lemma_placed_off_cycle(done, c);
            }
        }
    }

    /// Going back along a cycle from a placed node, each predecessor was
    /// placed earlier still.
    proof fn lemma_placed_back(&self, t: Seq<usize>, c: Seq<usize>, p0: int, m: int) -> (q: int)
        requires
            self.wf(),
            forall|i: int, x: usize| 0 <= i < t.len() && #[trigger] ins(self.edges@, self.edges.len() as int, t[i]).contains(x)
                ==> t.subrange(0, i).contains(x),
            self.is_cycle(c),
            0 <= p0 < t.len(),
            t[p0] == c[0],
            0 <= m <= c.len(),
        ensures
            0 <= q < t.len(),
            q <= p0 - m,
            t[q] == if m == 0 {
                c[0]
            } else {
                c[c.len() - m]
            },
        decreases m,
    {
        if m == 0 {
            p0
        } else {
            let es = self.edges@;
            let len = self.edges.len() as int;
            let q1 = self.lemma_placed_back(t, c, p0, m - 1);
            let y = t[q1];
            let x = c[c.len() - m];
            assert(es.contains((x, y))) by {
                if m == 1 {
                    assert(x == c.last());
                } else {
                    assert(es.contains((c[c.len() - m], c[c.len() - m + 1])));
                }
            }
            let e = choose|e: int| 0 <= e < len && es[e] == (x, y);
            lemma_outs_ins_contains(es, len, y, x);
            assert(es[e] == (x, y));
            assert(ins(es, len, t[q1]).contains(x));
            let q = choose|q: int| 0 <= q < q1 && t.subrange(0, q1)[q] == x;
            assert(t[q] == x);
            q
        }
    }

    /// A node placed after all its predecessors starts no cycle: going back
    /// around the cycle would place it before itself.
    proof fn lemma_placed_off_cycle(&self, t: Seq<usize>, c: Seq<usize>)
        requires
            self.wf(),
            t.no_duplicates(),
            forall|i: int, x: usize| 0 <= i < t.len() && #[trigger] ins(self.edges@, self.edges.len() as int, t[i]).contains(x)
                ==> t.subrange(0, i).contains(x),
            self.is_cycle(c),
        ensures
            !t.contains(c[0]),
    {
        if t.contains(c[0]) {
            let p0 = choose|p: int| 0 <= p < t.len() && t[p] == c[0];
            let q = self.lemma_placed_back(t, c, p0, c.len() as int);
            assert(t[q] == t[p0]);
        }
    }

    /// `y` has a predecessor that is not in `done`.
    spec fn open_pred(&self, done: Seq<usize>, y: usize) -> bool {
        exists|x: usize| !done.contains(x) && #[trigger] self.edges@.contains((x, y))
    }

    /// An edge goes forward in a topological order.
    proof fn lemma_topo_edge(&self, t: Seq<usize>, a: usize, b: usize) -> (p: (int, int))
        requires
            self.wf(),
            self.is_topo_order(t),
            self.edges@.contains((a, b)),
        ensures
            0 <= p.0 < p.1 < t.len(),
            t[p.0] == a,
            t[p.1] == b,
    {
        let e = choose|e: int| 0 <= e < self.edges.len() && self.edges@[e] == (a, b);
        assert(self.present(self.edges[e].1 as int));
        assert(t.contains(b));
        let j = choose|j: int| 0 <= j < t.len() && t[j] == b;
        assert(t[j] == self.edge_seq()[e].1);
        assert(t.subrange(0, j).contains(self.edge_seq()[e].0));
        let i = choose|i: int| 0 <= i < j && t.subrange(0, j)[i] == a;
        (i, j)
    }

    /// Along a cycle the positions in a topological order keep rising.
    #[verifier::spinoff_prover]
    proof fn lemma_topo_chain(&self, t: Seq<usize>, c: Seq<usize>, p0: int, k: int) -> (p: int)
        requires
            self.wf(),
            self.is_topo_order(t),
            self.is_cycle(c),
            0 <= p0 < t.len(),
            t[p0] == c[0],
            0 <= k < c.len(),
        ensures
            0 <= p < t.len(),
            t[p] == c[k],
            p >= p0 + k,
        decreases k,
    {
        if k == 0 {
            p0
        } else {
            let q = self.lemma_topo_chain(t, c, p0, k - 1);
            assert(self.edges@.contains((c[k - 1], c[k])));
            let (i, j) = self.lemma_topo_edge(t, c[k - 1], c[k]);
            assert(i == q);
            j
        }
    }

    /// A graph with a topological order has no cycle.
    proof fn lemma_topo_no_cycle(&self, t: Seq<usize>, c: Seq<usize>)
        requires
            self.wf(),
            self.is_topo_order(t),
        ensures
            !self.is_cycle(c),
    {
        if self.is_cycle(c) {
            let (a, p0) = self.lemma_topo_edge(t, c.last(), c[0]);
            let q = self.lemma_topo_chain(t, c, p0, c.len() - 1);
            assert(a == q);
        }
    }

    /// From a node outside `done` whose every such node has a predecessor
    /// outside `done`, one can walk backwards along edges for `m` steps.
    proof fn lemma_backward_walk(&self, done: Seq<usize>, u: usize, m: nat) -> (w: Seq<usize>)
        requires
            self.wf(),
            self.present(u as int),
            !done.contains(u),
            forall|y: usize| self.present(y as int) && !done.contains(y) ==> #[trigger] self.open_pred(done, y),
        ensures
            w.len() == m + 1,
            w[0] == u,
            forall|i: int| 0 <= i < w.len() ==> self.present(#[trigger] w[i] as int) && !done.contains(w[i]),
            forall|i: int| 0 <= i < m ==> self.edges@.contains((w[i + 1], #[trigger] w[i])),
        decreases m,
    {
        if m == 0 {
            seq![u]
        } else {
            let w0 = self.lemma_backward_walk(done, u, (m - 1) as nat);
            let y = w0[m - 1];
            assert(self.open_pred(done, y));
            let x = choose|x: usize| !done.contains(x) && #[trigger] self.edges@.contains((x, y));
            let e = choose|e: int| 0 <= e < self.edges.len() && self.edges@[e] == (x, y);
            assert(self.present(self.edges[e].0 as int));
            let w = w0.push(x);
            assert forall|i: int| 0 <= i < w.len() implies self.present(#[trigger] w[i] as int) && !done.contains(
                w[i]) by {
                if i < w0.len() {
                    assert(w[i] == w0[i]);
                }
            }
            assert forall|i: int| 0 <= i < m implies self.edges@.contains((w[i + 1], #[trigger] w[i])) by {
                assert(w[i] == w0[i]);
                if i < m - 1 {
                    assert(w[i + 1] == w0[i + 1]);
                }
            }
            w
        }
    }

    /// A walk backwards that meets a node twice closes a cycle.
    #[verifier::spinoff_prover]
    proof fn lemma_cycle_from_walk(&self, w: Seq<usize>, i: int, j: int)
        requires
            0 <= i < j < w.len(),
            w[i] == w[j],
            forall|k: int| 0 <= k < w.len() - 1 ==> self.edges@.contains((w[k + 1], #[trigger] w[k])),
        ensures
            self.has_cycle(),
    {
        let c = Seq::new((j - i) as nat, |t: int| w[j - t]);
        assert forall|t: int| 0 <= t < c.len() - 1 implies self.edges@.contains((#[trigger] c[t], c[t + 1])) by {
            let k = j - t - 1;
            assert(c[t] == w[k + 1] && c[t + 1] == w[k]);
        }
        assert(c.last() == w[i + 1]);
        assert(c[0] == w[i]);
        assert(self.is_cycle(c));
    }

    /// A node whose predecessors are not all in `done` has one outside it.
    proof fn lemma_waiting_open_pred(&self, done: Seq<usize>, y: usize)
        requires
            pending(ins(self.edges@, self.edges.len() as int, y), done) != 0,
        ensures
            self.open_pred(done, y),
    {
        let es = self.edges@;
        let len = self.edges.len() as int;
        let s = ins(es, len, y);
        lemma_pending_zero(s, done);
        let i = choose|i: int| 0 <= i < s.len() && !done.contains(#[trigger] s[i]);
        lemma_outs_ins_len(es, len, y);
        lemma_outs_ins_contains(es, len, y, s[i]);
        let e = choose|e: int| 0 <= e < len && #[trigger] es[e] == (s[i], y);
        assert(es.contains((s[i], y)));
    }

    /// When every node outside `done` still waits on a predecessor outside
    /// `done`, and there is such a node, the graph has a cycle.
    #[verifier::spinoff_prover]
    proof fn lemma_stuck_has_cycle(&self, done: Seq<usize>, counts: Seq<usize>, u: usize)
        requires
            self.wf(),
            self.present(u as int),
            !done.contains(u),
            counts.len() == self.nodes.len(),
            forall|j: int|
                0 <= j < self.nodes.len() && self.present(j) ==> #[trigger] counts[j] == pending(
                    ins(self.edges@, self.edges.len() as int, j as usize),
                    done,
                ),
            forall|j: int|
                0 <= j < self.nodes.len() && self.present(j) && !done.contains(j as usize) ==> #[trigger] counts[j]
                    != 0,
        ensures
            self.has_cycle(),
    {
        assert forall|y: usize| self.present(y as int) && !done.contains(y) implies #[trigger] self.open_pred(
            done, y) by {
            assert(counts[y as int] != 0);
            self.lemma_waiting_open_pred(done, y);
        }
        self.lemma_open_preds_cycle(done, u);
    }

    #[verifier::spinoff_prover]
    proof fn lemma_open_preds_cycle(&self, done: Seq<usize>, u: usize)
        requires
            self.wf(),
            self.present(u as int),
            !done.contains(u),
            forall|y: usize| self.present(y as int) && !done.contains(y) ==> #[trigger] self.open_pred(done, y),
        ensures
            self.has_cycle(),
    {
        let n = self.nodes.len() as nat;
        let w = self.lemma_backward_walk(done, u, n);
        let (i, j) = lemma_repeat(w, n);
        self.lemma_cycle_from_walk(w, i, j);
    }
}

/// A sequence longer than `n` drawn from `0..n` repeats an element.
proof fn lemma_repeat(w: Seq<usize>, n: nat) -> (p: (int, int))
    requires
        w.len() > n,
        forall|i: int| 0 <= i < w.len() ==> w[i] < n,
    ensures
        0 <= p.0 < p.1 < w.len(),
        w[p.0] == w[p.1],
{
    if w.no_duplicates() {
        lemma_distinct_bound(w, n);
    }
    let (i, j) = choose|i: int, j: int| 0 <= i < w.len() && 0 <= j < w.len() && i != j && w[i] == w[j];
    if i < j {
        (i, j)
    } else {
        (j, i)
    }
}

/// `x` occurs in `v`.
fn vec_contains(v: &Vec<usize>, x: usize) -> (b: bool)
    ensures
        b == v@.contains(x),
{
    let mut i: usize = 0;
    while i < v.len()
        invariant
            0 <= i <= v@.len(),
            forall|j: int| 0 <= j < i ==> v@[j] != x,
        decreases v@.len() - i,
    {
        if v[i] == x {
            return true;
        }
        i = i + 1;
    }
    false
}


/// `b` to the power `e`.
pub open spec fn pw(b: nat, e: nat) -> nat
    decreases e,
{
    if e == 0 {
        1
    } else {
        b * pw(b, (e - 1) as nat)
    }
}

proof fn lemma_pw_pos(b: nat, e: nat)
    requires
        b > 0,
    ensures
        pw(b, e) > 0,
    decreases e,
{
    if e > 0 {
        lemma_pw_pos(b, (e - 1) as nat);
        assert(b * pw(b, (e - 1) as nat) > 0) by (nonlinear_arith)
            requires
                b > 0,
                pw(b, (e - 1) as nat) > 0,
        ;
    }
}

/// The termination measure of the depth-first search: each level of the
/// stack weighs the children it has left to try, the shallower levels
/// weighing more than all deeper ones together.
pub open spec fn dfs_weight(ix: Seq<usize>, n: nat) -> int
    decreases ix.len(),
{
    if ix.len() == 0 {
        0
    } else {
        dfs_weight(ix.drop_last(), n) + (n + 1 - ix.last()) * pw(n + 2, (n - (ix.len() - 1)) as nat)
    }
}

proof fn lemma_dfs_weight_nonneg(ix: Seq<usize>, n: nat)
    requires
        forall|j: int| 0 <= j < ix.len() ==> ix[j] <= n + 1,
    ensures
        dfs_weight(ix, n) >= 0,
    decreases ix.len(),
{
    if ix.len() > 0 {
        lemma_dfs_weight_nonneg(ix.drop_last(), n);
        let c = n + 1 - ix.last();
        let p = pw(n + 2, (n - (ix.len() - 1)) as nat);
        assert(c * p >= 0) by (nonlinear_arith)
            requires
                c >= 0,
                p >= 0,
        ;
    }
}

/// Trying the next child of the top level and pushing a fresh level lowers
/// the weight.
proof fn lemma_dfs_weight_push(ix: Seq<usize>, n: nat)
    requires
        ix.len() > 0,
        ix.len() + 1 <= n + 1,
        ix.last() <= n,
        ix.last() < usize::MAX,
    ensures
        dfs_weight(ix.drop_last().push((ix.last() + 1) as usize).push(0), n) < dfs_weight(ix, n),
{
    let m = ix.len() - 1;
    let a = ix.drop_last().push((ix.last() + 1) as usize);
    let b = a.push(0usize);
    assert(b.drop_last() == a);
    assert(a.drop_last() == ix.drop_last());
    let q = pw(n + 2, (n - (m + 1)) as nat);
    let p = pw(n + 2, (n - m) as nat);
    assert(p == (n + 2) * q);
    lemma_pw_pos(n + 2, (n - (m + 1)) as nat);
    let l = ix.last() as int;
    assert(a.last() == l + 1);
    assert(dfs_weight(b, n) == dfs_weight(a, n) + (n + 1 - 0) * q);
    assert(dfs_weight(a, n) == dfs_weight(ix.drop_last(), n) + (n + 1 - (l + 1)) * p);
    assert(dfs_weight(ix, n) == dfs_weight(ix.drop_last(), n) + (n + 1 - l) * p);
    assert((n - l) * p + (n + 1) * q < (n + 1 - l) * p) by (nonlinear_arith)
        requires
            p == (n + 2) * q,
            q > 0,
    ;
}

/// Dropping an exhausted top level lowers the weight.
proof fn lemma_dfs_weight_pop(ix: Seq<usize>, n: nat)
    requires
        ix.len() > 0,
        ix.len() <= n + 1,
        ix.last() <= n,
    ensures
        dfs_weight(ix.drop_last(), n) < dfs_weight(ix, n),
{
    let p = pw(n + 2, (n - (ix.len() - 1)) as nat);
    lemma_pw_pos(n + 2, (n - (ix.len() - 1)) as nat);
    let c = n + 1 - ix.last();
    assert(c * p > 0) by (nonlinear_arith)
        requires
            c > 0,
            p > 0,
    ;
}


impl NGraph {
    /// Every successor of `k` is a node, none is listed twice, and so there
    /// are at most as many as there are slots.
    proof fn lemma_outs_bound(&self, k: usize)
        requires
            self.wf(),
            self.present(k as int),
        ensures
            outs(self.edges@, self.edges.len() as int, k).no_duplicates(),
            forall|i: int|
                0 <= i < outs(self.edges@, self.edges.len() as int, k).len() ==> self.present(
                    #[trigger] outs(self.edges@, self.edges.len() as int, k)[i] as int,
                ),
            outs(self.edges@, self.edges.len() as int, k).len() <= self.nodes.len(),
    {
        let es = self.edges@;
        let len = self.edges.len() as int;
        let o = outs(es, len, k);
        lemma_outs_ins_distinct(es, len, k);
        assert forall|i: int| 0 <= i < o.len() implies self.present(#[trigger] o[i] as int) by {
            lemma_outs_ins_contains(es, len, k, o[i]);
            let e = choose|e: int| 0 <= e < len && #[trigger] es[e] == (k, o[i]);
            assert(self.present(es[e].1 as int));
        }
        lemma_distinct_bound(o, self.nodes.len() as nat);
    }

    /// `st` is a path of the search, `ix[j]` the number of successors of
    /// `st[j]` tried so far, the last one tried leading to `st[j + 1]`.
    spec fn search_path(&self, st: Seq<usize>, ix: Seq<usize>) -> bool {
        &&& st.len() == ix.len()
        &&& st.no_duplicates()
        &&& forall|j: int| 0 <= j < st.len() ==> self.present(#[trigger] st[j] as int)
        &&& forall|j: int|
            0 <= j < ix.len() ==> #[trigger] ix[j] <= outs(self.edges@, self.edges.len() as int, st[j]).len()
        &&& forall|j: int|
            0 <= j < st.len() - 1 ==> #[trigger] ix[j] >= 1 && outs(self.edges@, self.edges.len() as int, st[j])[ix[j]
                - 1] == st[j + 1]
    }

    proof fn lemma_search_weight(&self, st: Seq<usize>, ix: Seq<usize>)
        requires
            self.wf(),
            self.search_path(st, ix),
        ensures
            forall|j: int| 0 <= j < ix.len() ==> ix[j] <= self.nodes.len() + 1,
            dfs_weight(ix, self.nodes.len() as nat) >= 0,
            st.len() <= self.nodes.len(),
    {
        assert forall|j: int| 0 <= j < ix.len() implies ix[j] <= self.nodes.len() + 1 by {
            self.lemma_outs_bound(st[j]);
        }
        lemma_dfs_weight_nonneg(ix, self.nodes.len() as nat);
        lemma_distinct_bound(st, self.nodes.len() as nat);
    }

    /// Leaving an exhausted node keeps a path and lowers the weight.
    proof fn lemma_search_pop(&self, st: Seq<usize>, ix: Seq<usize>)
        requires
            self.wf(),
            self.search_path(st, ix),
            st.len() > 0,
        ensures
            self.search_path(st.drop_last(), ix.drop_last()),
            dfs_weight(ix.drop_last(), self.nodes.len() as nat) < dfs_weight(ix, self.nodes.len() as nat),
    {
        self.lemma_search_weight(st, ix);
        self.lemma_outs_bound(st.last());
        lemma_dfs_weight_pop(ix, self.nodes.len() as nat);
        let s2 = st.drop_last();
        let i2 = ix.drop_last();
        assert forall|j: int| 0 <= j < s2.len() - 1 implies #[trigger] i2[j] >= 1 && outs(
            self.edges@, self.edges.len() as int, s2[j])[i2[j] - 1] == s2[j + 1] by {
            assert(s2[j] == st[j] && s2[j + 1] == st[j + 1] && i2[j] == ix[j]);
        }
    }

    /// Stepping to an untried successor that is not on the path keeps a
    /// path and lowers the weight.
    proof fn lemma_search_push(&self, st: Seq<usize>, ix: Seq<usize>, child: usize)
        requires
            self.wf(),
            self.search_path(st, ix),
            st.len() > 0,
            ix.last() < outs(self.edges@, self.edges.len() as int, st.last()).len(),
            child == outs(self.edges@, self.edges.len() as int, st.last())[ix.last() as int],
            !st.contains(child),
        ensures
            self.search_path(st.push(child), ix.drop_last().push((ix.last() + 1) as usize).push(0)),
            dfs_weight(ix.drop_last().push((ix.last() + 1) as usize).push(0), self.nodes.len() as nat)
                < dfs_weight(ix, self.nodes.len() as nat),
    {
        let n = self.nodes.len() as nat;
        let es = self.edges@;
        let len = self.edges.len() as int;
        self.lemma_search_weight(st, ix);
        self.lemma_outs_bound(st.last());
        assert(self.present(child as int));
        let s2 = st.push(child);
        let i2 = ix.drop_last().push((ix.last() + 1) as usize).push(0);
        assert(s2.no_duplicates()) by {
            assert forall|a: int, b: int| 0 <= a < s2.len() && 0 <= b < s2.len() && a != b implies s2[a] != s2[b] by {
                if a == st.len() as int {
                    assert(s2[b] == st[b]);
                } else if b == st.len() as int {
                    assert(s2[a] == st[a]);
                } else {
                    assert(s2[a] == st[a] && s2[b] == st[b]);
                }
            }
        }
        lemma_distinct_bound(s2, n);
        assert forall|j: int| 0 <= j < s2.len() implies self.present(#[trigger] s2[j] as int) by {
            if j < st.len() {
                assert(s2[j] == st[j]);
            }
        }
        assert forall|j: int| 0 <= j < i2.len() implies #[trigger] i2[j] <= outs(es, len, s2[j]).len() by {
            if j < st.len() {
                assert(s2[j] == st[j]);
            }
        }
        assert forall|j: int| 0 <= j < s2.len() - 1 implies #[trigger] i2[j] >= 1 && outs(es, len, s2[j])[i2[j]
            - 1] == s2[j + 1] by {
            assert(s2[j] == st[j]);
            if j < st.len() - 1 {
                assert(s2[j + 1] == st[j + 1]);
                assert(i2[j] == ix[j]);
            }
        }
        lemma_dfs_weight_push(ix, n);
    }

    /// `p` is a walk: each element has an edge to the next.
    pub open spec fn is_walk(&self, p: Seq<usize>) -> bool {
        &&& p.len() > 0
        &&& forall|i: int| 0 <= i < p.len() - 1 ==> self.edge_seq().contains((#[trigger] p[i], p[i + 1]))
    }

    /// No walk from `c` meets a node of `t`.
    spec fn avoids(&self, c: usize, t: Seq<usize>) -> bool {
        forall|p: Seq<usize>|
            #[trigger] self.is_walk(p) && p[0] == c ==> forall|i: int| 0 <= i < p.len() ==> !t.contains(p[i])
    }

    /// Every successor tried from a level of the search path, and left
    /// behind, leads nowhere back to the path up to that level.
    spec fn search_dead(&self, st: Seq<usize>, ix: Seq<usize>) -> bool {
        forall|j: int, q: int|
            0 <= j < st.len() && 0 <= q < ix[j] && (j == st.len() - 1 || q < ix[j] - 1) ==> self.avoids(
                #[trigger] outs(self.edges@, self.edges.len() as int, st[j])[q],
                st.subrange(0, j + 1),
            )
    }

    /// A successor of `v` is listed among its successors.
    proof fn lemma_successor_index(&self, v: usize, y: usize) -> (q: int)
        requires
            self.edges@.contains((v, y)),
        ensures
            0 <= q < outs(self.edges@, self.edges.len() as int, v).len(),
            outs(self.edges@, self.edges.len() as int, v)[q] == y,
    {
        let es = self.edges@;
        let len = self.edges.len() as int;
        let e = choose|e: int| 0 <= e < len && es[e] == (v, y);
        lemma_outs_ins_contains(es, len, v, y);
        assert(es[e] == (v, y));
        choose|q: int| 0 <= q < outs(es, len, v).len() && outs(es, len, v)[q] == y
    }

    /// Stepping to an untried successor keeps what the levels left behind.
    proof fn lemma_dead_push(&self, st: Seq<usize>, ix: Seq<usize>, child: usize)
        requires
            self.search_path(st, ix),
            self.search_dead(st, ix),
            st.len() > 0,
            ix.last() < outs(self.edges@, self.edges.len() as int, st.last()).len(),
            ix.last() < usize::MAX,
            child == outs(self.edges@, self.edges.len() as int, st.last())[ix.last() as int],
        ensures
            self.search_dead(st.push(child), ix.drop_last().push((ix.last() + 1) as usize).push(0)),
    {
        let es = self.edges@;
        let len = self.edges.len() as int;
        let s2 = st.push(child);
        let i2 = ix.drop_last().push((ix.last() + 1) as usize).push(0);
        let m = st.len() - 1;
        assert forall|j: int, q: int|
            0 <= j < s2.len() && 0 <= q < i2[j] && (j == s2.len() - 1 || q < i2[j] - 1) implies self.avoids(
            #[trigger] outs(es, len, s2[j])[q],
            s2.subrange(0, j + 1),
        ) by {
            assert(j < st.len());
            assert(s2[j] == st[j]);
            assert(s2.subrange(0, j + 1) == st.subrange(0, j + 1));
            if j < m {
                assert(i2[j] == ix[j]);
            } else {
                assert(i2[j] == ix[j] + 1);
            }
            assert(self.avoids(outs(es, len, st[j])[q], st.subrange(0, j + 1)));
        }
    }

    /// Leaving an exhausted level keeps what the levels left behind, now
    /// with the level left as well.
    #[verifier::spinoff_prover]
    proof fn lemma_dead_pop(&self, st: Seq<usize>, ix: Seq<usize>)
        requires
            self.wf(),
            self.search_path(st, ix),
            self.search_dead(st, ix),
            st.len() >= 2,
            ix.last() >= outs(self.edges@, self.edges.len() as int, st.last()).len(),
        ensures
            self.search_dead(st.drop_last(), ix.drop_last()),
    {
        let es = self.edges@;
        let len = self.edges.len() as int;
        let s2 = st.drop_last();
        let i2 = ix.drop_last();
        let top = st.len() - 1;
        let v = st[top];
        let pre = st.subrange(0, top);
        assert(self.avoids(v, pre)) by {
            assert forall|p: Seq<usize>| #[trigger] self.is_walk(p) && p[0] == v implies forall|i: int|
                0 <= i < p.len() ==> !pre.contains(p[i]) by {
                if p.len() > 1 {
                    assert(es.contains((p[0], p[1])));
                    let q = self.lemma_successor_index(v, p[1]);
                    assert(self.avoids(outs(es, len, st[top])[q], st.subrange(0, top + 1)));
                    let tail = p.subrange(1, p.len() as int);
                    assert forall|i: int| 0 <= i < tail.len() - 1 implies es.contains((#[trigger] tail[i], tail[i + 1])) by {
                        assert(tail[i] == p[i + 1] && tail[i + 1] == p[i + 2]);
                        assert(es.contains((p[i + 1], p[i + 2])));
                    }
                    assert(self.is_walk(tail));
                    assert(st.subrange(0, top + 1) == st);
                    assert forall|i: int| 0 <= i < p.len() implies !pre.contains(p[i]) by {
                        if i == 0 {
                            if pre.contains(v) {
                                let a = choose|a: int| 0 <= a < pre.len() && pre[a] == v;
                                assert(st[a] == st[top]);
                            }
                        } else {
                            assert(tail[i - 1] == p[i]);
                            assert(!st.contains(tail[i - 1]));
                            if pre.contains(p[i]) {
                                let a = choose|a: int| 0 <= a < pre.len() && pre[a] == p[i];
                                assert(st[a] == p[i]);
                            }
                        }
                    }
                } else {
                    if pre.contains(v) {
                        let a = choose|a: int| 0 <= a < pre.len() && pre[a] == v;
                        assert(st[a] == st[top]);
                    }
                }
            }
        }
        assert forall|j: int, q: int|
            0 <= j < s2.len() && 0 <= q < i2[j] && (j == s2.len() - 1 || q < i2[j] - 1) implies self.avoids(
            #[trigger] outs(es, len, s2[j])[q],
            s2.subrange(0, j + 1),
        ) by {
            assert(s2[j] == st[j] && i2[j] == ix[j]);
            assert(s2.subrange(0, j + 1) == st.subrange(0, j + 1));
            if j == s2.len() - 1 && q == i2[j] - 1 {
                assert(outs(es, len, st[j])[ix[j] - 1] == st[j + 1]);
                assert(st.subrange(0, j + 1) == pre);
            } else {
                assert(self.avoids(outs(es, len, st[j])[q], st.subrange(0, j + 1)));
            }
        }
    }

    /// The search cannot run out at the bottom level from a node on a cycle:
    /// the cycle leads from one of its successors back to it.
    #[verifier::spinoff_prover]
    proof fn lemma_dead_bottom(&self, st: Seq<usize>, ix: Seq<usize>)
        requires
            self.wf(),
            self.search_path(st, ix),
            self.search_dead(st, ix),
            st.len() == 1,
            ix.last() >= outs(self.edges@, self.edges.len() as int, st.last()).len(),
        ensures
            !self.on_cycle(st[0]),
    {
        let es = self.edges@;
        let len = self.edges.len() as int;
        let s = st[0];
        if self.on_cycle(s) {
            let c = choose|c: Seq<usize>| #[trigger] self.is_cycle(c) && c[0] == s;
            let p = c.subrange(1, c.len() as int).push(c[0]);
            assert(es.contains((s, p[0]))) by {
                if c.len() > 1 {
                    assert(es.contains((c[0], c[1])));
                } else {
                    assert(p[0] == c[0]);
                }
            }
            assert forall|i: int| 0 <= i < p.len() - 1 implies es.contains((#[trigger] p[i], p[i + 1])) by {
                assert(p[i] == c[i + 1]);
                if i + 2 < c.len() {
                    assert(p[i + 1] == c[i + 2]);
                } else {
                    assert(p[i + 1] == c[0]);
                    assert(c[i + 1] == c.last());
                }
            }
            assert(self.is_walk(p));
            let q = self.lemma_successor_index(s, p[0]);
            assert(self.avoids(outs(es, len, st[0])[q], st.subrange(0, 1)));
            assert(st.subrange(0, 1) == st);
            assert(p[p.len() - 1] == s);
            assert(st[0] == s);
        }
    }

    /// What the depth-first search along outbound edges finds from the path
    /// `st` (with `ix[j]` successors of `st[j]` tried so far): when the top
    /// node has no successor left, the search goes on one level up; when
    /// its next successor is on the path, the cycle from that node on; else
    /// the search goes on from that successor. An empty path finds nothing.
    #[verifier::opaque]
    spec fn dfs_from(&self, st: Seq<usize>, ix: Seq<usize>) -> Seq<usize>
        decreases dfs_weight(ix, self.nodes.len() as nat),
        when self.wf() && self.search_path(st, ix)
    {
        if st.len() == 0 {
            Seq::empty()
        } else {
            let top = st.last();
            let c = ix.last();
            let succ = outs(self.edges@, self.edges.len() as int, top);
            if c >= succ.len() {
                proof {
                    self.lemma_search_pop(st, ix);
                    self.lemma_search_weight(st.drop_last(), ix.drop_last());
                }
                self.dfs_from(st.drop_last(), ix.drop_last())
            } else {
                let child = succ[c as int];
                if st.contains(child) {
                    st.subrange(choose|i: int| 0 <= i < st.len() && st[i] == child, st.len() as int)
                } else {
                    proof {
                        self.lemma_outs_bound(top);
                        self.lemma_search_push(st, ix, child);
                        self.lemma_search_weight(st.push(child), ix.drop_last().push((c + 1) as usize).push(0));
                    }
                    self.dfs_from(st.push(child), ix.drop_last().push((c + 1) as usize).push(0))
                }
            }
        }
    }

    /// The search from an empty path finds nothing.
    proof fn lemma_dfs_empty(&self)
        requires
            self.wf(),
        ensures
            self.dfs_from(Seq::empty(), Seq::empty()) == Seq::<usize>::empty(),
    {
        reveal(NGraph::dfs_from);
        assert(self.search_path(Seq::empty(), Seq::empty()));
    }

    /// A top node with no successor left sends the search one level up.
    proof fn lemma_dfs_pop(&self, st: Seq<usize>, ix: Seq<usize>)
        requires
            self.wf(),
            self.search_path(st, ix),
            st.len() > 0,
            ix.last() >= outs(self.edges@, self.edges.len() as int, st.last()).len(),
        ensures
            self.dfs_from(st, ix) == self.dfs_from(st.drop_last(), ix.drop_last()),
    {
        reveal(NGraph::dfs_from);
    }

    /// A next successor off the path is where the search goes on.
    proof fn lemma_dfs_push(&self, st: Seq<usize>, ix: Seq<usize>, child: usize)
        requires
            self.wf(),
            self.search_path(st, ix),
            st.len() > 0,
            ix.last() < outs(self.edges@, self.edges.len() as int, st.last()).len(),
            child == outs(self.edges@, self.edges.len() as int, st.last())[ix.last() as int],
            !st.contains(child),
        ensures
            self.dfs_from(st, ix) == self.dfs_from(st.push(child), ix.drop_last().push((ix.last() + 1) as usize).push(0)),
    {
        reveal(NGraph::dfs_from);
        self.lemma_outs_bound(st.last());
        self.lemma_search_push(st, ix, child);
        let succ = outs(self.edges@, self.edges.len() as int, st.last());
        assert(succ[ix.last() as int] == child);
    }

    /// A next successor on the path, at `i`, closes the cycle found.
    proof fn lemma_dfs_hit(&self, st: Seq<usize>, ix: Seq<usize>, child: usize, i: int)
        requires
            self.wf(),
            self.search_path(st, ix),
            st.len() > 0,
            ix.last() < outs(self.edges@, self.edges.len() as int, st.last()).len(),
            child == outs(self.edges@, self.edges.len() as int, st.last())[ix.last() as int],
            0 <= i < st.len(),
            st[i] == child,
        ensures
            self.dfs_from(st, ix) == st.subrange(i, st.len() as int),
    {
        reveal(NGraph::dfs_from);
        assert(st.contains(child));
        let w = choose|w: int| 0 <= w < st.len() && st[w] == child;
        assert(st[w] == st[i]);
    }

    /// What the depth-first search from `k` finds: a cycle, or nothing.
    pub closed spec fn dfs_found(&self, k: usize) -> Seq<usize> {
        self.dfs_from(seq![k], seq![0usize])
    }

    /// Meeting a node of the path again closes a cycle from that node on.
    #[verifier::spinoff_prover]
    proof fn lemma_search_cycle(&self, st: Seq<usize>, ix: Seq<usize>, child: usize, i: int)
        requires
            self.wf(),
            self.search_path(st, ix),
            st.len() > 0,
            ix.last() < outs(self.edges@, self.edges.len() as int, st.last()).len(),
            child == outs(self.edges@, self.edges.len() as int, st.last())[ix.last() as int],
            0 <= i < st.len(),
            st[i] == child,
        ensures
            self.is_cycle(st.subrange(i, st.len() as int)),
            st.subrange(i, st.len() as int).no_duplicates(),
    {
        let t = st.subrange(i, st.len() as int);
        assert forall|a: int, b: int| 0 <= a < t.len() && 0 <= b < t.len() && a != b implies t[a] != t[b] by {
            assert(t[a] == st[i + a] && t[b] == st[i + b]);
        }
        let es = self.edges@;
        let len = self.edges.len() as int;
        let c = st.subrange(i, st.len() as int);
        assert forall|t: int| 0 <= t < c.len() - 1 implies es.contains((#[trigger] c[t], c[t + 1])) by {
            let j = i + t;
            assert(c[t] == st[j] && c[t + 1] == st[j + 1]);
            let y = outs(es, len, st[j])[ix[j] - 1];
            lemma_outs_ins_contains(es, len, st[j], y);
            let e = choose|e: int| 0 <= e < len && #[trigger] es[e] == (st[j], y);
            assert(es[e] == (c[t], c[t + 1]));
        }
        lemma_outs_ins_contains(es, len, st.last(), child);
        let e = choose|e: int| 0 <= e < len && #[trigger] es[e] == (st.last(), child);
        assert(c.last() == st.last());
        assert(c[0] == child);
        assert(es[e] == (c.last(), c[0]));
    }

    /// Depth-first search from `node` along outbound edges, keeping the path
    /// in `nodes`. When the top of the path reaches a node already on the
    /// path, `nodes` is cut down to the cycle from that node on; when the
    /// search runs out, `nodes` ends empty.
    fn find_cycle(
        &self,
        node: usize,
        nodes: &mut Vec<usize>,
        indexs: Vec<usize>,
        nodes_set: HashSet<usize>,
    )
        requires
            self.wf(),
            self.present(node as int),
            old(nodes)@.len() == 0,
            indexs@.len() == 0,
            nodes_set@ == Set::<usize>::empty(),
        ensures
            final(nodes)@.len() > 0 ==> self.is_cycle(final(nodes)@),
            final(nodes)@.no_duplicates(),
            self.on_cycle(node) ==> final(nodes)@.len() > 0,
            final(nodes)@ == self.dfs_found(node),
    {
        broadcast use vstd::std_specs::hash::group_hash_axioms;

        let ghost n = self.nodes.len() as nat;
        let mut indexs = indexs;
        let mut nodes_set = nodes_set;
        nodes.push(node);
        nodes_set.insert(node);
        indexs.push(0);
        proof {
            assert forall|x: usize| nodes_set@.contains(x) <==> nodes@.contains(x) by {
                if x == node {
                    assert(nodes@[0] == x);
                }
            }
            assert(self.search_path(nodes@, indexs@));
            assert(self.search_dead(nodes@, indexs@));
            assert(nodes@ == seq![node] && indexs@ == seq![0usize]);
            self.lemma_dfs_empty();
        }
        while nodes.len() > 0
            invariant_except_break
                self.search_path(nodes@, indexs@),
                self.search_dead(nodes@, indexs@),
                forall|x: usize| nodes_set@.contains(x) <==> nodes@.contains(x),
                nodes@.len() > 0 ==> nodes@[0] == node,
                self.on_cycle(node) ==> nodes@.len() > 0,
                self.dfs_from(nodes@, indexs@) == self.dfs_found(node),
            invariant
                self.wf(),
                self.dfs_from(Seq::<usize>::empty(), Seq::<usize>::empty()) == Seq::<usize>::empty(),
                n == self.nodes.len(),
            ensures
                nodes@.len() > 0 ==> self.is_cycle(nodes@),
                nodes@.no_duplicates(),
                self.on_cycle(node) ==> nodes@.len() > 0,
                nodes@ == self.dfs_found(node) || (nodes@.len() == 0 && indexs@.len() == 0 && self.dfs_from(
                    nodes@,
                    indexs@,
                ) == self.dfs_found(node)),
            decreases dfs_weight(indexs@, n),
        {
            let ghost st = nodes@;
            let ghost ix = indexs@;
            proof {
                self.lemma_search_weight(st, ix);
            }
            let index = nodes.len() - 1;
            let k = nodes[index];
            let nd = self.nodes[k].as_ref().unwrap();
            let to = &nd.to;
            let child_index = indexs[index];
            if child_index >= to.len() {
                let r = nodes.pop().unwrap();
                nodes_set.remove(&r);
                indexs.pop();
                proof {
                    if st.len() >= 2 {
                        self.lemma_dead_pop(st, ix);
                        assert(nodes@[0] == st[0]);
                    } else {
                        self.lemma_dead_bottom(st, ix);
                    }
                    self.lemma_search_pop(st, ix);
                    self.lemma_dfs_pop(st, ix);
                    assert(st.drop_last() == nodes@);
                    assert(ix.drop_last() == indexs@);
                    assert forall|x: usize| nodes_set@.contains(x) <==> nodes@.contains(x) by {
                        if nodes@.contains(x) {
                            let i = choose|i: int| 0 <= i < nodes@.len() && nodes@[i] == x;
                            assert(st[i] == x);
                            assert(st[st.len() - 1] == r);
                        }
                        if st.contains(x) && x != r {
                            let i = choose|i: int| 0 <= i < st.len() && st[i] == x;
                            assert(nodes@[i] == x);
                        }
                    }
                    self.lemma_search_weight(nodes@, indexs@);
                }
                continue;
            }
            let child = to[child_index];
            if nodes_set.contains(&child) {
                let i = position_of(nodes, child);
                let r = tail_from(nodes, i);
                *nodes = r;
                proof {
                    self.lemma_search_cycle(st, ix, child, i as int);
                    self.lemma_dfs_hit(st, ix, child, i as int);
                }
                break;
            }
            indexs.set(index, child_index + 1);
            nodes.push(child);
            nodes_set.insert(child);
            indexs.push(0);
            proof {
                assert(nodes@ == st.push(child));
                assert(indexs@ == ix.drop_last().push((ix.last() + 1) as usize).push(0));
                self.lemma_search_push(st, ix, child);
                self.lemma_dead_push(st, ix, child);
                self.lemma_dfs_push(st, ix, child);
                assert forall|x: usize| nodes_set@.contains(x) <==> nodes@.contains(x) by {
                    if nodes@.contains(x) {
                        let a = choose|a: int| 0 <= a < nodes@.len() && nodes@[a] == x;
                        if a < st.len() {
                            assert(st[a] == x);
                        }
                    }
                    if st.contains(x) {
                        let a = choose|a: int| 0 <= a < st.len() && st[a] == x;
                        assert(nodes@[a] == x);
                    }
                    if x == child {
                        assert(nodes@[st.len() as int] == x);
                    }
                }
                self.lemma_search_weight(nodes@, indexs@);
            }
        }
        proof {
            if nodes@.len() == 0 && indexs@.len() == 0 {
                assert(nodes@ =~= Seq::<usize>::empty());
                assert(indexs@ =~= Seq::<usize>::empty());
            }
        }
    }
}

/// The first position of `x` in `v`.
fn position_of(v: &Vec<usize>, x: usize) -> (i: usize)
    requires
        v@.contains(x),
    ensures
        i < v@.len(),
        v@[i as int] == x,
        forall|j: int| 0 <= j < i ==> v@[j] != x,
{
    let mut i: usize = 0;
    while i < v.len()
        invariant
            0 <= i <= v@.len(),
            v@.contains(x),
            forall|j: int| 0 <= j < i ==> v@[j] != x,
        decreases v@.len() - i,
    {
        if v[i] == x {
            return i;
        }
        i = i + 1;
    }
    proof {
        let j = choose|j: int| 0 <= j < v@.len() && v@[j] == x;
        assert(v@[j] != x);
    }
    0
}

/// The elements of `v` from position `i` on.
fn tail_from(v: &Vec<usize>, i: usize) -> (r: Vec<usize>)
    requires
        i <= v@.len(),
    ensures
        r@ == v@.subrange(i as int, v@.len() as int),
{
    let mut r: Vec<usize> = Vec::new();
    let mut p = i;
    while p < v.len()
        invariant
            i <= p <= v@.len(),
            r@ == v@.subrange(i as int, p as int),
        decreases v@.len() - p,
    {
        r.push(v[p]);
        p = p + 1;
    }
    r
}

} // verus!
