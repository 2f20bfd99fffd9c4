//! The execution graph that orders systems, archetype components and
//! resources.
//!
//! Nodes and edges live in two vectors. Every node keeps, for each
//! direction, the number of its edges in that direction and the index of the
//! most recently added one, packed into a `u64` by [`encode`]. Every edge keeps,
//! for each direction, the neighbouring node and the index of the next older
//! edge of the same list, packed the same way. Adding an edge pushes it at the
//! head of two intrusive singly linked lists.
use crate::archetype::{Archetype, ComponentInfo, strictly_sorted};
use crate::ngraph::{is_cycle_in, is_topo_order_in, NGraph};
use vstd::prelude::*;

verus! {

/// The packed representation of the pair `(low, high)`.
pub open spec fn spec_encode(low: u32, high: u32) -> u64 {
    (low as u64) | ((high as u64) << 32u64)
}

/// The low half of a packed pair.
pub open spec fn spec_low(value: u64) -> u32 {
    (value & 0xffff_ffffu64) as u32
}

/// The high half of a packed pair.
pub open spec fn spec_high(value: u64) -> u32 {
    (value >> 32u64) as u32
}

/// Packs two `u32` into one `u64`, `low` in the low half.
pub fn encode(low: u32, high: u32) -> (r: u64)
    ensures
        r == spec_encode(low, high),
        spec_low(r) == low,
        spec_high(r) == high,
{
    proof {
        lemma_decode_encode(low, high);
    }
    (low as u64) | ((high as u64) << 32u64)
}

/// Unpacks a `u64` into its low and high halves.
pub fn decode(value: u64) -> (r: (u32, u32))
    ensures
        r.0 == spec_low(value),
        r.1 == spec_high(value),
        spec_encode(r.0, r.1) == value,
{
    proof {
        lemma_encode_decode(value);
    }
    let low = value & 0xffff_ffffu64;
    let high = value >> 32u64;
    (low as u32, high as u32)
}

/// Unpacking a packed pair gives the pair back.
pub proof fn lemma_decode_encode(low: u32, high: u32)
    ensures
        spec_low(spec_encode(low, high)) == low,
        spec_high(spec_encode(low, high)) == high,
{
    assert(((((low as u64) | ((high as u64) << 32u64)) & 0xffff_ffffu64) as u32) == low)
        by (bit_vector);
    assert(((((low as u64) | ((high as u64) << 32u64)) >> 32u64) as u32) == high)
        by (bit_vector);
}

/// Packing the two halves of a value gives the value back.
pub proof fn lemma_encode_decode(value: u64)
    ensures
        spec_encode(spec_low(value), spec_high(value)) == value,
{
    assert(((((value & 0xffff_ffffu64) as u32) as u64) | ((((value >> 32u64) as u32) as u64)
        << 32u64)) == value) by (bit_vector);
}

/// Index of a node of the graph, ordered by its number.
#[derive(Clone, Copy, Debug, PartialEq, Eq, Structural, Hash, Ord)]
pub struct NodeIndex(pub u32);

impl NodeIndex {
    pub fn new(index: usize) -> (r: NodeIndex)
        ensures
            r.0 == index as u32,
    {
        NodeIndex(index as u32)
    }

    pub fn index(self) -> (r: usize)
        ensures
            r == self.0,
    {
        self.0 as usize
    }

    pub fn null() -> (r: NodeIndex)
        ensures
            r.0 == u32::MAX,
    {
        NodeIndex(u32::MAX)
    }

    pub fn is_null(&self) -> (r: bool)
        ensures
            r == (self.0 == u32::MAX),
    {
        self.0 == u32::MAX
    }
}

/// Index of an edge of the graph, ordered by its number.
#[derive(Clone, Copy, Debug, PartialEq, Eq, Structural, Hash, Ord)]
pub struct EdgeIndex(pub u32);

impl EdgeIndex {
    pub fn new(index: usize) -> (r: EdgeIndex)
        ensures
            r.0 == index as u32,
    {
        EdgeIndex(index as u32)
    }

    pub fn index(self) -> (r: usize)
        ensures
            r == self.0,
    {
        self.0 as usize
    }

    pub fn null() -> (r: EdgeIndex)
        ensures
            r.0 == u32::MAX,
    {
        EdgeIndex(u32::MAX)
    }

    pub fn is_null(&self) -> (r: bool)
        ensures
            r == (self.0 == u32::MAX),
    {
        self.0 == u32::MAX
    }
}

/// Edge direction.
#[derive(Clone, Copy, Debug, PartialEq, Eq, Structural, Hash)]
pub enum Direction {
    /// An inbound edge, to the current node.
    From,
    /// An outward edge, from the current node.
    To,
}

pub open spec fn dir_index(d: Direction) -> int {
    match d {
        Direction::To => 0,
        Direction::From => 1,
    }
}

pub open spec fn dir_opposite(d: Direction) -> Direction {
    match d {
        Direction::From => Direction::To,
        Direction::To => Direction::From,
    }
}

impl Direction {
    /// The opposite direction.
    pub fn opposite(self) -> (r: Direction)
        ensures
            r == dir_opposite(self),
    {
        match self {
            Direction::From => Direction::To,
            Direction::To => Direction::From,
        }
    }

    /// `0` for `To` and `1` for `From`.
    pub fn index(self) -> (r: usize)
        ensures
            r == dir_index(self),
    {
        match self {
            Direction::To => 0,
            Direction::From => 1,
        }
    }
}


/// The label of a node: what the node stands for.
pub enum NodeType {
    Empty,
    System(usize, String),
    ArchetypeComponent(u128, String),
    Res(String),
    SystemSet(String),
}

impl NodeType {
    /// The name of what the node stands for (`"None"` for an empty node).
    pub fn name(&self) -> (r: &str)
        ensures
            match self {
                NodeType::Empty => r@ == "None"@,
                NodeType::System(_, s) => r@ == s@,
                NodeType::ArchetypeComponent(_, s) => r@ == s@,
                NodeType::Res(s) => r@ == s@,
                NodeType::SystemSet(s) => r@ == s@,
            },
    {
        match self {
            NodeType::Empty => "None",
            NodeType::System(_, s) => s.as_str(),
            NodeType::ArchetypeComponent(_, s) => s.as_str(),
            NodeType::Res(s) => s.as_str(),
            NodeType::SystemSet(s) => s.as_str(),
        }
    }

    pub open spec fn spec_is_system(&self) -> bool {
        self is System
    }
}

/// A node: for each direction, the packed `(edge count, newest edge)` of its
/// edge list; its execution status; its label; and the number of its
/// inbound edges whose source has not finished yet.
pub struct Node {
    pub edges: [u64; 2],
    pub status: u32,
    pub label: NodeType,
    pub from_count: u32,
}

/// An edge: for each direction, the packed `(node, next older edge of the
/// same list)`. The `From` word holds the source node and continues the
/// inbound list of the target; the `To` word holds the target node and
/// continues the outbound list of the source.
#[derive(Clone, Copy)]
pub struct Edge(pub [u64; 2]);

pub open spec fn word_at(words: [u64; 2], d: Direction) -> u64 {
    words[dir_index(d)]
}

pub open spec fn edge_nbr(e: Edge, d: Direction) -> u32 {
    spec_low(word_at(e.0, d))
}

pub open spec fn edge_next(e: Edge, d: Direction) -> u32 {
    spec_high(word_at(e.0, d))
}

pub open spec fn node_len(n: Node, d: Direction) -> u32 {
    spec_low(word_at(n.edges, d))
}

pub open spec fn node_head(n: Node, d: Direction) -> u32 {
    spec_high(word_at(n.edges, d))
}

/// The node whose `d` list holds the edge `(source, target)`: the target for
/// `From`, the source for `To`.
pub open spec fn p_owner(p: (u32, u32), d: Direction) -> u32 {
    match d {
        Direction::From => p.1,
        Direction::To => p.0,
    }
}

/// The node that the edge `(source, target)` leads to from its owner in
/// direction `d`.
pub open spec fn p_nbr(p: (u32, u32), d: Direction) -> u32 {
    match d {
        Direction::From => p.0,
        Direction::To => p.1,
    }
}

/// An edge position as a stored link: `u32::MAX` stands for "none".
pub open spec fn link(i: int) -> u32 {
    if i < 0 {
        u32::MAX
    } else {
        i as u32
    }
}

/// The position of the newest edge before `upto` in the `d` list of `x`, or -1.
pub open spec fn last_with(edges: Seq<(u32, u32)>, upto: int, x: u32, d: Direction) -> int
    decreases upto,
{
    if upto <= 0 {
        -1
    } else if p_owner(edges[upto - 1], d) == x {
        upto - 1
    } else {
        last_with(edges, upto - 1, x, d)
    }
}

/// The number of edges before `upto` in the `d` list of `x`.
pub open spec fn count_with(edges: Seq<(u32, u32)>, upto: int, x: u32, d: Direction) -> nat
    decreases upto,
{
    if upto <= 0 {
        0
    } else if p_owner(edges[upto - 1], d) == x {
        count_with(edges, upto - 1, x, d) + 1
    } else {
        count_with(edges, upto - 1, x, d)
    }
}

/// The neighbours of `x` in direction `d` through the edges before `upto`,
/// newest edge first.
pub open spec fn nbrs(edges: Seq<(u32, u32)>, upto: int, x: u32, d: Direction) -> Seq<u32>
    decreases upto,
{
    if upto <= 0 {
        Seq::empty()
    } else if p_owner(edges[upto - 1], d) == x {
        seq![p_nbr(edges[upto - 1], d)] + nbrs(edges, upto - 1, x, d)
    } else {
        nbrs(edges, upto - 1, x, d)
    }
}

pub proof fn lemma_list_step(edges: Seq<(u32, u32)>, upto: int, x: u32, d: Direction)
    requires
        0 <= upto <= edges.len(),
    ensures
        -1 <= last_with(edges, upto, x, d) < upto,
        count_with(edges, upto, x, d) <= upto,
        count_with(edges, upto, x, d) == nbrs(edges, upto, x, d).len(),
        (count_with(edges, upto, x, d) > 0) == (last_with(edges, upto, x, d) >= 0),
        last_with(edges, upto, x, d) >= 0 ==> {
            let p = last_with(edges, upto, x, d);
            &&& p_owner(edges[p], d) == x
            &&& count_with(edges, upto, x, d) == count_with(edges, p, x, d) + 1
            &&& nbrs(edges, upto, x, d) == seq![p_nbr(edges[p], d)] + nbrs(edges, p, x, d)
        },
    decreases upto,
{
    if upto > 0 {
        lemma_list_step(edges, upto - 1, x, d);
    }
}

/// The list functions only read the edges before `k`.
pub proof fn lemma_list_prefix(s1: Seq<(u32, u32)>, s2: Seq<(u32, u32)>, k: int, x: u32, d: Direction)
    requires
        0 <= k <= s1.len(),
        k <= s2.len(),
        forall|i: int| 0 <= i < k ==> s1[i] == s2[i],
    ensures
        last_with(s1, k, x, d) == last_with(s2, k, x, d),
        count_with(s1, k, x, d) == count_with(s2, k, x, d),
        nbrs(s1, k, x, d) == nbrs(s2, k, x, d),
    decreases k,
{
    if k > 0 {
        lemma_list_prefix(s1, s2, k - 1, x, d);
    }
}

/// `y` is a neighbour of `x` exactly when some edge of the `d` list of `x`
/// leads to `y`.
pub proof fn lemma_nbrs_contains(edges: Seq<(u32, u32)>, upto: int, x: u32, d: Direction, y: u32)
    requires
        0 <= upto <= edges.len(),
    ensures
        nbrs(edges, upto, x, d).contains(y) <==> exists|e: int|
            0 <= e < upto && p_owner(#[trigger] edges[e], d) == x && p_nbr(edges[e], d) == y,
    decreases upto,
{
    if upto > 0 {
        lemma_nbrs_contains(edges, upto - 1, x, d, y);
        let e = upto - 1;
        if p_owner(edges[e], d) == x {
            let s = nbrs(edges, upto, x, d);
            assert(s == seq![p_nbr(edges[e], d)] + nbrs(edges, upto - 1, x, d));
            if p_nbr(edges[e], d) == y {
                assert(s[0] == y);
            } else {
                let t = nbrs(edges, upto - 1, x, d);
                if t.contains(y) {
                    let k = choose|k: int| 0 <= k < t.len() && #[trigger] t[k] == y;
                    assert(s[k + 1] == y);
                }
                if s.contains(y) {
                    let k = choose|k: int| 0 <= k < s.len() && #[trigger] s[k] == y;
                    assert(k > 0);
                    assert(nbrs(edges, upto - 1, x, d)[k - 1] == y);
                }
            }
        }
    }
}

/// A node that owns no edge has no neighbour.
pub proof fn lemma_list_absent(edges: Seq<(u32, u32)>, upto: int, x: u32, d: Direction)
    requires
        0 <= upto <= edges.len(),
        forall|e: int| 0 <= e < upto ==> p_owner(#[trigger] edges[e], d) != x,
    ensures
        last_with(edges, upto, x, d) == -1,
        count_with(edges, upto, x, d) == 0,
        nbrs(edges, upto, x, d) == Seq::<u32>::empty(),
    decreases upto,
{
    if upto > 0 {
        lemma_list_absent(edges, upto - 1, x, d);
    }
}


/// Status of a node that waits to run.
pub const NODE_STATUS_WAIT: u32 = 0;
/// Status step between two phases of a node's run.
pub const NODE_STATUS_STEP: u32 = 0x1000_0000;
/// Status of a node whose run has ended but whose successors are not yet
/// released.
pub const NODE_STATUS_RUN_END: u32 = 0x3000_0000;
/// Status of a node whose successors have all been released.
pub const NODE_STATUS_OVER: u32 = 0x4000_0000;
/// The status bits that, set, tell a starting system that its archetypes
/// are already aligned.
pub const NODE_STATUS_ALIGN_MASK: u32 = 0xEFFF_FFFE;

/// The number of nodes before `k` that have no outbound edge.
pub open spec fn sink_count(nodes: Seq<Node>, k: int) -> nat
    decreases k,
{
    if k <= 0 {
        0
    } else if node_len(nodes[k - 1], Direction::To) == 0 {
        sink_count(nodes, k - 1) + 1
    } else {
        sink_count(nodes, k - 1)
    }
}

proof fn lemma_sink_count_bound(nodes: Seq<Node>, k: int)
    requires
        0 <= k,
    ensures
        sink_count(nodes, k) <= k,
    decreases k,
{
    if k > 0 {
        lemma_sink_count_bound(nodes, k - 1);
    }
}

/// Changing the outbound count of one node changes the number of sinks by at
/// most that node.
proof fn lemma_sink_count_update(s1: Seq<Node>, s2: Seq<Node>, k: int, i: int)
    requires
        0 <= k <= s1.len(),
        k <= s2.len(),
        forall|j: int|
            0 <= j < k && j != i ==> node_len(#[trigger] s1[j], Direction::To) == node_len(
                s2[j],
                Direction::To,
            ),
    ensures
        sink_count(s2, k) + (if 0 <= i < k && node_len(s1[i], Direction::To) == 0 {
            1int
        } else {
            0int
        }) == sink_count(s1, k) + (if 0 <= i < k && node_len(s2[i], Direction::To) == 0 {
            1int
        } else {
            0int
        }),
    decreases k,
{
    if k > 0 {
        lemma_sink_count_update(s1, s2, k - 1, i);
    }
}

fn set_word(words: [u64; 2], i: usize, v: u64) -> (r: [u64; 2])
    requires
        i < 2,
    ensures
        r[i as int] == v,
        r[1 - i] == words[1 - i],
{
    if i == 0 {
        [v, words[1]]
    } else {
        [words[0], v]
    }
}

impl Node {
    fn new(label: NodeType, from_count: u32) -> (r: Node)
        ensures
            node_len(r, Direction::From) == 0,
            node_len(r, Direction::To) == 0,
            node_head(r, Direction::From) == u32::MAX,
            node_head(r, Direction::To) == u32::MAX,
            r.status == NODE_STATUS_WAIT,
            r.label == label,
            r.from_count == from_count,
    {
        let null_edge = encode(0, u32::MAX);
        Node { edges: [null_edge, null_edge], status: NODE_STATUS_WAIT, label, from_count }
    }

    pub fn label(&self) -> (r: &NodeType)
        ensures
            r == &self.label,
    {
        &self.label
    }

    pub fn is_system(&self) -> (r: bool)
        ensures
            r == self.label.spec_is_system(),
    {
        match self.label {
            NodeType::System(_, _) => true,
            _ => false,
        }
    }

    /// The number of edges in direction `d` and the newest of them.
    pub fn edge(&self, d: Direction) -> (r: (u32, EdgeIndex))
        ensures
            r.0 == node_len(*self, d),
            (r.1).0 == node_head(*self, d),
    {
        let (len, edge) = decode(self.edges[d.index()]);
        (len, EdgeIndex(edge))
    }
}

impl Edge {
    pub fn new(
        from_node: NodeIndex,
        from_next_edge: EdgeIndex,
        to_node: NodeIndex,
        to_next_edge: EdgeIndex,
    ) -> (r: Edge)
        ensures
            edge_nbr(r, Direction::From) == from_node.0,
            edge_next(r, Direction::From) == from_next_edge.0,
            edge_nbr(r, Direction::To) == to_node.0,
            edge_next(r, Direction::To) == to_next_edge.0,
    {
        Edge([encode(to_node.0, to_next_edge.0), encode(from_node.0, from_next_edge.0)])
    }

    /// The node of direction `d` and the next edge of the same list.
    pub fn load(&self, d: Direction) -> (r: (NodeIndex, EdgeIndex))
        ensures
            (r.0).0 == edge_nbr(*self, d),
            (r.1).0 == edge_next(*self, d),
    {
        let (node, next) = decode(self.0[d.index()]);
        (NodeIndex(node), EdgeIndex(next))
    }
}

/// The graph proper: its nodes and edges, the index from archetype
/// components to their nodes, the number of nodes without outbound edges,
/// the entry nodes and the run counters.
pub struct GraphInner {
    nodes: Vec<Node>,
    edges: Vec<Edge>,
    map: Vec<((u128, u32), NodeIndex)>,
    to_len: u32,
    froms: Vec<NodeIndex>,
    to_count: u32,
    sys_len: u32,
}

/// `g1` is `g0` with the nodes of `archetype` added: a node for each
/// column whose key is new, labelled with the component's name from
/// `infos`; each column node with one pending inbound edge less; and the
/// column nodes whose count reached zero appended to the entry nodes.
pub open spec fn archetype_nodes_added(g0: GraphInner, g1: GraphInner, archetype: Archetype, infos: Seq<ComponentInfo>) -> bool {
    let aid = archetype.spec_id() as u128;
    let keys = archetype.column_keys();
    let fresh = keys.filter(|x: u32| g0.key_node((aid, x)) is None);
    let cols = keys.map_values(|x: u32| g1.key_node((aid, x))->0);
    &&& g1.wf()
    &&& g1.pairs() == g0.pairs()
    &&& g1.node_count() == g0.node_count() + fresh.len()
    &&& g1.spec_to_len() == g0.spec_to_len() + fresh.len()
    &&& forall|k: int| 0 <= k < keys.len() ==> (#[trigger] g1.key_node((aid, keys[k]))) is Some
    &&& forall|k: int|
        0 <= k < keys.len() && (#[trigger] g0.key_node((aid, keys[k]))) is Some ==> g1.key_node((aid, keys[k]))
            == g0.key_node((aid, keys[k]))
    &&& forall|k: int|
        0 <= k < keys.len() && (#[trigger] g0.key_node((aid, keys[k]))) is None ==> g1.label_at(
            g1.key_index((aid, keys[k])),
        ) == NodeType::ArchetypeComponent(aid, infos[keys[k] as int].name)
    &&& forall|id: (u128, u32)| !(id.0 == aid && keys.contains(id.1)) ==> g1.key_node(id) == g0.key_node(id)
    &&& forall|i: int| 0 <= i < g0.node_count() ==> g1.label_at(i) == g0.label_at(i) && g1.status_at(i) == g0.status_at(i)
    &&& forall|i: int| g0.node_count() <= i < g1.node_count() ==> g1.status_at(i) == NODE_STATUS_WAIT
    &&& forall|i: int|
        0 <= i < g1.node_count() ==> #[trigger] g1.from_count_at(i) == if cols.contains(NodeIndex(i as u32)) {
            (if i < g0.node_count() { g0.from_count_at(i) } else { 1u32 }).wrapping_sub(1)
        } else {
            g0.from_count_at(i)
        }
    &&& g1.spec_froms() == g0.spec_froms() + cols.filter(
        |n: NodeIndex| (if n.0 < g0.node_count() { g0.from_count_at(n.0 as int) } else { 1u32 }) == 1,
    )
}

/// Adding the nodes of an archetype a second time adds no node and no key:
/// each archetype component gets its node once.
pub proof fn lemma_archetype_nodes_added_once(
    g0: GraphInner,
    g1: GraphInner,
    g2: GraphInner,
    archetype: Archetype,
    infos: Seq<ComponentInfo>,
)
    requires
        archetype_nodes_added(g0, g1, archetype, infos),
        archetype_nodes_added(g1, g2, archetype, infos),
    ensures
        g2.node_count() == g1.node_count(),
        g2.spec_to_len() == g1.spec_to_len(),
        forall|id: (u128, u32)| g2.key_node(id) == g1.key_node(id),
{
    let aid = archetype.spec_id() as u128;
    let keys = archetype.column_keys();
    let isnew = |x: u32| g1.key_node((aid, x)) is None;
    assert forall|k: int| 0 <= k < keys.len() implies !isnew(keys[k]) by {
        assert(g1.key_node((aid, keys[k])) is Some);
    }
    keys.lemma_all_neg_filter_empty(isnew);
    assert forall|id: (u128, u32)| g2.key_node(id) == g1.key_node(id) by {
        if id.0 == aid && keys.contains(id.1) {
            let k = choose|k: int| 0 <= k < keys.len() && keys[k] == id.1;
            assert(g1.key_node((aid, keys[k])) is Some);
        }
    }
}

/// The systems of the system nodes of `order`, in order.
pub open spec fn run_list(g: GraphInner, order: Seq<usize>) -> Seq<usize>
    decreases order.len(),
{
    if order.len() == 0 {
        Seq::empty()
    } else {
        let rest = run_list(g, order.drop_last());
        match g.label_at(order.last() as int) {
            NodeType::System(s, _) => rest.push(s),
            _ => rest,
        }
    }
}

/// `g1` is `g0` after node `x` ended its run and released `ready`: each
/// successor of `x` has one pending input less, and `ready` lists, in
/// neighbour order, the successors whose count was one.
pub open spec fn run_ended(g0: GraphInner, g1: GraphInner, x: NodeIndex, ready: Seq<NodeIndex>) -> bool {
    let succ = nbrs(g0.pairs(), g0.pairs().len() as int, x.0, Direction::To);
    &&& g1.wf()
    &&& g1.pairs() == g0.pairs()
    &&& g1.node_count() == g0.node_count()
    &&& forall|i: int|
        0 <= i < g0.node_count() ==> #[trigger] g1.from_count_at(i) == if succ.contains(i as u32) {
            g0.from_count_at(i).wrapping_sub(1)
        } else {
            g0.from_count_at(i)
        }
    &&& ready.map_values(|n: NodeIndex| n.0) == succ.filter(|y: u32| g0.from_count_at(y as int) == 1)
}

/// How many of the nodes `xs` have an edge to `y`.
pub open spec fn ended_preds(pairs: Seq<(u32, u32)>, xs: Seq<NodeIndex>, y: int) -> nat
    decreases xs.len(),
{
    if xs.len() == 0 {
        0
    } else {
        ended_preds(pairs, xs.drop_last(), y) + if pairs.contains((xs.last().0, y as u32)) {
            1nat
        } else {
            0nat
        }
    }
}

/// Ending nodes one after another takes, from each node `y`, one pending
/// input per ended node with an edge to `y`; `y` is released by exactly the
/// ends that take its count from one to zero. (The counts do not go below
/// zero: `y` has at least as many pending inputs as ended predecessors.)
pub proof fn lemma_ends_release(gs: Seq<GraphInner>, xs: Seq<NodeIndex>, readys: Seq<Seq<NodeIndex>>, y: int)
    requires
        gs.len() == xs.len() + 1,
        readys.len() == xs.len(),
        gs[0].wf(),
        forall|k: int| 0 <= k < xs.len() ==> #[trigger] run_ended(gs[k], gs[k + 1], xs[k], readys[k]),
        0 <= y < gs[0].node_count(),
        ended_preds(gs[0].pairs(), xs, y) <= gs[0].from_count_at(y),
    ensures
        forall|k: int|
            0 <= k <= xs.len() ==> #[trigger] gs[k].from_count_at(y) == gs[0].from_count_at(y) - ended_preds(
                gs[0].pairs(),
                xs.take(k),
                y,
            ),
        forall|k: int|
            0 <= k < xs.len() ==> (#[trigger] readys[k].contains(NodeIndex(y as u32)) <==> gs[0].pairs().contains(
                (xs[k].0, y as u32),
            ) && gs[0].from_count_at(y) - ended_preds(gs[0].pairs(), xs.take(k), y) == 1),
    decreases xs.len(),
{
    if xs.len() > 0 {
        let n = xs.len() - 1;
        let gs0 = gs.drop_last();
        let xs0 = xs.drop_last();
        let rs0 = readys.drop_last();
        assert forall|k: int| 0 <= k < xs0.len() implies #[trigger] run_ended(gs0[k], gs0[k + 1], xs0[k], rs0[k]) by {
            assert(run_ended(gs[k], gs[k + 1], xs[k], readys[k]));
        }
        assert(xs0 == xs.take(n));
        lemma_ended_preds_prefix(gs[0].pairs(), xs, y, n);
        lemma_ends_release(gs0, xs0, rs0, y);
        let pairs = gs[0].pairs();
        assert forall|k: int| 0 <= k < n implies (#[trigger] gs[k + 1]).pairs() == gs[k].pairs() && gs[k + 1].node_count()
            == gs[k].node_count() by {
            assert(run_ended(gs[k], gs[k + 1], xs[k], readys[k]));
        }
        lemma_pairs_fixed(gs, n);
        assert(gs0[n] == gs[n]);
        assert(xs0.take(n) == xs0);
        let g = gs[n];
        let x = xs[n];
        assert(run_ended(gs[n], gs[n + 1], xs[n], readys[n]));
        let succ = nbrs(pairs, pairs.len() as int, x.0, Direction::To);
        assert(g.pairs() == pairs);
        lemma_nbrs_contains(pairs, pairs.len() as int, x.0, Direction::To, y as u32);
        assert(succ.contains(y as u32) <==> pairs.contains((x.0, y as u32))) by {
            if succ.contains(y as u32) {
                let e = choose|e: int| 0 <= e < pairs.len() && p_owner(#[trigger] pairs[e], Direction::To) == x.0
                    && p_nbr(pairs[e], Direction::To) == y as u32;
                assert(pairs[e] == (x.0, y as u32));
            }
            if pairs.contains((x.0, y as u32)) {
                let e = choose|e: int| 0 <= e < pairs.len() && pairs[e] == (x.0, y as u32);
                assert(p_owner(pairs[e], Direction::To) == x.0);
            }
        }
        assert(xs.take(n + 1) == xs);
        assert(ended_preds(pairs, xs, y) == ended_preds(pairs, xs0, y) + if pairs.contains((x.0, y as u32)) {
            1nat
        } else {
            0nat
        });
        assert(gs[n].from_count_at(y) == gs[0].from_count_at(y) - ended_preds(pairs, xs.take(n), y));
        assert(gs[n + 1].from_count_at(y) == gs[0].from_count_at(y) - ended_preds(pairs, xs.take(n + 1), y));
        let fc = |v: u32| g.from_count_at(v as int) == 1;
        let ready = readys[n];
        assert(ready.map_values(|m: NodeIndex| m.0) == succ.filter(fc));
        assert(ready.contains(NodeIndex(y as u32)) <==> succ.filter(fc).contains(y as u32)) by {
            if ready.contains(NodeIndex(y as u32)) {
                let q = choose|q: int| 0 <= q < ready.len() && ready[q] == NodeIndex(y as u32);
                assert(ready.map_values(|m: NodeIndex| m.0)[q] == y as u32);
            }
            if succ.filter(fc).contains(y as u32) {
                let q = choose|q: int| 0 <= q < succ.filter(fc).len() && succ.filter(fc)[q] == y as u32;
                assert(ready.map_values(|m: NodeIndex| m.0)[q] == y as u32);
                assert(ready[q] == NodeIndex(y as u32));
            }
        }
        if succ.contains(y as u32) && fc(y as u32) {
            let q = choose|q: int| 0 <= q < succ.len() && succ[q] == y as u32;
            succ.lemma_filter_contains(fc, q);
        }
        assert forall|k: int| 0 <= k <= xs.len() implies #[trigger] gs[k].from_count_at(y) == gs[0].from_count_at(y)
            - ended_preds(pairs, xs.take(k), y) by {
            if k < xs.len() {
                assert(gs0[k] == gs[k]);
                assert(xs0.take(k) == xs.take(k));
            }
        }
        assert forall|k: int| 0 <= k < xs.len() implies (#[trigger] readys[k].contains(NodeIndex(y as u32)) <==> pairs.contains(
            (xs[k].0, y as u32),
        ) && gs[0].from_count_at(y) - ended_preds(pairs, xs.take(k), y) == 1) by {
            if k == n {
                assert(xs[k] == x);
                assert(readys[k] == ready);
                if succ.filter(fc).contains(y as u32) {
                    succ.lemma_filter_contains_rev(fc, y as u32);
                    let q = choose|q: int| 0 <= q < succ.filter(fc).len() && succ.filter(fc)[q] == y as u32;
                    succ.lemma_filter_pred(fc, q);
                }
                assert(succ.filter(fc).contains(y as u32) <==> succ.contains(y as u32) && fc(y as u32));
            }
            if k < n {
                assert(gs0[0] == gs[0]);
                assert(rs0[k] == readys[k]);
                assert(xs0[k] == xs[k]);
                assert(xs0.take(k) == xs.take(k));
            }
        }
    }
}

/// A node whose pending count is the number of its predecessors among the
/// nodes that end, one after another, is released exactly once: by the end
/// of the last of those predecessors.
pub proof fn lemma_released_once(gs: Seq<GraphInner>, xs: Seq<NodeIndex>, readys: Seq<Seq<NodeIndex>>, y: int)
    requires
        gs.len() == xs.len() + 1,
        readys.len() == xs.len(),
        gs[0].wf(),
        forall|k: int| 0 <= k < xs.len() ==> #[trigger] run_ended(gs[k], gs[k + 1], xs[k], readys[k]),
        0 <= y < gs[0].node_count(),
        ended_preds(gs[0].pairs(), xs, y) == gs[0].from_count_at(y),
        gs[0].from_count_at(y) >= 1,
    ensures
        exists|k: int|
            0 <= k < xs.len() && (#[trigger] readys[k]).contains(NodeIndex(y as u32)) && gs[0].pairs().contains(
                (xs[k].0, y as u32),
            ) && (forall|j: int| k < j < xs.len() ==> !gs[0].pairs().contains((#[trigger] xs[j].0, y as u32)))
                && (forall|j: int|
                0 <= j < xs.len() && (#[trigger] readys[j]).contains(NodeIndex(y as u32)) ==> j == k),
{
    let pairs = gs[0].pairs();
    let c = gs[0].from_count_at(y);
    lemma_ends_release(gs, xs, readys, y);
    let k = lemma_last_pred(pairs, xs, y, c as nat);
    assert(readys[k].contains(NodeIndex(y as u32)));
    assert forall|j: int| 0 <= j < xs.len() && (#[trigger] readys[j]).contains(NodeIndex(y as u32)) implies j == k by {
        assert(pairs.contains((xs[j].0, y as u32)));
        assert(c - ended_preds(pairs, xs.take(j), y) == 1);
        if j < k {
            lemma_ended_preds_step(pairs, xs, y, j);
            lemma_ended_preds_mono(pairs, xs, y, j + 1, k);
        } else if j > k {
            assert(!pairs.contains((xs[j].0, y as u32)));
        }
    }
}

/// The last of the nodes `xs` with an edge to `y`, when `c` of them have
/// one: before it, `c - 1` of them have one; after it, none.
proof fn lemma_last_pred(pairs: Seq<(u32, u32)>, xs: Seq<NodeIndex>, y: int, c: nat) -> (k: int)
    requires
        ended_preds(pairs, xs, y) == c,
        c >= 1,
    ensures
        0 <= k < xs.len(),
        ended_preds(pairs, xs.take(k), y) == c - 1,
        pairs.contains((xs[k].0, y as u32)),
        forall|j: int| k < j < xs.len() ==> !pairs.contains((#[trigger] xs[j].0, y as u32)),
    decreases xs.len(),
{
    let n = xs.len() - 1;
    assert(xs.drop_last() == xs.take(n));
    if pairs.contains((xs[n].0, y as u32)) {
        n
    } else {
        let k = lemma_last_pred(pairs, xs.drop_last(), y, c);
        assert(xs.drop_last().take(k) == xs.take(k));
        assert forall|j: int| k < j < xs.len() implies !pairs.contains((#[trigger] xs[j].0, y as u32)) by {
            if j < n {
                assert(xs.drop_last()[j] == xs[j]);
            }
        }
        k
    }
}

/// One more node adds one exactly when it has an edge to `y`.
proof fn lemma_ended_preds_step(pairs: Seq<(u32, u32)>, xs: Seq<NodeIndex>, y: int, j: int)
    requires
        0 <= j < xs.len(),
    ensures
        ended_preds(pairs, xs.take(j + 1), y) == ended_preds(pairs, xs.take(j), y) + if pairs.contains(
            (xs[j].0, y as u32),
        ) {
            1nat
        } else {
            0nat
        },
{
    assert(xs.take(j + 1).drop_last() == xs.take(j));
    assert(xs.take(j + 1).last() == xs[j]);
}

/// A longer prefix has no fewer nodes with an edge to `y`.
proof fn lemma_ended_preds_mono(pairs: Seq<(u32, u32)>, xs: Seq<NodeIndex>, y: int, a: int, b: int)
    requires
        0 <= a <= b <= xs.len(),
    ensures
        ended_preds(pairs, xs.take(a), y) <= ended_preds(pairs, xs.take(b), y),
{
    lemma_ended_preds_prefix(pairs, xs.take(b), y, a);
    assert(xs.take(b).take(a) == xs.take(a));
}

/// The number of inbound edges of node `i`.
pub open spec fn in_degree(g: GraphInner, i: int) -> nat {
    count_with(g.pairs(), g.pairs().len() as int, i as u32, Direction::From)
}

/// `g1` is `g0` after linking `from -> to` with `add_edge`: the edge is
/// added unless it exists, and when it is new and `from` has not yet passed
/// the end of its run, `to` gets one pending input more.
pub open spec fn edge_linked(g0: GraphInner, g1: GraphInner, from: NodeIndex, to: NodeIndex) -> bool {
    &&& g1.node_count() == g0.node_count()
    &&& g1.pairs() == if g0.pairs().contains((from.0, to.0)) {
        g0.pairs()
    } else {
        g0.pairs().push((from.0, to.0))
    }
    &&& forall|i: int| 0 <= i < g0.node_count() && i != to.0 ==> g1.from_count_at(i) == g0.from_count_at(i)
    &&& g0.pairs().contains((from.0, to.0)) ==> g1.from_count_at(to.0 as int) == g0.from_count_at(to.0 as int)
    &&& !g0.pairs().contains((from.0, to.0)) ==> g1.from_count_at(to.0 as int) == if g0.status_at(from.0 as int)
        < NODE_STATUS_RUN_END {
        g0.from_count_at(to.0 as int).wrapping_add(1)
    } else {
        g0.from_count_at(to.0 as int)
    }
}

/// While the source of a new edge has not passed the end of its run,
/// linking keeps every node's count of pending inputs in step with its
/// number of inbound edges: both grow by one for the target, and stay
/// otherwise.
pub proof fn lemma_link_keeps_counts(g0: GraphInner, g1: GraphInner, from: NodeIndex, to: NodeIndex, i: int)
    requires
        g0.wf(),
        edge_linked(g0, g1, from, to),
        from.0 < g0.node_count(),
        to.0 < g0.node_count(),
        0 <= i < g0.node_count(),
        g0.status_at(from.0 as int) < NODE_STATUS_RUN_END,
        g0.from_count_at(to.0 as int) < u32::MAX,
    ensures
        g1.from_count_at(i) - in_degree(g1, i) == g0.from_count_at(i) - in_degree(g0, i),
{
    let p0 = g0.pairs();
    if !p0.contains((from.0, to.0)) {
        let p1 = p0.push((from.0, to.0));
        assert(g1.pairs() == p1);
        lemma_list_prefix(p0, p1, p0.len() as int, i as u32, Direction::From);
        assert(p1[p0.len() as int] == (from.0, to.0));
        assert(count_with(p1, p1.len() as int, i as u32, Direction::From) == count_with(p0, p0.len() as int, i as u32, Direction::From)
            + if to.0 == i as u32 { 1nat } else { 0nat });
        if i != to.0 {
            assert(to.0 != i as u32);
        }
    }
}

/// The ends of a run keep the edges and the nodes.
proof fn lemma_pairs_fixed(gs: Seq<GraphInner>, n: int)
    requires
        0 <= n < gs.len(),
        forall|k: int|
            0 <= k < n ==> (#[trigger] gs[k + 1]).pairs() == gs[k].pairs() && gs[k + 1].node_count() == gs[k].node_count(),
    ensures
        gs[n].pairs() == gs[0].pairs(),
        gs[n].node_count() == gs[0].node_count(),
    decreases n,
{
    if n > 0 {
        let k = n - 1;
        assert(gs[k + 1].pairs() == gs[k].pairs());
        lemma_pairs_fixed(gs, n - 1);
    }
}

/// The ended predecessors among a prefix are no more than among the whole.
proof fn lemma_ended_preds_prefix(pairs: Seq<(u32, u32)>, xs: Seq<NodeIndex>, y: int, k: int)
    requires
        0 <= k <= xs.len(),
    ensures
        ended_preds(pairs, xs.take(k), y) <= ended_preds(pairs, xs, y),
    decreases xs.len(),
{
    if k < xs.len() {
        assert(xs.drop_last().take(k) == xs.take(k));
        lemma_ended_preds_prefix(pairs, xs.drop_last(), y, k);
    } else {
        assert(xs.take(k) == xs);
    }
}

/// Filtering by two predicates that agree on every element of `s` keeps
/// the same elements.
proof fn lemma_filter_agree<A>(s: Seq<A>, p: spec_fn(A) -> bool, q: spec_fn(A) -> bool)
    requires
        forall|i: int| 0 <= i < s.len() ==> p(s[i]) == q(s[i]),
    ensures
        s.filter(p) == s.filter(q),
    decreases s.len(),
{
    reveal(Seq::filter);
    if s.len() > 0 {
        lemma_filter_agree(s.drop_last(), p, q);
        assert(p(s.last()) == q(s.last()));
    }
}

impl GraphInner {
    /// The edges as `(source, target)` pairs, oldest first.
    pub closed spec fn pairs(&self) -> Seq<(u32, u32)> {
        Seq::new(
            self.edges.len() as nat,
            |i: int| (edge_nbr(self.edges[i], Direction::From), edge_nbr(self.edges[i], Direction::To)),
        )
    }

    pub closed spec fn node_count(&self) -> nat {
        self.nodes.len() as nat
    }

    pub closed spec fn label_at(&self, i: int) -> NodeType {
        self.nodes[i].label
    }

    pub closed spec fn from_count_at(&self, i: int) -> u32 {
        self.nodes[i].from_count
    }

    pub closed spec fn spec_to_len(&self) -> u32 {
        self.to_len
    }

    pub closed spec fn spec_froms(&self) -> Seq<NodeIndex> {
        self.froms@
    }

    /// The node recorded for the key `id`, if any.
    pub closed spec fn key_node(&self, id: (u128, u32)) -> Option<NodeIndex> {
        if exists|i: int| 0 <= i < self.map.len() && (#[trigger] self.map[i]).0 == id {
            Some(self.map[choose|i: int| 0 <= i < self.map.len() && (#[trigger] self.map[i]).0 == id].1)
        } else {
            None
        }
    }

    /// Distinct keys are recorded with distinct nodes.
    pub proof fn lemma_key_node_injective(&self, a: (u128, u32), b: (u128, u32))
        requires
            self.wf(),
            a != b,
            self.key_node(a) is Some,
            self.key_node(b) is Some,
        ensures
            self.key_node(a) != self.key_node(b),
    {
        let i = choose|i: int| 0 <= i < self.map.len() && (#[trigger] self.map[i]).0 == a;
        let j = choose|j: int| 0 <= j < self.map.len() && (#[trigger] self.map[j]).0 == b;
        assert(i != j);
        if i < j {
            assert(self.map[i].1 != self.map[j].1);
        } else {
            assert(self.map[j].1 != self.map[i].1);
        }
    }

    /// The index of the node recorded for the key `id`.
    pub open spec fn key_index(&self, id: (u128, u32)) -> int {
        match self.key_node(id) {
            Some(n) => n.0 as int,
            None => -1,
        }
    }

    pub closed spec fn wf(&self) -> bool {
        &&& self.edges.len() < u32::MAX
        &&& self.nodes.len() + 1 < u32::MAX
        &&& forall|e: int, d: Direction|
            0 <= e < self.edges.len() ==> #[trigger] edge_nbr(self.edges[e], d) < self.nodes.len()
        &&& forall|e: int, d: Direction|
            0 <= e < self.edges.len() ==> #[trigger] edge_next(self.edges[e], d) == link(
                last_with(self.pairs(), e, p_owner(self.pairs()[e], d), d),
            )
        &&& forall|n: int, d: Direction|
            0 <= n < self.nodes.len() ==> #[trigger] node_len(self.nodes[n], d) == count_with(
                self.pairs(),
                self.edges.len() as int,
                n as u32,
                d,
            )
        &&& forall|n: int, d: Direction|
            0 <= n < self.nodes.len() ==> #[trigger] node_head(self.nodes[n], d) == link(
                last_with(self.pairs(), self.edges.len() as int, n as u32, d),
            )
        &&& self.to_len == sink_count(self.nodes@, self.nodes.len() as int)
        &&& forall|i: int, j: int|
            0 <= i < j < self.edges.len() ==> self.pairs()[i] != self.pairs()[j]
        &&& forall|i: int| 0 <= i < self.map.len() ==> (#[trigger] self.map[i]).1.0 < self.nodes.len()
        &&& forall|i: int, j: int|
            0 <= i < j < self.map.len() ==> (#[trigger] self.map[i]).0 != (#[trigger] self.map[j]).0
        &&& forall|i: int, j: int|
            0 <= i < j < self.map.len() ==> (#[trigger] self.map[i]).1 != (#[trigger] self.map[j]).1
        &&& forall|i: int| 0 <= i < self.froms.len() ==> (#[trigger] self.froms[i]).0 < self.nodes.len()
    }

    pub fn new() -> (r: GraphInner)
        ensures
            r.wf(),
            r.node_count() == 0,
            r.pairs() == Seq::<(u32, u32)>::empty(),
            r.spec_to_len() == 0,
            r.spec_froms() == Seq::<NodeIndex>::empty(),
            r.spec_to_count() == 0,
            r.spec_sys_len() == 0,
            forall|id: (u128, u32)| r.key_node(id) is None,
    {
        let r = GraphInner {
            nodes: Vec::new(),
            edges: Vec::new(),
            map: Vec::new(),
            to_len: 0,
            froms: Vec::new(),
            to_count: 0,
            sys_len: 0,
        };
        assert(r.pairs() =~= Seq::<(u32, u32)>::empty());
        r
    }

    pub fn node_len(&self) -> (r: usize)
        ensures
            r == self.node_count(),
    {
        self.nodes.len()
    }

    pub fn edge_len(&self) -> (r: usize)
        ensures
            r == self.pairs().len(),
    {
        self.edges.len()
    }

    /// The label of node `i`.
    pub fn label(&self, i: usize) -> (r: &NodeType)
        requires
            i < self.node_count(),
        ensures
            *r == self.label_at(i as int),
    {
        &self.nodes[i].label
    }

    /// The source and target of edge `i`.
    pub fn edge_nodes(&self, i: usize) -> (r: (NodeIndex, NodeIndex))
        requires
            i < self.pairs().len(),
        ensures
            (r.0.0, r.1.0) == self.pairs()[i as int],
    {
        let e = self.edges[i];
        (e.load(Direction::From).0, e.load(Direction::To).0)
    }

    /// Appends a node with the given label and inbound counter.
    fn push_node(&mut self, label: NodeType, from_count: u32) -> (r: NodeIndex)
        requires
            old(self).wf(),
            old(self).node_count() + 2 < u32::MAX,
        ensures
            final(self).wf(),
            r.0 == old(self).node_count(),
            final(self).node_count() == old(self).node_count() + 1,
            final(self).pairs() == old(self).pairs(),
            final(self).spec_to_len() == old(self).spec_to_len() + 1,
            final(self).spec_froms() == old(self).spec_froms(),
            final(self).label_at(r.0 as int) == label,
            final(self).from_count_at(r.0 as int) == from_count,
            final(self).status_at(r.0 as int) == NODE_STATUS_WAIT,
            forall|i: int| 0 <= i < old(self).node_count() ==> final(self).label_at(i) == old(self).label_at(i)
                && final(self).from_count_at(i) == old(self).from_count_at(i),
            forall|id: (u128, u32)| final(self).key_node(id) == old(self).key_node(id),
            final(self).map@ == old(self).map@,
            forall|i: int| 0 <= i < old(self).node_count() ==> final(self).status_at(i) == old(self).status_at(i),
    {
        let ghost old_nodes = self.nodes@;
        let ghost pairs = self.pairs();
        let n = Node::new(label, from_count);
        let index = self.nodes.len();
        proof {
            lemma_sink_count_bound(old_nodes, old_nodes.len() as int);
        }
        self.nodes.push(n);
        self.to_len = self.to_len + 1;
        assert(self.pairs() =~= pairs);
        proof {
            assert forall|d: Direction| true implies #[trigger] count_with(pairs, pairs.len() as int, index as u32, d) == 0
                && last_with(pairs, pairs.len() as int, index as u32, d) == -1 by {
                assert forall|e: int| 0 <= e < pairs.len() implies p_owner(#[trigger] pairs[e], d) != index as u32 by {
                    assert(edge_nbr(self.edges[e], Direction::From) < index);
                    assert(edge_nbr(self.edges[e], Direction::To) < index);
                }
                lemma_list_absent(pairs, pairs.len() as int, index as u32, d);
            }
            assert forall|n: int, d: Direction| 0 <= n < self.nodes.len() implies #[trigger] node_len(self.nodes[n], d) == count_with(
                self.pairs(), self.edges.len() as int, n as u32, d) by {
                if n < index {
                    assert(self.nodes[n] == old_nodes[n]);
                }
            }
            assert forall|n: int, d: Direction| 0 <= n < self.nodes.len() implies #[trigger] node_head(self.nodes[n], d) == link(
                last_with(self.pairs(), self.edges.len() as int, n as u32, d)) by {
                if n < index {
                    assert(self.nodes[n] == old_nodes[n]);
                }
            }
            lemma_sink_count_update(old_nodes, self.nodes@, index as int, -1);
            assert(sink_count(self.nodes@, self.nodes.len() as int) == sink_count(self.nodes@, index as int) + 1);
            assert forall|id: (u128, u32)| self.key_node(id) == old(self).key_node(id) by {
                assert(self.map@ == old(self).map@);
            }
        }
        NodeIndex(index as u32)
    }
}


/// Walks the edge list of one node in one direction, newest edge first,
/// yielding the node at the other end of each edge.
pub struct NeighborIter<'a> {
    inner: &'a GraphInner,
    d: Direction,
    edge: (u32, EdgeIndex),
    upto: Ghost<int>,
    owner: Ghost<u32>,
}

impl<'a> NeighborIter<'a> {
    pub closed spec fn iter_wf(&self) -> bool {
        &&& self.inner.wf()
        &&& 0 <= self.upto@ <= self.inner.pairs().len()
        &&& self.edge.0 == count_with(self.inner.pairs(), self.upto@, self.owner@, self.d)
        &&& self.edge.1.0 == link(last_with(self.inner.pairs(), self.upto@, self.owner@, self.d))
    }

    /// The neighbours that are still to come.
    pub closed spec fn remaining(&self) -> Seq<u32> {
        nbrs(self.inner.pairs(), self.upto@, self.owner@, self.d)
    }

    pub closed spec fn graph(&self) -> &'a GraphInner {
        self.inner
    }

    pub fn next(&mut self) -> (r: Option<NodeIndex>)
        requires
            old(self).iter_wf(),
        ensures
            final(self).iter_wf(),
            final(self).graph() == old(self).graph(),
            old(self).remaining().len() == 0 ==> r is None && final(self).remaining() == old(self).remaining(),
            old(self).remaining().len() > 0 ==> r == Some(NodeIndex(old(self).remaining()[0]))
                && final(self).remaining() == old(self).remaining().drop_first(),
    {
        let ghost pairs = self.inner.pairs();
        proof {
            lemma_list_step(pairs, self.upto@, self.owner@, self.d);
        }
        if self.edge.0 == 0 {
            return None;
        }
        let ghost p = last_with(pairs, self.upto@, self.owner@, self.d);
        self.edge.0 = self.edge.0 - 1;
        let i = self.edge.1.index();
        let edge = self.inner.edges[i];
        let (node_index, next_edge) = edge.load(self.d);
        self.edge.1 = next_edge;
        proof {
            self.upto@ = p;
            assert(edge_nbr(edge, self.d) == p_nbr(pairs[p], self.d));
            assert(p_owner(pairs[p], self.d) == self.owner@);
            assert(nbrs(pairs, p, self.owner@, self.d) =~= old(self).remaining().drop_first());
        }
        Some(node_index)
    }
}

impl GraphInner {
    /// The neighbours of `node_index` in direction `d`, newest edge first: for
    /// `From` the sources of its inbound edges, for `To` the targets of its
    /// outbound edges. A node that does not exist has none.
    pub fn neighbors(&self, node_index: NodeIndex, d: Direction) -> (r: NeighborIter<'_>)
        requires
            self.wf(),
        ensures
            r.iter_wf(),
            r.graph() == self,
            r.remaining() == nbrs(self.pairs(), self.pairs().len() as int, node_index.0, d),
    {
        let ghost pairs = self.pairs();
        if node_index.index() < self.nodes.len() {
            let edge = self.nodes[node_index.index()].edge(d);
            NeighborIter { inner: self, d, edge, upto: Ghost(pairs.len() as int), owner: Ghost(node_index.0) }
        } else {
            proof {
                assert forall|e: int| 0 <= e < pairs.len() implies p_owner(#[trigger] pairs[e], d) != node_index.0 by {
                    assert(edge_nbr(self.edges[e], Direction::From) < self.nodes.len());
                    assert(edge_nbr(self.edges[e], Direction::To) < self.nodes.len());
                }
                lemma_list_absent(pairs, pairs.len() as int, node_index.0, d);
                lemma_list_absent(pairs, 0, node_index.0, d);
            }
            NeighborIter { inner: self, d, edge: (0, EdgeIndex(u32::MAX)), upto: Ghost(0), owner: Ghost(node_index.0) }
        }
    }

    /// `Some((from, to))` when the graph has the edge `from -> to`.
    pub fn has_edge(&self, from: NodeIndex, to: NodeIndex) -> (r: Option<(NodeIndex, NodeIndex)>)
        requires
            self.wf(),
        ensures
            r is Some <==> self.pairs().contains((from.0, to.0)),
            r is Some ==> r == Some((from, to)),
    {
        let mut it = self.neighbors(to, Direction::From);
        let ghost all = it.remaining();
        let ghost pairs = self.pairs();
        proof {
            lemma_nbrs_contains(pairs, pairs.len() as int, to.0, Direction::From, from.0);
            if pairs.contains((from.0, to.0)) {
                let e = choose|e: int| 0 <= e < pairs.len() && pairs[e] == (from.0, to.0);
                assert(p_owner(pairs[e], Direction::From) == to.0);
            }
            if all.contains(from.0) {
                let e = choose|e: int| 0 <= e < pairs.len() && p_owner(#[trigger] pairs[e], Direction::From) == to.0
                    && p_nbr(pairs[e], Direction::From) == from.0;
                assert(pairs[e] == (from.0, to.0));
            }
            assert(all.contains(from.0) <==> pairs.contains((from.0, to.0)));
        }
        loop
            invariant
                it.iter_wf(),
                it.graph() == self,
                all == nbrs(self.pairs(), self.pairs().len() as int, to.0, Direction::From),
                all.contains(from.0) <==> it.remaining().contains(from.0),
                all.contains(from.0) <==> self.pairs().contains((from.0, to.0)),
            decreases it.remaining().len(),
        {
            let ghost before = it.remaining();
            match it.next() {
                None => {
                    return None;
                },
                Some(old_from) => {
                    if old_from == from {
                        assert(before[0] == from.0);
                        return Some((from, to));
                    }
                    proof {
                        let rest = it.remaining();
                        assert(before == seq![before[0]] + rest);
                        if before.contains(from.0) {
                            let k = choose|k: int| 0 <= k < before.len() && #[trigger] before[k] == from.0;
                            assert(k > 0);
                            assert(rest[k - 1] == from.0);
                        }
                        if rest.contains(from.0) {
                            let k = choose|k: int| 0 <= k < rest.len() && #[trigger] rest[k] == from.0;
                            assert(before[k + 1] == from.0);
                        }
                    }
                },
            }
        }
    }
}


impl GraphInner {
    /// Links `from -> to` unless the edge already exists. The new edge heads
    /// the outbound list of `from` and the inbound list of `to`. When `from`
    /// has not finished its run, the inbound counter of `to` goes up; when
    /// `from` had no outbound edge, the number of sinks goes down.
    pub fn add_edge(&mut self, from: NodeIndex, to: NodeIndex)
        requires
            old(self).wf(),
            from.0 < old(self).node_count(),
            to.0 < old(self).node_count(),
            old(self).pairs().len() + 2 < u32::MAX,
        ensures
            final(self).wf(),
            edge_linked(*old(self), *final(self), from, to),
            final(self).node_count() == old(self).node_count(),
            final(self).pairs() == if old(self).pairs().contains((from.0, to.0)) {
                old(self).pairs()
            } else {
                old(self).pairs().push((from.0, to.0))
            },
            forall|i: int| 0 <= i < old(self).node_count() ==> final(self).label_at(i) == old(self).label_at(i),
            forall|i: int| 0 <= i < old(self).node_count() && i != to.0 ==> final(self).from_count_at(i) == old(self).from_count_at(i),
            forall|i: int| 0 <= i < old(self).node_count() && i != to.0 ==> final(self).status_at(i) == old(self).status_at(i),
            final(self).spec_froms() == old(self).spec_froms(),
            forall|id: (u128, u32)| final(self).key_node(id) == old(self).key_node(id),
            old(self).pairs().contains((from.0, to.0)) ==> final(self).from_count_at(to.0 as int) == old(self).from_count_at(
                to.0 as int,
            ) && final(self).status_at(to.0 as int) == old(self).status_at(to.0 as int) && final(self).spec_to_count()
                == old(self).spec_to_count(),
            !old(self).pairs().contains((from.0, to.0)) ==> {
                let c0 = old(self).from_count_at(to.0 as int);
                let waiting = old(self).status_at(from.0 as int) < NODE_STATUS_RUN_END;
                let was = if waiting { c0 } else { 1u32 };
                &&& final(self).from_count_at(to.0 as int) == if waiting { c0.wrapping_add(1) } else { c0 }
                &&& final(self).status_at(to.0 as int) == if was == 0 {
                    old(self).status_at(to.0 as int).wrapping_add(2)
                } else {
                    old(self).status_at(to.0 as int)
                }
                &&& final(self).spec_to_count() == if count_with(
                    old(self).pairs(),
                    old(self).pairs().len() as int,
                    from.0,
                    Direction::To,
                ) == 0 {
                    old(self).spec_to_count().wrapping_sub(1)
                } else {
                    old(self).spec_to_count()
                }
            },
    {
        if self.has_edge(from, to).is_some() {
            return;
        }
        let ghost pairs = self.pairs();
        let ghost old_nodes = self.nodes@;
        let fi = from.index();
        let ti = to.index();
        let (from_edge_len, from_next_edge) = self.nodes[ti].edge(Direction::From);
        let (to_edge_len, to_next_edge) = self.nodes[fi].edge(Direction::To);
        proof {
            lemma_list_step(pairs, pairs.len() as int, to.0, Direction::From);
            lemma_list_step(pairs, pairs.len() as int, from.0, Direction::To);
        }
        let status = self.nodes[fi].status;
        let old_from = if status < NODE_STATUS_RUN_END {
            let c = self.nodes[ti].from_count;
            self.nodes[ti].from_count = c.wrapping_add(1);
            c
        } else {
            1
        };
        let e = Edge::new(from, from_next_edge, to, to_next_edge);
        let edge_index = self.edges.len();
        self.edges.push(e);
        let w1 = encode(from_edge_len + 1, edge_index as u32);
        let words = set_word(self.nodes[ti].edges, Direction::From.index(), w1);
        self.nodes[ti].edges = words;
        let w2 = encode(to_edge_len + 1, edge_index as u32);
        let words = set_word(self.nodes[fi].edges, Direction::To.index(), w2);
        self.nodes[fi].edges = words;
        let ghost mid_nodes = self.nodes@;
        if old_from == 0 {
            self.nodes[ti].status = self.nodes[ti].status.wrapping_add(2);
        }
        proof {
            let np = self.pairs();
            assert(np =~= pairs.push((from.0, to.0)));
            assert(!pairs.contains((from.0, to.0)));
            assert forall|x: u32, d: Direction| #[trigger] count_with(np, np.len() as int, x, d) == count_with(pairs, pairs.len() as int, x, d)
                + (if p_owner((from.0, to.0), d) == x { 1nat } else { 0nat }) by {
                lemma_list_prefix(pairs, np, pairs.len() as int, x, d);
            }
            assert forall|x: u32, d: Direction| #[trigger] last_with(np, np.len() as int, x, d) == if p_owner((from.0, to.0), d) == x {
                pairs.len() as int
            } else {
                last_with(pairs, pairs.len() as int, x, d)
            } by {
                lemma_list_prefix(pairs, np, pairs.len() as int, x, d);
            }
            assert forall|e: int, d: Direction| 0 <= e < self.edges.len() implies #[trigger] edge_next(self.edges[e], d) == link(
                last_with(np, e, p_owner(np[e], d), d)) by {
                lemma_list_prefix(pairs, np, e, p_owner(np[e], d), d);
                if e < pairs.len() {
                    assert(self.edges[e] == old(self).edges[e]);
                } else {
                    assert(e == pairs.len());
                    match d {
                        Direction::From => {}
                        Direction::To => {}
                    }
                }
            }
            assert forall|e: int, d: Direction| 0 <= e < self.edges.len() implies #[trigger] edge_nbr(self.edges[e], d) < self.nodes.len() by {
                if e < pairs.len() {
                    assert(self.edges[e] == old(self).edges[e]);
                }
            }
            assert forall|n: int, d: Direction| 0 <= n < self.nodes.len() implies #[trigger] node_len(self.nodes[n], d) == count_with(
                np, self.edges.len() as int, n as u32, d) && node_head(self.nodes[n], d) == link(
                last_with(np, self.edges.len() as int, n as u32, d)) by {
                assert(count_with(np, np.len() as int, n as u32, d) == count_with(pairs, pairs.len() as int, n as u32, d)
                    + (if p_owner((from.0, to.0), d) == n as u32 { 1nat } else { 0nat }));
                assert(last_with(np, np.len() as int, n as u32, d) == if p_owner((from.0, to.0), d) == n as u32 {
                    pairs.len() as int } else { last_with(pairs, pairs.len() as int, n as u32, d) });
                assert(old_nodes[n].edges == old(self).nodes[n].edges);
                assert(self.nodes[ti as int].edges[1] == w1);
                assert(self.nodes[fi as int].edges[0] == w2);
                assert(node_len(old_nodes[n], d) == count_with(pairs, pairs.len() as int, n as u32, d));
                assert(node_head(old_nodes[n], d) == link(last_with(pairs, pairs.len() as int, n as u32, d)));
                assert(link(pairs.len() as int) == edge_index as u32);
                if n != ti {
                    assert(self.nodes[n].edges[1] == old_nodes[n].edges[1]);
                }
                if n != fi {
                    assert(self.nodes[n].edges[0] == old_nodes[n].edges[0]);
                }
                match d {
                    Direction::From => {
                        if n == ti {
                            assert(word_at(self.nodes[n].edges, d) == w1);
                            assert(p_owner((from.0, to.0), d) == n as u32);
                        } else {
                            assert(word_at(self.nodes[n].edges, d) == word_at(old_nodes[n].edges, d));
                            assert(p_owner((from.0, to.0), d) != n as u32);
                        }
                    },
                    Direction::To => {
                        if n == fi {
                            assert(word_at(self.nodes[n].edges, d) == w2);
                            assert(p_owner((from.0, to.0), d) == n as u32);
                        } else {
                            assert(word_at(self.nodes[n].edges, d) == word_at(old_nodes[n].edges, d));
                            assert(p_owner((from.0, to.0), d) != n as u32);
                        }
                    },
                }
            }
            assert forall|n: int, d: Direction| 0 <= n < self.nodes.len() implies #[trigger] node_head(self.nodes[n], d) == link(
                last_with(np, self.edges.len() as int, n as u32, d)) by {
                assert(node_len(self.nodes[n], d) == count_with(np, self.edges.len() as int, n as u32, d));
            }
            assert forall|j: int| 0 <= j < old_nodes.len() && j != fi implies node_len(#[trigger] old_nodes[j], Direction::To) == node_len(
                self.nodes[j], Direction::To) by {
                assert(node_len(self.nodes[j], Direction::To) == count_with(np, np.len() as int, j as u32, Direction::To));
                assert(node_len(old_nodes[j], Direction::To) == count_with(pairs, pairs.len() as int, j as u32, Direction::To));
                assert(count_with(np, np.len() as int, j as u32, Direction::To) == count_with(pairs, pairs.len() as int, j as u32, Direction::To)
                    + (if p_owner((from.0, to.0), Direction::To) == j as u32 { 1nat } else { 0nat }));
            }
            assert(node_len(self.nodes[fi as int], Direction::To) == to_edge_len + 1) by {
                assert(node_len(self.nodes[fi as int], Direction::To) == count_with(np, np.len() as int, from.0, Direction::To));
                assert(count_with(np, np.len() as int, from.0, Direction::To) == count_with(pairs, pairs.len() as int, from.0, Direction::To) + 1);
            }
            lemma_sink_count_update(old_nodes, self.nodes@, old_nodes.len() as int, fi as int);
            lemma_sink_count_bound(old_nodes, old_nodes.len() as int);
        }
        if to_edge_len == 0 {
            self.to_len = self.to_len - 1;
            self.to_count = self.to_count.wrapping_sub(1);
        }
        proof {
            let np = self.pairs();
            assert forall|i: int, j: int| 0 <= i < j < self.edges.len() implies np[i] != np[j] by {
                if j == pairs.len() {
                    assert(np[i] == pairs[i]);
                } else {
                    assert(np[i] == pairs[i]);
                    assert(np[j] == pairs[j]);
                }
            }
            assert forall|id: (u128, u32)| self.key_node(id) == old(self).key_node(id) by {
                assert(self.map@ == old(self).map@);
            }
            assert forall|i: int| 0 <= i < old(self).node_count() && i != to.0 implies self.from_count_at(i) == old(self).from_count_at(i) by {
                assert(self.nodes[i].from_count == old_nodes[i].from_count);
            }
        }
    }
}


impl GraphInner {
    /// Appends a system node.
    pub fn add_system(&mut self, sys_index: usize, sys_name: String) -> (r: NodeIndex)
        requires
            old(self).wf(),
            old(self).node_count() + 2 < u32::MAX,
        ensures
            final(self).wf(),
            r.0 == old(self).node_count(),
            final(self).node_count() == old(self).node_count() + 1,
            final(self).pairs() == old(self).pairs(),
            final(self).spec_to_len() == old(self).spec_to_len() + 1,
            final(self).label_at(r.0 as int) == NodeType::System(sys_index, sys_name),
            final(self).from_count_at(r.0 as int) == 0,
            final(self).status_at(r.0 as int) == NODE_STATUS_WAIT,
            forall|i: int| 0 <= i < old(self).node_count() ==> final(self).label_at(i) == old(self).label_at(i)
                && final(self).from_count_at(i) == old(self).from_count_at(i)
                && final(self).status_at(i) == old(self).status_at(i),
            final(self).spec_froms() == old(self).spec_froms(),
            forall|id: (u128, u32)| final(self).key_node(id) == old(self).key_node(id),
    {
        self.push_node(NodeType::System(sys_index, sys_name), 0)
    }

    /// Appends a node for a set of systems.
    pub fn add_set(&mut self, set_name: String) -> (r: NodeIndex)
        requires
            old(self).wf(),
            old(self).node_count() + 2 < u32::MAX,
        ensures
            final(self).wf(),
            r.0 == old(self).node_count(),
            final(self).node_count() == old(self).node_count() + 1,
            final(self).pairs() == old(self).pairs(),
            final(self).spec_to_len() == old(self).spec_to_len() + 1,
            final(self).label_at(r.0 as int) == NodeType::SystemSet(set_name),
            final(self).from_count_at(r.0 as int) == 0,
            final(self).status_at(r.0 as int) == NODE_STATUS_WAIT,
            forall|i: int| 0 <= i < old(self).node_count() ==> final(self).label_at(i) == old(self).label_at(i)
                && final(self).from_count_at(i) == old(self).from_count_at(i)
                && final(self).status_at(i) == old(self).status_at(i),
            final(self).spec_froms() == old(self).spec_froms(),
            forall|id: (u128, u32)| final(self).key_node(id) == old(self).key_node(id),
    {
        self.push_node(NodeType::SystemSet(set_name), 0)
    }

    /// The node recorded for `id`; when there is none, a new node with the
    /// given label and one pending inbound edge is appended and recorded.
    /// The flag tells whether the node is new.
    pub fn find_node(&mut self, id: (u128, u32), label: NodeType) -> (r: (NodeIndex, bool))
        requires
            old(self).wf(),
            old(self).node_count() + 2 < u32::MAX,
        ensures
            final(self).wf(),
            final(self).pairs() == old(self).pairs(),
            final(self).spec_froms() == old(self).spec_froms(),
            old(self).key_node(id) is Some ==> r == (old(self).key_node(id)->0, false)
                && final(self).node_count() == old(self).node_count()
                && final(self).spec_to_len() == old(self).spec_to_len()
                && forall|k: (u128, u32)| final(self).key_node(k) == old(self).key_node(k),
            old(self).key_node(id) is None ==> r == (NodeIndex(old(self).node_count() as u32), true)
                && final(self).node_count() == old(self).node_count() + 1
                && final(self).spec_to_len() == old(self).spec_to_len() + 1
                && final(self).label_at(r.0.0 as int) == label
                && final(self).from_count_at(r.0.0 as int) == 1
                && final(self).status_at(r.0.0 as int) == NODE_STATUS_WAIT
                && final(self).key_node(id) == Some(r.0)
                && forall|k: (u128, u32)| k != id ==> final(self).key_node(k) == old(self).key_node(k),
            forall|i: int| 0 <= i < old(self).node_count() ==> final(self).label_at(i) == old(self).label_at(i)
                && final(self).from_count_at(i) == old(self).from_count_at(i)
                && final(self).status_at(i) == old(self).status_at(i),
            r.0.0 < final(self).node_count(),
    {
        let mut i: usize = 0;
        while i < self.map.len()
            invariant
                self.wf(),
                0 <= i <= self.map.len(),
                forall|j: int| 0 <= j < i ==> (#[trigger] self.map[j]).0 != id,
            decreases self.map.len() - i,
        {
            if self.map[i].0.0 == id.0 && self.map[i].0.1 == id.1 {
                let v = self.map[i].1;
                proof {
                    assert(self.key_node(id) == Some(v)) by {
                        let c = choose|c: int| 0 <= c < self.map.len() && (#[trigger] self.map[c]).0 == id;
                        if c != i {
                            if c < i {
                                assert(self.map[c].0 != self.map[i as int].0);
                            } else {
                                assert(self.map[i as int].0 != self.map[c].0);
                            }
                        }
                    }
                }
                return (v, false);
            }
            i = i + 1;
        }
        assert(self.key_node(id) is None);
        let node_index = self.push_node(label, 1);
        let ghost old_map = self.map@;
        let ghost mid = *self;
        assert(mid.key_node(id) is None);
        self.map.push((id, node_index));
        proof {
            assert(self.map[old_map.len() as int] == (id, node_index));
            assert forall|i: int, j: int| 0 <= i < j < self.map.len() implies (#[trigger] self.map[i]).1 != (
            #[trigger] self.map[j]).1 by {
                if j == old_map.len() {
                    assert(old(self).map[i].1.0 < old(self).nodes.len());
                } else {
                    assert(old(self).map[i] == self.map[i] && old(self).map[j] == self.map[j]);
                }
            }
            assert(self.key_node(id) == Some(node_index));
            assert forall|k: (u128, u32)| k != id implies self.key_node(k) == mid.key_node(k) by {
                if exists|j: int| 0 <= j < self.map.len() && (#[trigger] self.map[j]).0 == k {
                    let j = choose|j: int| 0 <= j < self.map.len() && (#[trigger] self.map[j]).0 == k;
                    assert(j < old_map.len());
                    assert(old_map[j] == self.map[j]);
                }
                if exists|j: int| 0 <= j < old_map.len() && (#[trigger] old_map[j]).0 == k {
                    let j = choose|j: int| 0 <= j < old_map.len() && (#[trigger] old_map[j]).0 == k;
                    assert(self.map[j] == old_map[j]);
                }
                let a = self.key_node(k);
                if a is Some {
                    let c1 = choose|c: int| 0 <= c < self.map.len() && (#[trigger] self.map[c]).0 == k;
                    let c2 = choose|c: int| 0 <= c < old_map.len() && (#[trigger] old_map[c]).0 == k;
                    assert(c1 < old_map.len());
                    if c1 != c2 {
                        if c1 < c2 {
                            assert(old_map[c1].0 != old_map[c2].0);
                        } else {
                            assert(old_map[c2].0 != old_map[c1].0);
                        }
                    }
                }
            }
        }
        (node_index, true)
    }

    /// Links `from -> to` unless `to` already has `from` among its sources.
    pub fn adjust_edge(&mut self, from: NodeIndex, to: NodeIndex)
        requires
            old(self).wf(),
            from.0 < old(self).node_count(),
            to.0 < old(self).node_count(),
            old(self).pairs().len() + 2 < u32::MAX,
        ensures
            final(self).wf(),
            final(self).node_count() == old(self).node_count(),
            final(self).pairs() == if old(self).pairs().contains((from.0, to.0)) {
                old(self).pairs()
            } else {
                old(self).pairs().push((from.0, to.0))
            },
            forall|i: int| 0 <= i < old(self).node_count() ==> final(self).label_at(i) == old(self).label_at(i),
            forall|i: int| 0 <= i < old(self).node_count() && i != to.0 ==> final(self).from_count_at(i) == old(self).from_count_at(i),
            final(self).spec_froms() == old(self).spec_froms(),
            forall|id: (u128, u32)| final(self).key_node(id) == old(self).key_node(id),
            forall|i: int| 0 <= i < old(self).node_count() && i != to.0 ==> final(self).status_at(i) == old(self).status_at(i),
            old(self).pairs().contains((from.0, to.0)) ==> final(self).from_count_at(to.0 as int) == old(self).from_count_at(
                to.0 as int,
            ) && final(self).status_at(to.0 as int) == old(self).status_at(to.0 as int) && final(self).spec_to_count()
                == old(self).spec_to_count(),
            !old(self).pairs().contains((from.0, to.0)) ==> {
                let c0 = old(self).from_count_at(to.0 as int);
                let waiting = old(self).status_at(from.0 as int) < NODE_STATUS_RUN_END;
                let was = if waiting { c0 } else { 1u32 };
                &&& final(self).from_count_at(to.0 as int) == if waiting { c0.wrapping_add(1) } else { c0 }
                &&& final(self).status_at(to.0 as int) == if was == 0 {
                    old(self).status_at(to.0 as int).wrapping_add(2)
                } else {
                    old(self).status_at(to.0 as int)
                }
                &&& final(self).spec_to_count() == if count_with(
                    old(self).pairs(),
                    old(self).pairs().len() as int,
                    from.0,
                    Direction::To,
                ) == 0 {
                    old(self).spec_to_count().wrapping_sub(1)
                } else {
                    old(self).spec_to_count()
                }
            },
            counters_linked(*old(self), *final(self), from.0, to.0),
    {
        if self.has_edge(from, to).is_some() {
            return;
        }
        self.add_edge(from, to);
    }
}

/// `g1` is `g0` after `adjust_edge(from, to)` as far as the counters go:
/// the other nodes keep their counts of pending inputs and their statuses;
/// when the edge is new, `to` gets one pending input more while `from` has
/// not passed the end of its run (and gets ready to run at once when it
/// had none), and the count of nodes without successors loses `from` when
/// this is its first outbound edge.
pub open spec fn counters_linked(g0: GraphInner, g1: GraphInner, from: u32, to: u32) -> bool {
    &&& forall|i: int|
        0 <= i < g0.node_count() && i != to ==> g1.from_count_at(i) == g0.from_count_at(i) && g1.status_at(i)
            == g0.status_at(i)
    &&& g0.pairs().contains((from, to)) ==> g1.from_count_at(to as int) == g0.from_count_at(to as int) && g1.status_at(
        to as int,
    ) == g0.status_at(to as int) && g1.spec_to_count() == g0.spec_to_count()
    &&& !g0.pairs().contains((from, to)) ==> {
        let c0 = g0.from_count_at(to as int);
        let waiting = g0.status_at(from as int) < NODE_STATUS_RUN_END;
        let was = if waiting { c0 } else { 1u32 };
        &&& g1.from_count_at(to as int) == if waiting { c0.wrapping_add(1) } else { c0 }
        &&& g1.status_at(to as int) == if was == 0 {
            g0.status_at(to as int).wrapping_add(2)
        } else {
            g0.status_at(to as int)
        }
        &&& g1.spec_to_count() == if count_with(g0.pairs(), g0.pairs().len() as int, from, Direction::To) == 0 {
            g0.spec_to_count().wrapping_sub(1)
        } else {
            g0.spec_to_count()
        }
    }
}

/// `gs` are the graphs met while linking the pairs of `fan` in turn, each
/// one's counters following from the one before.
pub open spec fn counters_chain(gs: Seq<GraphInner>, fan: Seq<(u32, u32)>) -> bool {
    &&& gs.len() == fan.len() + 1
    &&& forall|k: int| 0 <= k < fan.len() ==> counters_linked(#[trigger] gs[k], gs[k + 1], fan[k].0, fan[k].1)
}

/// `ps` after adding each pair of `new` in turn, a pair already there being
/// skipped.
pub open spec fn add_pairs(ps: Seq<(u32, u32)>, new: Seq<(u32, u32)>) -> Seq<(u32, u32)>
    decreases new.len(),
{
    if new.len() == 0 {
        ps
    } else {
        let p = add_pairs(ps, new.drop_last());
        if p.contains(new.last()) {
            p
        } else {
            p.push(new.last())
        }
    }
}

/// The pairs that `adjust_edges` links: each node of `vec` to `to` when
/// `from` is null, otherwise `from` to each node of `vec`.
pub open spec fn fan_pairs(vec: Seq<NodeIndex>, from: NodeIndex, to: NodeIndex) -> Seq<(u32, u32)> {
    if from.0 == u32::MAX {
        vec.map_values(|n: NodeIndex| (n.0, to.0))
    } else {
        vec.map_values(|n: NodeIndex| (from.0, n.0))
    }
}

impl GraphInner {
    /// Links every node of `vec` to `to` when `from` is null, otherwise
    /// `from` to every node of `vec`, skipping the edges that exist.
    pub fn adjust_edges(&mut self, vec: &Vec<NodeIndex>, from: NodeIndex, to: NodeIndex)
        requires
            old(self).wf(),
            forall|i: int| 0 <= i < vec.len() ==> (#[trigger] vec[i]).0 < old(self).node_count(),
            from.0 == u32::MAX ==> to.0 < old(self).node_count(),
            from.0 != u32::MAX ==> from.0 < old(self).node_count(),
            old(self).pairs().len() + vec.len() + 2 < u32::MAX,
        ensures
            final(self).wf(),
            final(self).node_count() == old(self).node_count(),
            final(self).pairs() == add_pairs(old(self).pairs(), fan_pairs(vec@, from, to)),
            forall|i: int| 0 <= i < old(self).node_count() ==> final(self).label_at(i) == old(self).label_at(i),
            forall|i: int|
                0 <= i < old(self).node_count() && !targets(fan_pairs(vec@, from, to), i) ==> final(self).from_count_at(i)
                    == old(self).from_count_at(i) && final(self).status_at(i) == old(self).status_at(i),
            final(self).spec_froms() == old(self).spec_froms(),
            forall|id: (u128, u32)| final(self).key_node(id) == old(self).key_node(id),
            exists|gs: Seq<GraphInner>|
                #[trigger] counters_chain(gs, fan_pairs(vec@, from, to)) && gs[0] == *old(self) && gs.last()
                    == *final(self),
    {
        let ghost fan = fan_pairs(vec@, from, to);
        let ghost mut gs: Seq<GraphInner> = seq![*self];
        let mut i: usize = 0;
        while i < vec.len()
            invariant
                self.wf(),
                0 <= i <= vec.len(),
                fan == fan_pairs(vec@, from, to),
                self.node_count() == old(self).node_count(),
                forall|j: int| 0 <= j < vec.len() ==> (#[trigger] vec[j]).0 < old(self).node_count(),
                from.0 == u32::MAX ==> to.0 < old(self).node_count(),
                from.0 != u32::MAX ==> from.0 < old(self).node_count(),
                old(self).pairs().len() + vec.len() + 2 < u32::MAX,
                self.pairs() == add_pairs(old(self).pairs(), fan.subrange(0, i as int)),
                self.pairs().len() <= old(self).pairs().len() + i,
                forall|j: int| 0 <= j < old(self).node_count() ==> self.label_at(j) == old(self).label_at(j),
                forall|j: int|
                    0 <= j < old(self).node_count() && !targets(fan.subrange(0, i as int), j) ==> self.from_count_at(j)
                        == old(self).from_count_at(j) && self.status_at(j) == old(self).status_at(j),
                self.spec_froms() == old(self).spec_froms(),
                forall|id: (u128, u32)| self.key_node(id) == old(self).key_node(id),
                counters_chain(gs, fan.subrange(0, i as int)),
                gs[0] == *old(self),
                gs.last() == *self,
            decreases vec.len() - i,
        {
            let ghost before = self.pairs();
            let ghost g0 = *self;
            let n = vec[i];
            if from.is_null() {
                self.adjust_edge(n, to);
            } else {
                self.adjust_edge(from, n);
            }
            proof {
                assert(fan.subrange(0, i + 1).drop_last() == fan.subrange(0, i as int));
                assert(fan.subrange(0, i + 1).last() == fan[i as int]);
                let gs1 = gs.push(*self);
                assert(counters_linked(g0, *self, fan[i as int].0, fan[i as int].1));
                assert forall|k: int| 0 <= k < i + 1 implies counters_linked(#[trigger] gs1[k], gs1[k + 1], fan.subrange(
                    0,
                    i + 1,
                )[k].0, fan.subrange(0, i + 1)[k].1) by {
                    if k < i {
                        assert(gs1[k] == gs[k] && gs1[k + 1] == gs[k + 1]);
                        assert(fan.subrange(0, i + 1)[k] == fan.subrange(0, i as int)[k]);
                    } else {
                        assert(gs1[k] == g0);
                    }
                }
                gs = gs1;
                assert forall|j: int| 0 <= j < old(self).node_count() && !targets(fan.subrange(0, i + 1), j) implies
                    !targets(fan.subrange(0, i as int), j) && j != fan[i as int].1 by {
                    if targets(fan.subrange(0, i as int), j) {
                        let k = choose|k: int| 0 <= k < i && (#[trigger] fan.subrange(0, i as int)[k]).1 == j;
                        assert(fan.subrange(0, i + 1)[k] == fan.subrange(0, i as int)[k]);
                    }
                    assert(fan.subrange(0, i + 1)[i as int] == fan[i as int]);
                }
            }
            i = i + 1;
        }
        assert(fan.subrange(0, vec.len() as int) == fan);
        assert(counters_chain(gs, fan));
    }

    /// The edges as pairs of node keys.
    pub open spec fn key_pairs(&self) -> Seq<(usize, usize)> {
        self.pairs().map_values(|p: (u32, u32)| (p.0 as usize, p.1 as usize))
    }

    /// No cycle runs along the edges.
    pub open spec fn acyclic(&self) -> bool {
        forall|c: Seq<usize>| !is_cycle_in(self.key_pairs(), c)
    }

    pub closed spec fn spec_sys_len(&self) -> u32 {
        self.sys_len
    }
}

/// Node `i` is the target of one of the pairs.
pub open spec fn targets(pairs: Seq<(u32, u32)>, i: int) -> bool {
    exists|k: int| 0 <= k < pairs.len() && (#[trigger] pairs[k]).1 == i
}

/// The nodes before `k` that have no inbound edge among `edges`, in order.
pub open spec fn sources(edges: Seq<(u32, u32)>, k: int) -> Seq<NodeIndex>
    decreases k,
{
    if k <= 0 {
        Seq::empty()
    } else if count_with(edges, edges.len() as int, (k - 1) as u32, Direction::From) == 0 {
        sources(edges, k - 1).push(NodeIndex((k - 1) as u32))
    } else {
        sources(edges, k - 1)
    }
}

/// An execution graph: the graph, its name, and the system nodes in an
/// order in which every edge runs forward.
pub struct ExecGraph(GraphInner, pub String, pub Vec<usize>);

impl ExecGraph {
    pub closed spec fn graph(&self) -> GraphInner {
        self.0
    }

    pub closed spec fn spec_name(&self) -> String {
        self.1
    }

    /// The system nodes in execution order.
    pub closed spec fn spec_order(&self) -> Seq<usize> {
        self.2@
    }

    pub fn new(name: String) -> (r: ExecGraph)
        ensures
            r.graph().wf(),
            r.graph().node_count() == 0,
            r.graph().pairs() == Seq::<(u32, u32)>::empty(),
            r.graph().spec_to_len() == 0,
            r.graph().spec_froms() == Seq::<NodeIndex>::empty(),
            r.spec_name() == name,
            r.spec_order() == Seq::<usize>::empty(),
    {
        ExecGraph(GraphInner::new(), name, Vec::new())
    }

    /// Appends a system node and counts it as a sink.
    pub fn add_system(&mut self, sys_index: usize, sys_name: String) -> (r: NodeIndex)
        requires
            old(self).graph().wf(),
            old(self).graph().node_count() + 2 < u32::MAX,
        ensures
            final(self).graph().wf(),
            r.0 == old(self).graph().node_count(),
            final(self).graph().node_count() == old(self).graph().node_count() + 1,
            final(self).graph().pairs() == old(self).graph().pairs(),
            final(self).graph().spec_to_len() == old(self).graph().spec_to_len() + 1,
            final(self).graph().label_at(r.0 as int) == NodeType::System(sys_index, sys_name),
            final(self).graph().from_count_at(r.0 as int) == 0,
            final(self).graph().status_at(r.0 as int) == NODE_STATUS_WAIT,
            forall|i: int|
                0 <= i < old(self).graph().node_count() ==> final(self).graph().label_at(i) == old(
                    self,
                ).graph().label_at(i) && final(self).graph().from_count_at(i) == old(self).graph().from_count_at(i)
                    && final(self).graph().status_at(i) == old(self).graph().status_at(i),
            final(self).graph().spec_froms() == old(self).graph().spec_froms(),
            final(self).spec_name() == old(self).spec_name(),
            final(self).spec_order() == old(self).spec_order(),
    {
        self.0.add_system(sys_index, sys_name)
    }

    /// Appends a node for a set of systems and counts it as a sink.
    pub fn add_set(&mut self, set_name: String) -> (r: NodeIndex)
        requires
            old(self).graph().wf(),
            old(self).graph().node_count() + 2 < u32::MAX,
        ensures
            final(self).graph().wf(),
            r.0 == old(self).graph().node_count(),
            final(self).graph().node_count() == old(self).graph().node_count() + 1,
            final(self).graph().pairs() == old(self).graph().pairs(),
            final(self).graph().spec_to_len() == old(self).graph().spec_to_len() + 1,
            final(self).graph().label_at(r.0 as int) == NodeType::SystemSet(set_name),
            final(self).graph().from_count_at(r.0 as int) == 0,
            final(self).graph().status_at(r.0 as int) == NODE_STATUS_WAIT,
            forall|i: int|
                0 <= i < old(self).graph().node_count() ==> final(self).graph().label_at(i) == old(
                    self,
                ).graph().label_at(i) && final(self).graph().from_count_at(i) == old(self).graph().from_count_at(i)
                    && final(self).graph().status_at(i) == old(self).graph().status_at(i),
            final(self).graph().spec_froms() == old(self).graph().spec_froms(),
            final(self).spec_name() == old(self).spec_name(),
            final(self).spec_order() == old(self).spec_order(),
    {
        self.0.add_set(set_name)
    }

    /// Links `from -> to` unless the edge exists.
    pub fn add_edge(&mut self, from: NodeIndex, to: NodeIndex)
        requires
            old(self).graph().wf(),
            from.0 < old(self).graph().node_count(),
            to.0 < old(self).graph().node_count(),
            old(self).graph().pairs().len() + 2 < u32::MAX,
        ensures
            final(self).graph().wf(),
            edge_linked(old(self).graph(), final(self).graph(), from, to),
            final(self).graph().node_count() == old(self).graph().node_count(),
            final(self).graph().pairs() == if old(self).graph().pairs().contains((from.0, to.0)) {
                old(self).graph().pairs()
            } else {
                old(self).graph().pairs().push((from.0, to.0))
            },
            forall|i: int|
                0 <= i < old(self).graph().node_count() ==> final(self).graph().label_at(i) == old(
                    self,
                ).graph().label_at(i),
            final(self).graph().spec_froms() == old(self).graph().spec_froms(),
            forall|i: int|
                0 <= i < old(self).graph().node_count() && i != to.0 ==> final(self).graph().from_count_at(i) == old(
                    self,
                ).graph().from_count_at(i) && final(self).graph().status_at(i) == old(self).graph().status_at(i),
            old(self).graph().pairs().contains((from.0, to.0)) ==> final(self).graph().from_count_at(to.0 as int) == old(
                self,
            ).graph().from_count_at(to.0 as int) && final(self).graph().status_at(to.0 as int) == old(
                self,
            ).graph().status_at(to.0 as int),
            !old(self).graph().pairs().contains((from.0, to.0)) ==> {
                let c0 = old(self).graph().from_count_at(to.0 as int);
                let waiting = old(self).graph().status_at(from.0 as int) < NODE_STATUS_RUN_END;
                let was = if waiting { c0 } else { 1u32 };
                &&& final(self).graph().from_count_at(to.0 as int) == if waiting { c0.wrapping_add(1) } else { c0 }
                &&& final(self).graph().status_at(to.0 as int) == if was == 0 {
                    old(self).graph().status_at(to.0 as int).wrapping_add(2)
                } else {
                    old(self).graph().status_at(to.0 as int)
                }
            },
            final(self).spec_name() == old(self).spec_name(),
            final(self).spec_order() == old(self).spec_order(),
    {
        self.0.add_edge(from, to)
    }

    /// The neighbours of `node_index` in direction `d`, newest edge first.
    pub fn neighbors(&self, node_index: NodeIndex, d: Direction) -> (r: NeighborIter<'_>)
        requires
            self.graph().wf(),
        ensures
            r.iter_wf(),
            r.remaining() == nbrs(self.graph().pairs(), self.graph().pairs().len() as int, node_index.0, d),
    {
        self.0.neighbors(node_index, d)
    }

    /// The entry nodes: those that had no inbound edge when the graph was
    /// initialized.
    pub fn froms(&self) -> (r: &Vec<NodeIndex>)
        ensures
            r@ == self.graph().spec_froms(),
    {
        &self.0.froms
    }

    /// The number of nodes without outbound edges.
    pub fn to_len(&self) -> (r: u32)
        ensures
            r == self.graph().spec_to_len(),
    {
        self.0.to_len
    }

    /// The number of nodes.
    pub fn node_len(&self) -> (r: usize)
        ensures
            r == self.graph().node_count(),
    {
        self.0.node_len()
    }

    /// The number of edges.
    pub fn edge_len(&self) -> (r: usize)
        ensures
            r == self.graph().pairs().len(),
    {
        self.0.edge_len()
    }

    /// The label of node `i`.
    pub fn label(&self, i: usize) -> (r: &NodeType)
        requires
            i < self.graph().node_count(),
        ensures
            *r == self.graph().label_at(i as int),
    {
        self.0.label(i)
    }

    /// The source and target of edge `i`.
    pub fn edge_nodes(&self, i: usize) -> (r: (NodeIndex, NodeIndex))
        requires
            i < self.graph().pairs().len(),
        ensures
            (r.0.0, r.1.0) == self.graph().pairs()[i as int],
    {
        self.0.edge_nodes(i)
    }

    /// Orders every node of the graph so that every edge runs forward: `Ok`
    /// with the order when the graph has no cycle, otherwise `Err` with a
    /// cycle of it.
    #[verifier::rlimit(40)]
    pub fn try_check(&self) -> (r: Result<Vec<usize>, Vec<usize>>)
        requires
            self.graph().wf(),
        ensures
            r is Ok <==> self.graph().acyclic(),
            r is Ok ==> is_topo_order_in(self.graph().node_count(), self.graph().key_pairs(), r->Ok_0@),
            r is Err ==> is_cycle_in(self.graph().key_pairs(), r->Err_0@) && r->Err_0@.no_duplicates(),
    {
        let graph = &self.0;
        let ghost kp = graph.key_pairs();
        let mut ngraph = NGraph::new();
        let n = graph.nodes.len();
        let mut i: usize = 0;
        while i < n
            invariant
                graph.wf(),
                n == graph.nodes.len(),
                0 <= i <= n,
                ngraph.wf(),
                forall|j: int| ngraph.present(j) <==> 0 <= j < i,
                ngraph.edge_seq() == Seq::<(usize, usize)>::empty(),
                ngraph.bound() == i,
            decreases n - i,
        {
            ngraph.add_node(i);
            i = i + 1;
        }
        let m = graph.edges.len();
        let mut e: usize = 0;
        while e < m
            invariant
                graph.wf(),
                kp == graph.key_pairs(),
                n == graph.nodes.len(),
                m == graph.edges.len(),
                0 <= e <= m,
                ngraph.wf(),
                forall|j: int| ngraph.present(j) <==> 0 <= j < n,
                ngraph.edge_seq() == kp.subrange(0, e as int),
            decreases m - e,
        {
            let (from, _) = graph.edges[e].load(Direction::From);
            let (to, _) = graph.edges[e].load(Direction::To);
            proof {
                assert(kp[e as int] == (from.0 as usize, to.0 as usize));
                if ngraph.edge_seq().contains((from.0 as usize, to.0 as usize)) {
                    let k = choose|k: int| 0 <= k < e && #[trigger] kp.subrange(0, e as int)[k] == (
                    from.0 as usize, to.0 as usize);
                    assert(kp[k] == kp[e as int]);
                    assert(graph.pairs()[k] == graph.pairs()[e as int]);
                }
                assert(kp.subrange(0, e + 1) == kp.subrange(0, e as int).push((from.0 as usize, to.0 as usize)));
            }
            ngraph.add_edge(from.index(), to.index());
            e = e + 1;
        }
        assert(kp.subrange(0, m as int) == kp);
        match ngraph.build() {
            Ok(r) => {
                proof {
                    assert forall|k: usize| k < n implies r@.contains(k) by {
                        assert(ngraph.present(k as int));
                    }
                    assert forall|i: int| 0 <= i < r@.len() implies #[trigger] r@[i] < n by {
                        assert(ngraph.present(r@[i] as int));
                    }
                    assert forall|c: Seq<usize>| !is_cycle_in(kp, c) by {
                        assert(!ngraph.is_cycle(c));
                    }
                }
                Ok(r)
            },
            Err(c) => {
                proof {
                    let w = choose|w: Seq<usize>| ngraph.is_cycle(w);
                    assert(is_cycle_in(kp, w));
                    assert(ngraph.edge_seq() == kp);
                    assert(is_cycle_in(kp, c@));
                }
                Err(c)
            },
        }
    }

    /// Orders every node of the graph so that every edge runs forward. The
    /// graph must have no cycle.
    pub fn check(&self) -> (r: Vec<usize>)
        requires
            self.graph().wf(),
            self.graph().acyclic(),
        ensures
            is_topo_order_in(self.graph().node_count(), self.graph().key_pairs(), r@),
    {
        match self.try_check() {
            Ok(r) => r,
            Err(c) => c,
        }
    }
}

impl ExecGraph {
    /// Starts the run of node `index`; see `GraphInner::exec_begin`.
    pub fn exec_begin(&mut self, index: NodeIndex) -> (r: Option<(usize, bool)>)
        requires
            old(self).graph().wf(),
            index.0 < old(self).graph().node_count(),
        ensures
            final(self).graph().wf(),
            final(self).graph().pairs() == old(self).graph().pairs(),
            final(self).graph().node_count() == old(self).graph().node_count(),
            final(self).graph().spec_froms() == old(self).graph().spec_froms(),
            forall|i: int|
                0 <= i < old(self).graph().node_count() ==> final(self).graph().label_at(i) == old(self).graph().label_at(i)
                    && final(self).graph().from_count_at(i) == old(self).graph().from_count_at(i),
            forall|i: int|
                0 <= i < old(self).graph().node_count() && i != index.0 ==> final(self).graph().status_at(i) == old(
                    self,
                ).graph().status_at(i),
            final(self).graph().status_at(index.0 as int) == old(self).graph().status_at(index.0 as int).wrapping_add(
                NODE_STATUS_STEP,
            ).wrapping_add(NODE_STATUS_STEP),
            match old(self).graph().label_at(index.0 as int) {
                NodeType::System(sys_index, _) => r == Some(
                    (sys_index, old(self).graph().status_at(index.0 as int) & NODE_STATUS_ALIGN_MASK == 0),
                ),
                _ => r is None,
            },
            final(self).spec_name() == old(self).spec_name(),
            final(self).spec_order() == old(self).spec_order(),
    {
        self.0.exec_begin(index)
    }

    /// Ends the run of node `index` and releases its successors; see
    /// `GraphInner::exec_end`.
    pub fn exec_end(&mut self, index: NodeIndex) -> (r: (Vec<NodeIndex>, bool))
        requires
            old(self).graph().wf(),
            index.0 < old(self).graph().node_count(),
        ensures
            final(self).graph().wf(),
            run_ended(old(self).graph(), final(self).graph(), index, r.0@),
            final(self).graph().pairs() == old(self).graph().pairs(),
            final(self).graph().node_count() == old(self).graph().node_count(),
            final(self).graph().spec_froms() == old(self).graph().spec_froms(),
            forall|i: int|
                0 <= i < old(self).graph().node_count() ==> final(self).graph().label_at(i) == old(self).graph().label_at(i),
            final(self).graph().status_at(index.0 as int) == old(self).graph().status_at(index.0 as int).wrapping_add(
                NODE_STATUS_STEP,
            ).wrapping_add(NODE_STATUS_STEP),
            forall|i: int|
                0 <= i < old(self).graph().node_count() && i != index.0 ==> final(self).graph().status_at(i) == old(
                    self,
                ).graph().status_at(i),
            ({
                let g0 = old(self).graph();
                let g1 = final(self).graph();
                let succ = nbrs(g0.pairs(), g0.pairs().len() as int, index.0, Direction::To);
                &&& forall|i: int|
                    0 <= i < g0.node_count() ==> #[trigger] g1.from_count_at(i) == if succ.contains(i as u32) {
                        g0.from_count_at(i).wrapping_sub(1)
                    } else {
                        g0.from_count_at(i)
                    }
                &&& r.0@.map_values(|n: NodeIndex| n.0) == succ.filter(|y: u32| g0.from_count_at(y as int) == 1)
                &&& succ.len() == 0 ==> r.1 == (g0.spec_to_count() == 1) && g1.spec_to_count() == g0.spec_to_count().wrapping_sub(1)
                &&& succ.len() > 0 ==> !r.1 && g1.spec_to_count() == g0.spec_to_count()
            }),
            final(self).spec_name() == old(self).spec_name(),
            final(self).spec_order() == old(self).spec_order(),
    {
        self.0.exec_end(index)
    }

    /// The systems to run, in order: the system index of each system node of
    /// the execution order.
    pub fn run_order(&self) -> (r: Vec<usize>)
        requires
            self.graph().wf(),
            forall|k: int| 0 <= k < self.spec_order().len() ==> (#[trigger] self.spec_order()[k]) < self.graph().node_count(),
        ensures
            r@ == run_list(self.graph(), self.spec_order()),
    {
        let mut r: Vec<usize> = Vec::new();
        let mut k: usize = 0;
        while k < self.2.len()
            invariant
                0 <= k <= self.2@.len(),
                forall|m: int| 0 <= m < self.spec_order().len() ==> (#[trigger] self.spec_order()[m]) < self.graph().node_count(),
                r@ == run_list(self.0, self.2@.subrange(0, k as int)),
            decreases self.2@.len() - k,
        {
            let i = self.2[k];
            proof {
                assert(self.2@.subrange(0, k + 1).drop_last() == self.2@.subrange(0, k as int));
                assert(self.spec_order()[k as int] == i);
            }
            match &self.0.nodes[i].label {
                NodeType::System(sys_index, _) => {
                    r.push(*sys_index);
                },
                _ => {},
            }
            k = k + 1;
        }
        proof {
            assert(self.2@.subrange(0, self.2@.len() as int) == self.2@);
        }
        r
    }

    /// The node of a resource, keyed by the resource's type id and labelled
    /// with its name; it is added when the graph does not have it. The flag
    /// tells whether the node is new. No system is linked to it here: systems
    /// report no dependence on resources.
    pub fn add_res_node(&mut self, id: u128, name: String) -> (r: (NodeIndex, bool))
        requires
            old(self).graph().wf(),
            old(self).graph().node_count() + 2 < u32::MAX,
        ensures
            final(self).graph().wf(),
            final(self).graph().pairs() == old(self).graph().pairs(),
            final(self).graph().spec_froms() == old(self).graph().spec_froms(),
            old(self).graph().key_node((id, 0)) is Some ==> r == (old(self).graph().key_node((id, 0))->0, false)
                && final(self).graph().node_count() == old(self).graph().node_count()
                && final(self).graph().spec_to_len() == old(self).graph().spec_to_len(),
            old(self).graph().key_node((id, 0)) is None ==> r == (NodeIndex(old(self).graph().node_count() as u32), true)
                && final(self).graph().node_count() == old(self).graph().node_count() + 1
                && final(self).graph().spec_to_len() == old(self).graph().spec_to_len() + 1
                && final(self).graph().label_at(r.0.0 as int) == NodeType::Res(name)
                && final(self).graph().from_count_at(r.0.0 as int) == 1,
            final(self).graph().key_node((id, 0)) == Some(r.0),
            forall|k: (u128, u32)| k != (id, 0u32) ==> final(self).graph().key_node(k) == old(self).graph().key_node(k),
            forall|i: int|
                0 <= i < old(self).graph().node_count() ==> final(self).graph().label_at(i) == old(self).graph().label_at(i)
                    && final(self).graph().from_count_at(i) == old(self).graph().from_count_at(i),
            final(self).spec_name() == old(self).spec_name(),
            final(self).spec_order() == old(self).spec_order(),
    {
        self.0.find_node((id, 0), NodeType::Res(name))
    }

    /// Adds the nodes of an archetype: one per column, keyed by the archetype
    /// id and the column's component and labelled with the component's name
    /// from `infos`, unless the graph has it already. Each column node then
    /// loses one pending inbound edge; a node whose count reaches zero (one
    /// that only the archetype's creation held back) becomes an entry node.
    /// No system is linked to these nodes here: systems report no dependence
    /// on an archetype.
    pub fn add_archetype_node(&mut self, archetype: &Archetype, infos: &Vec<ComponentInfo>)
        requires
            old(self).graph().wf(),
            archetype.wf(),
            forall|k: int| 0 <= k < archetype.column_keys().len() ==> (#[trigger] archetype.column_keys()[k]) < infos@.len(),
            old(self).graph().node_count() + archetype.column_keys().len() + 2 < u32::MAX,
        ensures
            archetype_nodes_added(old(self).graph(), final(self).graph(), *archetype, infos@),
            final(self).spec_name() == old(self).spec_name(),
            final(self).spec_order() == old(self).spec_order(),
    {
        let ghost g0 = self.0;
        let aid = archetype.id() as u128;
        let cols = archetype.get_columns();
        let ghost keys = archetype.column_keys();
        let ghost isnew = |x: u32| g0.key_node((aid, x)) is None;
        let mut nodes: Vec<NodeIndex> = Vec::new();
        let mut k: usize = 0;
        while k < cols.len()
            invariant
                self.0.wf(),
                g0.wf(),
                self.1 == old(self).1,
                self.2 == old(self).2,
                keys == archetype.column_keys(),
                keys =~= crate::archetype::keys(cols@),
                strictly_sorted(keys),
                forall|m: int| 0 <= m < keys.len() ==> (#[trigger] keys[m]) < infos@.len(),
                g0.node_count() + keys.len() + 2 < u32::MAX,
                isnew == (|x: u32| g0.key_node((aid, x)) is None),
                0 <= k <= keys.len(),
                nodes@.len() == k,
                self.0.pairs() == g0.pairs(),
                self.0.spec_froms() == g0.spec_froms(),
                self.0.node_count() == g0.node_count() + keys.subrange(0, k as int).filter(isnew).len(),
                self.0.spec_to_len() == g0.spec_to_len() + keys.subrange(0, k as int).filter(isnew).len(),
                forall|m: int| 0 <= m < k ==> (#[trigger] self.0.key_node((aid, keys[m]))) == Some(nodes@[m]),
                forall|m: int| 0 <= m < k ==> (#[trigger] nodes@[m]).0 < self.0.node_count(),
                forall|m: int| 0 <= m < k && !isnew(keys[m]) ==> self.0.key_node((aid, keys[m])) == g0.key_node((aid, keys[m])),
                forall|m: int| 0 <= m < k && isnew(keys[m]) ==> (#[trigger] nodes@[m]).0 >= g0.node_count()
                    && self.0.label_at(nodes@[m].0 as int) == NodeType::ArchetypeComponent(aid, infos@[keys[m] as int].name),
                forall|id: (u128, u32)| !(id.0 == aid && keys.subrange(0, k as int).contains(id.1)) ==> self.0.key_node(id) == g0.key_node(id),
                forall|i: int| 0 <= i < g0.node_count() ==> self.0.label_at(i) == g0.label_at(i) && self.0.from_count_at(i) == g0.from_count_at(i)
                    && self.0.status_at(i) == g0.status_at(i),
                forall|i: int| g0.node_count() <= i < self.0.node_count() ==> #[trigger] self.0.from_count_at(i) == 1,
                forall|i: int| g0.node_count() <= i < self.0.node_count() ==> #[trigger] self.0.status_at(i) == NODE_STATUS_WAIT,
                forall|i: int|
                    g0.node_count() <= i < self.0.node_count() ==> #[trigger] nodes@.contains(NodeIndex(i as u32)),
            decreases keys.len() - k,
        {
            let c = cols[k];
            let ghost sub = keys.subrange(0, k as int);
            proof {
                assert(keys[k as int] == c.0);
                sub.lemma_filter_len(isnew);
                assert(!sub.contains(c.0)) by {
                    if sub.contains(c.0) {
                        let m = choose|m: int| 0 <= m < sub.len() && sub[m] == c.0;
                        assert(keys[m] < keys[k as int]);
                    }
                }
                assert(keys.subrange(0, k + 1) == sub.push(c.0));
                sub.lemma_filter_push(c.0, isnew);
            }
            let name = infos[c.index()].name.clone();
            let ghost before = self.0;
            let ghost nodes0 = nodes@;
            let r = self.0.find_node((aid, c.0), NodeType::ArchetypeComponent(aid, name));
            nodes.push(r.0);
            proof {
                assert(before.key_node((aid, c.0)) == g0.key_node((aid, c.0)));
                assert forall|m: int| 0 <= m < k + 1 implies (#[trigger] self.0.key_node((aid, keys[m]))) == Some(nodes@[m]) by {
                    if m < k {
                        assert(nodes@[m] == nodes0[m]);
                        assert(keys[m] != c.0) by {
                            assert(keys[m] < keys[k as int]);
                        }
                    }
                }
                assert forall|m: int| 0 <= m < k + 1 && isnew(keys[m]) implies (#[trigger] nodes@[m]).0 >= g0.node_count()
                    && self.0.label_at(nodes@[m].0 as int) == NodeType::ArchetypeComponent(aid, infos@[keys[m] as int].name) by {
                    if m < k {
                        assert(nodes@[m] == nodes0[m]);
                    }
                }
                assert forall|id: (u128, u32)| !(id.0 == aid && keys.subrange(0, k + 1).contains(id.1)) implies self.0.key_node(id)
                    == g0.key_node(id) by {
                    assert(keys.subrange(0, k + 1)[k as int] == c.0);
                    if !(id.0 == aid && sub.contains(id.1)) {
                        assert(id != (aid, c.0));
                        assert(before.key_node(id) == g0.key_node(id));
                    } else {
                        let m = choose|m: int| 0 <= m < sub.len() && sub[m] == id.1;
                        assert(keys.subrange(0, k + 1)[m] == id.1);
                    }
                }
                assert forall|i: int|
                    g0.node_count() <= i < self.0.node_count() implies #[trigger] nodes@.contains(NodeIndex(i as u32)) by {
                    if i < before.node_count() {
                        assert(nodes0.contains(NodeIndex(i as u32)));
                        let m = choose|m: int| 0 <= m < nodes0.len() && nodes0[m] == NodeIndex(i as u32);
                        assert(nodes@[m] == nodes0[m]);
                    } else {
                        assert(nodes@[k as int] == NodeIndex(i as u32));
                    }
                }
            }
            k = k + 1;
        }
        proof {
            assert(keys.subrange(0, keys.len() as int) == keys);
            assert(nodes@.no_duplicates()) by {
                assert forall|i: int, j: int| 0 <= i < j < nodes@.len() implies nodes@[i] != nodes@[j] by {
                    assert(keys[i] < keys[j]);
                    self.0.lemma_key_node_injective((aid, keys[i]), (aid, keys[j]));
                }
            }
        }
        let ghost mid = self.0;
        self.0.release_nodes(&nodes);
        proof {
            let g1 = self.0;
            let cols_s = keys.map_values(|x: u32| g1.key_node((aid, x))->0);
            assert(cols_s =~= nodes@) by {
                assert forall|m: int| 0 <= m < keys.len() implies cols_s[m] == nodes@[m] by {
                    assert(mid.key_node((aid, keys[m])) == Some(nodes@[m]));
                    assert(g1.key_node((aid, keys[m])) == mid.key_node((aid, keys[m])));
                }
            }
            let pre = |n: NodeIndex| (if n.0 < g0.node_count() { g0.from_count_at(n.0 as int) } else { 1u32 }) == 1;
            let cur = |n: NodeIndex| mid.from_count_at(n.0 as int) == 1;
            assert forall|m: int| 0 <= m < nodes@.len() implies pre(nodes@[m]) == cur(nodes@[m]) by {
                if nodes@[m].0 >= g0.node_count() {
                    assert(mid.from_count_at(nodes@[m].0 as int) == 1);
                }
            }
            lemma_filter_agree(nodes@, pre, cur);
            assert forall|i: int| 0 <= i < g1.node_count() implies #[trigger] g1.from_count_at(i) == if cols_s.contains(
                NodeIndex(i as u32)) {
                (if i < g0.node_count() { g0.from_count_at(i) } else { 1u32 }).wrapping_sub(1)
            } else {
                g0.from_count_at(i)
            } by {
                if i >= g0.node_count() {
                    assert(mid.from_count_at(i) == 1);
                    assert(nodes@.contains(NodeIndex(i as u32)));
                }
            }
        }
    }

    /// The number of systems set up so far.
    pub fn sys_len(&self) -> (r: usize)
        ensures
            r == self.graph().spec_sys_len(),
    {
        self.0.sys_len as usize
    }

    /// Records the number of systems, keeps the system nodes of an order in
    /// which every edge runs forward, and appends the nodes without inbound
    /// edges to the entry nodes. The graph must have no cycle. Returns the
    /// range of the systems added since the last call, which the caller
    /// initializes once each, in order.
    pub fn initialize(&mut self, sys_len: usize) -> (r: std::ops::Range<usize>)
        requires
            old(self).graph().wf(),
            old(self).graph().acyclic(),
        ensures
            r.start == old(self).graph().spec_sys_len(),
            r.end == sys_len,
            final(self).graph().wf(),
            final(self).graph().spec_sys_len() == sys_len as u32,
            final(self).graph().node_count() == old(self).graph().node_count(),
            final(self).graph().pairs() == old(self).graph().pairs(),
            final(self).graph().spec_to_len() == old(self).graph().spec_to_len(),
            forall|i: int|
                0 <= i < old(self).graph().node_count() ==> final(self).graph().label_at(i) == old(
                    self,
                ).graph().label_at(i),
            final(self).graph().spec_froms() == old(self).graph().spec_froms() + sources(
                old(self).graph().pairs(),
                old(self).graph().node_count() as int,
            ),
            exists|t: Seq<usize>|
                is_topo_order_in(old(self).graph().node_count(), old(self).graph().key_pairs(), t)
                    && final(self).spec_order() == t.filter(
                    |k: usize| old(self).graph().label_at(k as int) is System,
                ),
            final(self).spec_name() == old(self).spec_name(),
    {
        let order = self.check();
        let sort = self.system_nodes(&order);
        proof {
            assert(is_topo_order_in(self.graph().node_count(), self.graph().key_pairs(), order@));
        }
        let old_len = self.0.sys_len as usize;
        self.2 = sort;
        self.0.sys_len = sys_len as u32;
        self.0.push_sources();
        old_len..sys_len
    }

    /// The system nodes of `order`, in the same order.
    fn system_nodes(&self, order: &Vec<usize>) -> (r: Vec<usize>)
        requires
            self.graph().wf(),
            forall|i: int| 0 <= i < order.len() ==> #[trigger] order[i] < self.graph().node_count(),
        ensures
            r@ == order@.filter(|k: usize| self.graph().label_at(k as int) is System),
    {
        let ghost t = order@;
        let ghost g = self.0;
        let ghost is_sys = |k: usize| g.label_at(k as int) is System;
        let mut sort: Vec<usize> = Vec::new();
        let mut i: usize = 0;
        while i < order.len()
            invariant
                self.0 == g,
                g.wf(),
                t == order@,
                forall|x: int| 0 <= x < t.len() ==> #[trigger] t[x] < g.node_count(),
                0 <= i <= t.len(),
                is_sys == (|k: usize| g.label_at(k as int) is System),
                sort@ == t.subrange(0, i as int).filter(is_sys),
            decreases t.len() - i,
        {
            let k = order[i];
            proof {
                assert(t.subrange(0, i + 1) == t.subrange(0, i as int).push(k));
                t.subrange(0, i as int).lemma_filter_push(k, is_sys);
                assert(k < g.node_count());
            }
            if self.0.nodes[k].is_system() {
                sort.push(k);
            }
            i = i + 1;
        }
        assert(t.subrange(0, t.len() as int) == t);
        sort
    }
}

impl GraphInner {
    /// Appends the nodes without inbound edges, in order, to the entry
    /// nodes, and checks the number of sinks on the way.
    fn push_sources(&mut self)
        requires
            old(self).wf(),
        ensures
            final(self).wf(),
            final(self).nodes == old(self).nodes,
            final(self).edges == old(self).edges,
            final(self).map == old(self).map,
            final(self).to_len == old(self).to_len,
            final(self).sys_len == old(self).sys_len,
            final(self).froms@ == old(self).froms@ + sources(old(self).pairs(), old(self).nodes.len() as int),
    {
        let ghost froms0 = self.froms@;
        let ghost pairs = self.pairs();
        let n = self.nodes.len();
        let mut to_len: u32 = 0;
        let mut j: usize = 0;
        while j < n
            invariant
                self.nodes == old(self).nodes,
                self.edges == old(self).edges,
                self.map == old(self).map,
                self.to_len == old(self).to_len,
                self.sys_len == old(self).sys_len,
                old(self).wf(),
                froms0 == old(self).froms@,
                pairs == old(self).pairs(),
                n == self.nodes.len(),
                0 <= j <= n,
                self.froms@ == froms0 + sources(pairs, j as int),
                to_len == sink_count(self.nodes@, j as int),
                to_len <= j,
            decreases n - j,
        {
            let (from_len, _) = self.nodes[j].edge(Direction::From);
            if from_len == 0 {
                self.froms.push(NodeIndex::new(j));
            }
            let (out_len, _) = self.nodes[j].edge(Direction::To);
            if out_len == 0 {
                to_len = to_len + 1;
            }
            proof {
                assert(node_len(self.nodes[j as int], Direction::From) == count_with(
                    pairs, pairs.len() as int, j as u32, Direction::From));
                assert(self.froms@ == froms0 + sources(pairs, j + 1));
            }
            j = j + 1;
        }
        proof {
            assert(to_len == self.to_len);
            assert(self.pairs() == pairs);
            assert forall|x: int| 0 <= x < self.froms.len() implies (#[trigger] self.froms[x]).0 < self.nodes.len() by {
                if x >= froms0.len() {
                    lemma_sources_bound(pairs, n as int, x - froms0.len());
                    assert(self.froms[x] == sources(pairs, n as int)[x - froms0.len()]);
                } else {
                    assert(self.froms[x] == old(self).froms[x]);
                }
            }
        }
    }
}

proof fn lemma_sources_bound(edges: Seq<(u32, u32)>, k: int, x: int)
    requires
        0 <= k,
        0 <= x < sources(edges, k).len(),
    ensures
        sources(edges, k)[x].0 < k,
    decreases k,
{
    if k > 0 {
        if x < sources(edges, k - 1).len() {
            lemma_sources_bound(edges, k - 1, x);
        }
    }
}

/// A node's neighbours in one direction are distinct when no edge is
/// repeated.
pub proof fn lemma_nbrs_distinct(edges: Seq<(u32, u32)>, upto: int, x: u32, d: Direction)
    requires
        0 <= upto <= edges.len(),
        forall|i: int, j: int| 0 <= i < j < edges.len() ==> edges[i] != edges[j],
    ensures
        nbrs(edges, upto, x, d).no_duplicates(),
    decreases upto,
{
    if upto > 0 {
        lemma_nbrs_distinct(edges, upto - 1, x, d);
        let e = upto - 1;
        if p_owner(edges[e], d) == x {
            let t = nbrs(edges, upto - 1, x, d);
            let y = p_nbr(edges[e], d);
            lemma_nbrs_contains(edges, upto - 1, x, d, y);
            if t.contains(y) {
                let k = choose|k: int| 0 <= k < upto - 1 && p_owner(#[trigger] edges[k], d) == x && p_nbr(edges[k], d) == y;
                match d {
                    Direction::From => {
                        assert(edges[k] == edges[e]);
                    },
                    Direction::To => {
                        assert(edges[k] == edges[e]);
                    },
                }
            }
            let s = nbrs(edges, upto, x, d);
            assert(s == seq![y] + t);
            assert forall|a: int, b: int| 0 <= a < s.len() && 0 <= b < s.len() && a != b implies s[a] != s[b] by {
                if a == 0 {
                    assert(s[b] == t[b - 1]);
                    assert(t.contains(t[b - 1]));
                } else if b == 0 {
                    assert(s[a] == t[a - 1]);
                    assert(t.contains(t[a - 1]));
                } else {
                    assert(s[a] == t[a - 1] && s[b] == t[b - 1]);
                }
            }
        }
    }
}

impl GraphInner {
    pub closed spec fn status_at(&self, i: int) -> u32 {
        self.nodes[i].status
    }

    pub closed spec fn spec_to_count(&self) -> u32 {
        self.to_count
    }

    /// The successors of `node_index`, newest edge first.
    pub fn successors(&self, node_index: NodeIndex) -> (r: Vec<NodeIndex>)
        requires
            self.wf(),
        ensures
            r@.map_values(|n: NodeIndex| n.0) == nbrs(self.pairs(), self.pairs().len() as int, node_index.0, Direction::To),
    {
        let mut it = self.neighbors(node_index, Direction::To);
        let ghost all = it.remaining();
        let mut r: Vec<NodeIndex> = Vec::new();
        loop
            invariant
                it.iter_wf(),
                it.graph() == self,
                all == nbrs(self.pairs(), self.pairs().len() as int, node_index.0, Direction::To),
                r@.map_values(|n: NodeIndex| n.0) + it.remaining() == all,
            decreases it.remaining().len(),
        {
            let ghost before = it.remaining();
            match it.next() {
                None => {
                    assert(r@.map_values(|n: NodeIndex| n.0) + it.remaining() == r@.map_values(|n: NodeIndex| n.0));
                    return r;
                },
                Some(n) => {
                    let ghost r0 = r@;
                    r.push(n);
                    proof {
                        assert(r@.map_values(|n: NodeIndex| n.0) =~= r0.map_values(|n: NodeIndex| n.0).push(n.0));
                        assert(before == seq![n.0] + it.remaining());
                        assert(r@.map_values(|n: NodeIndex| n.0) + it.remaining() =~= r0.map_values(|n: NodeIndex| n.0)
                            + before);
                    }
                },
            }
        }
    }

    /// Counts one finished sink of the run: true when it was the last one
    /// the run waited for.
    pub fn run_over(&mut self) -> (r: bool)
        requires
            old(self).wf(),
        ensures
            r == (old(self).spec_to_count() == 1),
            final(self).spec_to_count() == old(self).spec_to_count().wrapping_sub(1),
            final(self).wf(),
            final(self).pairs() == old(self).pairs(),
            final(self).node_count() == old(self).node_count(),
            forall|i: int| 0 <= i < old(self).node_count() ==> final(self).label_at(i) == old(self).label_at(i)
                && final(self).from_count_at(i) == old(self).from_count_at(i) && final(self).status_at(i) == old(
                self,
            ).status_at(i),
            final(self).spec_froms() == old(self).spec_froms(),
            final(self).spec_to_len() == old(self).spec_to_len(),
    {
        let r = self.to_count;
        self.to_count = r.wrapping_sub(1);
        proof {
            assert(self.pairs() =~= old(self).pairs());
        }
        r == 1
    }
}

impl GraphInner {
    /// Starts the run of node `index`: its status passes through started to
    /// running. For a system node, returns the system's index and whether
    /// its archetypes are to be aligned before it runs (no alignment bit was
    /// set in its status); any other node has nothing to run, and its run
    /// ends at once.
    pub fn exec_begin(&mut self, index: NodeIndex) -> (r: Option<(usize, bool)>)
        requires
            old(self).wf(),
            index.0 < old(self).node_count(),
        ensures
            final(self).wf(),
            final(self).pairs() == old(self).pairs(),
            final(self).node_count() == old(self).node_count(),
            final(self).spec_froms() == old(self).spec_froms(),
            final(self).spec_to_len() == old(self).spec_to_len(),
            final(self).spec_to_count() == old(self).spec_to_count(),
            forall|id: (u128, u32)| final(self).key_node(id) == old(self).key_node(id),
            forall|i: int|
                0 <= i < old(self).node_count() ==> final(self).label_at(i) == old(self).label_at(i)
                    && final(self).from_count_at(i) == old(self).from_count_at(i),
            forall|i: int|
                0 <= i < old(self).node_count() && i != index.0 ==> final(self).status_at(i) == old(self).status_at(i),
            final(self).status_at(index.0 as int) == old(self).status_at(index.0 as int).wrapping_add(
                NODE_STATUS_STEP,
            ).wrapping_add(NODE_STATUS_STEP),
            match old(self).label_at(index.0 as int) {
                NodeType::System(sys_index, _) => r == Some(
                    (sys_index, old(self).status_at(index.0 as int) & NODE_STATUS_ALIGN_MASK == 0),
                ),
                _ => r is None,
            },
    {
        let i = index.index();
        let s0 = self.nodes[i].status;
        let ghost before = *self;
        self.set_status(i, s0.wrapping_add(NODE_STATUS_STEP));
        let s1 = self.nodes[i].status;
        self.set_status(i, s1.wrapping_add(NODE_STATUS_STEP));
        proof {
            assert forall|j: int| 0 <= j < self.nodes@.len() implies #[trigger] self.nodes@[j].edges == before.nodes@[j].edges by {
                if j != i {
                    assert(self.nodes@[j] == before.nodes@[j]);
                }
            }
            self.lemma_same_lists(before);
            assert forall|id: (u128, u32)| self.key_node(id) == old(self).key_node(id) by {
                assert(self.map@ == old(self).map@);
            }
        }
        match &self.nodes[i].label {
            NodeType::System(sys_index, _) => Some((*sys_index, s0 & NODE_STATUS_ALIGN_MASK == 0)),
            _ => None,
        }
    }
}

impl GraphInner {
    /// Ends the run of node `index` and releases its successors: each
    /// successor's count of pending inbound edges goes down by one, and
    /// those that reach zero are ready to run, in neighbour order. A node
    /// without successors counts as a finished sink of the run. The node's
    /// status passes from running to over. Returns the ready successors and
    /// whether the whole run is over.
    pub fn exec_end(&mut self, index: NodeIndex) -> (r: (Vec<NodeIndex>, bool))
        requires
            old(self).wf(),
            index.0 < old(self).node_count(),
        ensures
            final(self).wf(),
            run_ended(*old(self), *final(self), index, r.0@),
            final(self).pairs() == old(self).pairs(),
            final(self).node_count() == old(self).node_count(),
            final(self).spec_froms() == old(self).spec_froms(),
            final(self).spec_to_len() == old(self).spec_to_len(),
            forall|i: int| 0 <= i < old(self).node_count() ==> final(self).label_at(i) == old(self).label_at(i),
            final(self).status_at(index.0 as int) == old(self).status_at(index.0 as int).wrapping_add(
                NODE_STATUS_STEP,
            ).wrapping_add(NODE_STATUS_STEP),
            forall|i: int|
                0 <= i < old(self).node_count() && i != index.0 ==> final(self).status_at(i) == old(self).status_at(i),
            ({
                let succ = nbrs(old(self).pairs(), old(self).pairs().len() as int, index.0, Direction::To);
                &&& forall|i: int|
                    0 <= i < old(self).node_count() ==> #[trigger] final(self).from_count_at(i) == if succ.contains(
                        i as u32,
                    ) {
                        old(self).from_count_at(i).wrapping_sub(1)
                    } else {
                        old(self).from_count_at(i)
                    }
                &&& r.0@.map_values(|n: NodeIndex| n.0) == succ.filter(|y: u32| old(self).from_count_at(y as int) == 1)
                &&& succ.len() == 0 ==> r.1 == (old(self).spec_to_count() == 1) && final(self).spec_to_count() == old(
                    self,
                ).spec_to_count().wrapping_sub(1)
                &&& succ.len() > 0 ==> !r.1 && final(self).spec_to_count() == old(self).spec_to_count()
            }),
    {
        let ghost pairs = self.pairs();
        let ghost succ = nbrs(pairs, pairs.len() as int, index.0, Direction::To);
        let ghost fc = |y: u32| old(self).from_count_at(y as int) == 1;
        let i = index.index();
        let s1 = self.nodes[i].status.wrapping_add(NODE_STATUS_STEP);
        self.set_status(i, s1);
        proof {
            self.lemma_same_lists(*old(self));
        }
        let succv = self.successors(index);
        proof {
            lemma_nbrs_distinct(pairs, pairs.len() as int, index.0, Direction::To);
            assert forall|k: int| 0 <= k < succ.len() implies succ[k] < self.nodes@.len() by {
                lemma_nbrs_contains(pairs, pairs.len() as int, index.0, Direction::To, succ[k]);
                let e = choose|e: int| 0 <= e < pairs.len() && p_owner(#[trigger] pairs[e], Direction::To) == index.0
                    && p_nbr(pairs[e], Direction::To) == succ[k];
                assert(edge_nbr(self.edges[e], Direction::To) < self.nodes.len());
            }
            assert(succ.len() == succv@.len());
        }
        if succv.len() == 0 {
            let s2 = self.nodes[i].status.wrapping_add(NODE_STATUS_STEP);
            self.set_status(i, s2);
            proof {
                self.lemma_same_lists(*old(self));
                assert(succ.filter(fc) =~= Seq::<u32>::empty()) by {
                    reveal(Seq::filter);
                }
            }
            let done = self.run_over();
            let v: Vec<NodeIndex> = Vec::new();
            proof {
                assert(v@.map_values(|n: NodeIndex| n.0) =~= Seq::<u32>::empty());
            }
            return (v, done);
        }
        let mut ready: Vec<NodeIndex> = Vec::new();
        let mut k: usize = 0;
        while k < succv.len()
            invariant
                self.wf(),
                old(self).wf(),
                self.pairs() == pairs,
                self.edges@ == old(self).edges@,
                self.nodes@.len() == old(self).nodes@.len(),
                self.froms@ == old(self).froms@,
                self.to_len == old(self).to_len,
                self.to_count == old(self).to_count,
                self.map@ == old(self).map@,
                0 <= k <= succv@.len(),
                succv@.map_values(|n: NodeIndex| n.0) == succ,
                succ.no_duplicates(),
                fc == (|y: u32| old(self).from_count_at(y as int) == 1),
                forall|m: int| 0 <= m < succ.len() ==> succ[m] < self.nodes@.len(),
                i == index.0,
                i < self.nodes@.len(),
                self.nodes@[i as int].status == s1,
                forall|j: int| 0 <= j < self.nodes@.len() ==> #[trigger] self.nodes@[j].label == old(self).nodes@[j].label
                    && self.nodes@[j].edges == old(self).nodes@[j].edges,
                forall|j: int| 0 <= j < self.nodes@.len() && j != i ==> #[trigger] self.nodes@[j].status == old(self).nodes@[j].status,
                forall|j: int|
                    0 <= j < self.nodes@.len() ==> #[trigger] self.nodes@[j].from_count == if succ.subrange(0, k as int).contains(
                        j as u32,
                    ) {
                        old(self).nodes@[j].from_count.wrapping_sub(1)
                    } else {
                        old(self).nodes@[j].from_count
                    },
                ready@.map_values(|n: NodeIndex| n.0) == succ.subrange(0, k as int).filter(fc),
            decreases succv@.len() - k,
        {
            let n = succv[k];
            let ni = n.index();
            proof {
                assert(succ[k as int] == n.0);
                assert(succ.subrange(0, k + 1) == succ.subrange(0, k as int).push(n.0));
                succ.subrange(0, k as int).lemma_filter_push(n.0, fc);
                assert(!succ.subrange(0, k as int).contains(n.0)) by {
                    if succ.subrange(0, k as int).contains(n.0) {
                        let m = choose|m: int| 0 <= m < k && #[trigger] succ.subrange(0, k as int)[m] == n.0;
                        assert(succ[m] == succ[k as int]);
                    }
                }
            }
            let c = self.nodes[ni].from_count;
            let ghost prev = self.nodes@;
            proof {
                assert forall|j: int| 0 <= j < prev.len() implies prev[j].label == old(self).nodes@[j].label
                    && prev[j].edges == old(self).nodes@[j].edges by {
                    assert(self.nodes@[j].label == old(self).nodes@[j].label);
                }
                assert forall|j: int| 0 <= j < prev.len() && j != i implies prev[j].status == old(self).nodes@[j].status by {
                    assert(self.nodes@[j].status == old(self).nodes@[j].status);
                }
                assert forall|j: int| 0 <= j < prev.len() implies prev[j].from_count == if succ.subrange(0, k as int).contains(
                    j as u32) {
                    old(self).nodes@[j].from_count.wrapping_sub(1)
                } else {
                    old(self).nodes@[j].from_count
                } by {
                    assert(self.nodes@[j].from_count == prev[j].from_count);
                }
            }
            self.set_from_count(ni, c.wrapping_sub(1));
            proof {
                assert forall|j: int| 0 <= j < self.nodes@.len() implies #[trigger] self.nodes@[j].label == old(
                    self).nodes@[j].label && self.nodes@[j].edges == old(self).nodes@[j].edges by {
                    if j != ni {
                        assert(self.nodes@[j] == prev[j]);
                    }
                }
                assert forall|j: int| 0 <= j < self.nodes@.len() && j != i implies #[trigger] self.nodes@[j].status
                    == old(self).nodes@[j].status by {
                    if j != ni {
                        assert(self.nodes@[j] == prev[j]);
                    }
                }
                if i != ni {
                    assert(self.nodes@[i as int] == prev[i as int]);
                }
            }
            let ghost r0 = ready@;
            if c == 1 {
                ready.push(n);
                proof {
                    assert(ready@.map_values(|n: NodeIndex| n.0) =~= r0.map_values(|n: NodeIndex| n.0).push(n.0));
                }
            }
            proof {
                assert forall|j: int| 0 <= j < self.nodes@.len() implies #[trigger] self.nodes@[j].from_count == if succ.subrange(
                    0, k + 1).contains(j as u32) {
                    old(self).nodes@[j].from_count.wrapping_sub(1)
                } else {
                    old(self).nodes@[j].from_count
                } by {
                    if j == ni {
                        assert(succ.subrange(0, k + 1)[k as int] == n.0);
                    } else {
                        if succ.subrange(0, k + 1).contains(j as u32) {
                            let m = choose|m: int| 0 <= m < k + 1 && #[trigger] succ.subrange(0, k + 1)[m] == j as u32;
                            assert(m != k);
                            assert(succ.subrange(0, k as int)[m] == j as u32);
                        }
                        if succ.subrange(0, k as int).contains(j as u32) {
                            let m = choose|m: int| 0 <= m < k && #[trigger] succ.subrange(0, k as int)[m] == j as u32;
                            assert(succ.subrange(0, k + 1)[m] == j as u32);
                        }
                    }
                }
                self.lemma_same_lists(*old(self));
            }
            k = k + 1;
        }
        let s2 = self.nodes[i].status.wrapping_add(NODE_STATUS_STEP);
        let ghost prev = self.nodes@;
        proof {
            assert forall|j: int| 0 <= j < prev.len() implies prev[j].edges == old(self).nodes@[j].edges by {
                assert(self.nodes@[j].label == old(self).nodes@[j].label);
            }
        }
        self.set_status(i, s2);
        proof {
            assert forall|j: int| 0 <= j < self.nodes@.len() implies #[trigger] self.nodes@[j].edges == old(self).nodes@[j].edges by {
                if j != i {
                    assert(self.nodes@[j] == prev[j]);
                }
            }
            self.lemma_same_lists(*old(self));
            assert(succ.subrange(0, succ.len() as int) == succ);
        }
        (ready, false)
    }

    /// Sets the count of pending inbound edges of node `n`.
    fn set_from_count(&mut self, n: usize, v: u32)
        requires
            n < old(self).nodes@.len(),
        ensures
            final(self).nodes@.len() == old(self).nodes@.len(),
            forall|j: int| 0 <= j < old(self).nodes@.len() && j != n ==> #[trigger] final(self).nodes@[j] == old(self).nodes@[j],
            final(self).nodes@[n as int].from_count == v,
            final(self).nodes@[n as int].status == old(self).nodes@[n as int].status,
            final(self).nodes@[n as int].edges == old(self).nodes@[n as int].edges,
            final(self).nodes@[n as int].label == old(self).nodes@[n as int].label,
            final(self).edges == old(self).edges,
            final(self).map == old(self).map,
            final(self).froms == old(self).froms,
            final(self).to_len == old(self).to_len,
            final(self).to_count == old(self).to_count,
            final(self).sys_len == old(self).sys_len,
    {
        self.nodes[n].from_count = v;
    }

    /// Takes one pending inbound edge off each of `nodes`; those whose count
    /// reaches zero become entry nodes of the run, in the order given.
    pub fn release_nodes(&mut self, nodes: &Vec<NodeIndex>)
        requires
            old(self).wf(),
            nodes@.no_duplicates(),
            forall|k: int| 0 <= k < nodes@.len() ==> (#[trigger] nodes@[k]).0 < old(self).node_count(),
        ensures
            final(self).wf(),
            final(self).pairs() == old(self).pairs(),
            final(self).node_count() == old(self).node_count(),
            final(self).spec_to_len() == old(self).spec_to_len(),
            final(self).spec_to_count() == old(self).spec_to_count(),
            forall|id: (u128, u32)| final(self).key_node(id) == old(self).key_node(id),
            forall|i: int|
                0 <= i < old(self).node_count() ==> final(self).label_at(i) == old(self).label_at(i)
                    && final(self).status_at(i) == old(self).status_at(i),
            forall|i: int|
                0 <= i < old(self).node_count() ==> #[trigger] final(self).from_count_at(i) == if nodes@.contains(
                    NodeIndex(i as u32),
                ) {
                    old(self).from_count_at(i).wrapping_sub(1)
                } else {
                    old(self).from_count_at(i)
                },
            final(self).spec_froms() == old(self).spec_froms() + nodes@.filter(
                |n: NodeIndex| old(self).from_count_at(n.0 as int) == 1,
            ),
    {
        let ghost fc = |n: NodeIndex| old(self).from_count_at(n.0 as int) == 1;
        let ghost froms0 = self.froms@;
        let mut k: usize = 0;
        while k < nodes.len()
            invariant
                self.wf(),
                old(self).wf(),
                self.pairs() == old(self).pairs(),
                self.edges@ == old(self).edges@,
                self.map@ == old(self).map@,
                self.nodes@.len() == old(self).nodes@.len(),
                self.to_len == old(self).to_len,
                self.to_count == old(self).to_count,
                0 <= k <= nodes@.len(),
                nodes@.no_duplicates(),
                forall|m: int| 0 <= m < nodes@.len() ==> (#[trigger] nodes@[m]).0 < self.nodes@.len(),
                fc == (|n: NodeIndex| old(self).from_count_at(n.0 as int) == 1),
                froms0 == old(self).froms@,
                forall|j: int|
                    0 <= j < self.nodes@.len() ==> #[trigger] self.nodes@[j].label == old(self).nodes@[j].label
                        && self.nodes@[j].edges == old(self).nodes@[j].edges && self.nodes@[j].status == old(
                        self,
                    ).nodes@[j].status,
                forall|j: int|
                    0 <= j < self.nodes@.len() ==> #[trigger] self.nodes@[j].from_count == if nodes@.subrange(
                        0,
                        k as int,
                    ).contains(NodeIndex(j as u32)) {
                        old(self).nodes@[j].from_count.wrapping_sub(1)
                    } else {
                        old(self).nodes@[j].from_count
                    },
                self.froms@ == froms0 + nodes@.subrange(0, k as int).filter(fc),
            decreases nodes@.len() - k,
        {
            let n = nodes[k];
            let ni = n.index();
            proof {
                assert(nodes@.subrange(0, k + 1) == nodes@.subrange(0, k as int).push(n));
                nodes@.subrange(0, k as int).lemma_filter_push(n, fc);
                assert(!nodes@.subrange(0, k as int).contains(n)) by {
                    if nodes@.subrange(0, k as int).contains(n) {
                        let m = choose|m: int| 0 <= m < k && #[trigger] nodes@.subrange(0, k as int)[m] == n;
                        assert(nodes@[m] == nodes@[k as int]);
                    }
                }
            }
            let c = self.nodes[ni].from_count;
            let ghost prev = self.nodes@;
            let ghost before = *self;
            self.set_from_count(ni, c.wrapping_sub(1));
            proof {
                assert forall|j: int| 0 <= j < self.nodes@.len() implies #[trigger] self.nodes@[j].edges == before.nodes@[j].edges by {
                    if j != ni {
                        assert(self.nodes@[j] == prev[j]);
                    }
                }
                self.lemma_same_lists(before);
            }
            if c == 1 {
                self.froms.push(n);
            }
            proof {
                assert(c == old(self).from_count_at(ni as int)) by {
                    assert(!nodes@.subrange(0, k as int).contains(NodeIndex(ni as u32)));
                    assert(prev[ni as int].label == old(self).nodes@[ni as int].label);
                }
                assert(self.froms@ == froms0 + nodes@.subrange(0, k + 1).filter(fc));
                assert forall|j: int| 0 <= j < self.nodes@.len() implies #[trigger] self.nodes@[j].label == old(
                    self).nodes@[j].label && self.nodes@[j].edges == old(self).nodes@[j].edges
                    && self.nodes@[j].status == old(self).nodes@[j].status by {
                    if j != ni {
                        assert(self.nodes@[j] == prev[j]);
                    }
                    assert(prev[j].label == old(self).nodes@[j].label);
                }
                assert forall|j: int| 0 <= j < self.nodes@.len() implies #[trigger] self.nodes@[j].from_count == if nodes@.subrange(
                    0, k + 1).contains(NodeIndex(j as u32)) {
                    old(self).nodes@[j].from_count.wrapping_sub(1)
                } else {
                    old(self).nodes@[j].from_count
                } by {
                    if j == ni {
                        assert(nodes@.subrange(0, k + 1)[k as int] == n);
                    } else {
                        assert(self.nodes@[j] == prev[j]);
                        assert(prev[j].label == old(self).nodes@[j].label);
                        if nodes@.subrange(0, k + 1).contains(NodeIndex(j as u32)) {
                            let m = choose|m: int| 0 <= m < k + 1 && #[trigger] nodes@.subrange(0, k + 1)[m] == NodeIndex(j as u32);
                            assert(m != k);
                            assert(nodes@.subrange(0, k as int)[m] == NodeIndex(j as u32));
                        }
                        if nodes@.subrange(0, k as int).contains(NodeIndex(j as u32)) {
                            let m = choose|m: int| 0 <= m < k && #[trigger] nodes@.subrange(0, k as int)[m] == NodeIndex(j as u32);
                            assert(nodes@.subrange(0, k + 1)[m] == NodeIndex(j as u32));
                        }
                    }
                }
            }
            k = k + 1;
        }
        proof {
            assert(nodes@.subrange(0, nodes@.len() as int) == nodes@);
            assert forall|id: (u128, u32)| self.key_node(id) == old(self).key_node(id) by {
                assert(self.map@ == old(self).map@);
            }
        }
    }

    /// Sets the status of node `n`.
    fn set_status(&mut self, n: usize, v: u32)
        requires
            n < old(self).nodes@.len(),
        ensures
            final(self).nodes@.len() == old(self).nodes@.len(),
            forall|j: int| 0 <= j < old(self).nodes@.len() && j != n ==> #[trigger] final(self).nodes@[j] == old(self).nodes@[j],
            final(self).nodes@[n as int].status == v,
            final(self).nodes@[n as int].from_count == old(self).nodes@[n as int].from_count,
            final(self).nodes@[n as int].edges == old(self).nodes@[n as int].edges,
            final(self).nodes@[n as int].label == old(self).nodes@[n as int].label,
            final(self).edges == old(self).edges,
            final(self).map == old(self).map,
            final(self).froms == old(self).froms,
            final(self).to_len == old(self).to_len,
            final(self).to_count == old(self).to_count,
            final(self).sys_len == old(self).sys_len,
    {
        self.nodes[n].status = v;
    }

    /// Changing the statuses and counters of nodes keeps the edge lists and
    /// what depends on them.
    proof fn lemma_same_lists(&self, other: GraphInner)
        requires
            other.wf(),
            self.edges@ == other.edges@,
            self.map@ == other.map@,
            self.froms@ == other.froms@,
            self.to_len == other.to_len,
            self.nodes@.len() == other.nodes@.len(),
            forall|j: int| 0 <= j < self.nodes@.len() ==> #[trigger] self.nodes@[j].edges == other.nodes@[j].edges,
        ensures
            self.wf(),
            self.pairs() == other.pairs(),
    {
        assert(self.pairs() =~= other.pairs());
        assert forall|n: int, d: Direction| 0 <= n < self.nodes.len() implies #[trigger] node_len(self.nodes[n], d) == count_with(
            self.pairs(), self.edges.len() as int, n as u32, d) by {
            assert(self.nodes@[n].edges == other.nodes@[n].edges);
            assert(node_len(other.nodes[n], d) == count_with(other.pairs(), other.edges.len() as int, n as u32, d));
        }
        assert forall|n: int, d: Direction| 0 <= n < self.nodes.len() implies #[trigger] node_head(self.nodes[n], d) == link(
            last_with(self.pairs(), self.edges.len() as int, n as u32, d)) by {
            assert(self.nodes@[n].edges == other.nodes@[n].edges);
            assert(node_head(other.nodes[n], d) == link(last_with(other.pairs(), other.edges.len() as int, n as u32, d)));
        }
        assert(sink_count(self.nodes@, self.nodes.len() as int) == sink_count(other.nodes@, other.nodes.len() as int)) by {
            lemma_sink_count_update(other.nodes@, self.nodes@, other.nodes.len() as int, -1);
        }
    }
}

} // verus!
