//! Graphviz dot text of an execution graph, for debugging: one line per
//! node with its escaped label, then one line per edge.
use crate::exec_graph::{ExecGraph, GraphInner, NodeType};
use vstd::prelude::*;
use vstd::string::{StrSliceExecFns, StringExecFns};

verus! {

/// The character of a decimal digit.
pub open spec fn digit_char(d: nat) -> char {
    if d == 0 {
        '0'
    } else if d == 1 {
        '1'
    } else if d == 2 {
        '2'
    } else if d == 3 {
        '3'
    } else if d == 4 {
        '4'
    } else if d == 5 {
        '5'
    } else if d == 6 {
        '6'
    } else if d == 7 {
        '7'
    } else if d == 8 {
        '8'
    } else {
        '9'
    }
}

/// The decimal digits of `n`, without leading zeros.
pub open spec fn decimal(n: nat) -> Seq<char>
    decreases n,
{
    if n < 10 {
        seq![digit_char(n)]
    } else {
        decimal(n / 10).push(digit_char(n % 10))
    }
}

/// Appends the decimal digits of `n`.
pub fn push_decimal(s: &mut String, n: u128)
    ensures
        final(s)@ == old(s)@ + decimal(n as nat),
    decreases n,
{
    if n >= 10 {
        push_decimal(s, n / 10);
    }
    let d = n % 10;
    let t = if d == 0 {
        "0"
    } else if d == 1 {
        "1"
    } else if d == 2 {
        "2"
    } else if d == 3 {
        "3"
    } else if d == 4 {
        "4"
    } else if d == 5 {
        "5"
    } else if d == 6 {
        "6"
    } else if d == 7 {
        "7"
    } else if d == 8 {
        "8"
    } else {
        "9"
    };
    proof {
        reveal_strlit("0");
        reveal_strlit("1");
        reveal_strlit("2");
        reveal_strlit("3");
        reveal_strlit("4");
        reveal_strlit("5");
        reveal_strlit("6");
        reveal_strlit("7");
        reveal_strlit("8");
        reveal_strlit("9");
        assert(t@ =~= seq![digit_char(d as nat)]);
    }
    let ghost mid = s@;
    s.append(t);
    proof {
        if n >= 10 {
            assert(s@ =~= old(s)@ + decimal(n as nat));
        } else {
            assert(s@ =~= old(s)@ + decimal(n as nat));
        }
    }
}

/// How one character is written inside a quoted label: a quote or a
/// backslash gets a backslash before it, and a line break becomes `\l`.
pub open spec fn escape_char(c: char) -> Seq<char> {
    if c == '"' {
        seq!['\\', '"']
    } else if c == '\\' {
        seq!['\\', '\\']
    } else if c == '\n' {
        seq!['\\', 'l']
    } else {
        seq![c]
    }
}

/// The text `s` escaped for a quoted label.
pub open spec fn escaped(s: Seq<char>) -> Seq<char>
    decreases s.len(),
{
    if s.len() == 0 {
        Seq::empty()
    } else {
        escaped(s.drop_last()) + escape_char(s.last())
    }
}

/// Appends `t` escaped for a quoted label.
pub fn push_escaped(s: &mut String, t: &str)
    ensures
        final(s)@ == old(s)@ + escaped(t@),
{
    let n = t.unicode_len();
    let mut i: usize = 0;
    while i < n
        invariant
            n == t@.len(),
            0 <= i <= n,
            s@ == old(s)@ + escaped(t@.subrange(0, i as int)),
        decreases n - i,
    {
        let c = t.get_char(i);
        proof {
            assert(t@.subrange(0, i + 1).drop_last() == t@.subrange(0, i as int));
            assert(t@.subrange(0, i + 1).last() == c);
            reveal_strlit("\\\"");
            reveal_strlit("\\\\");
            reveal_strlit("\\l");
        }
        if c == '"' {
            s.append("\\\"");
        } else if c == '\\' {
            s.append("\\\\");
        } else if c == '\n' {
            s.append("\\l");
        } else {
            let one = t.substring_char(i, i + 1);
            proof {
                assert(one@ =~= seq![c]);
            }
            s.append(one);
        }
        proof {
            assert(s@ =~= old(s)@ + escaped(t@.subrange(0, i + 1)));
        }
        i = i + 1;
    }
    proof {
        assert(t@.subrange(0, n as int) == t@);
    }
}

/// `<str as Debug>::fmt`: the text of a string as Rust writes it with `{:?}`,
/// quoted and escaped. How each character is escaped is left to the name.
pub uninterp spec fn debug_quoted(s: Seq<char>) -> Seq<char>;

/// Every character of `s` is printable ASCII other than a quote or a
/// backslash: characters that `{:?}` writes as they are.
pub open spec fn plain_text(s: Seq<char>) -> bool {
    forall|i: int| 0 <= i < s.len() ==> ' ' <= #[trigger] s[i] <= '~' && s[i] != '"' && s[i] != '\\'
}

/// `s` between double quotes.
pub open spec fn quoted(s: Seq<char>) -> Seq<char> {
    seq!['"'] + s + seq!['"']
}

/// `<str as Debug>::fmt`, through `format!("{:?}", s)`: the text of `s` as
/// Rust writes it with `{:?}`, which the name `debug_quoted` stands for. It
/// is `s` between double quotes, each character escaped by
/// `char::escape_debug`, which leaves printable ASCII other than a quote or
/// a backslash as it is: so a plain `s` comes out quoted and whole.
#[verifier::external_body]
fn debug_str(s: &str) -> (r: String)
    ensures
        r@ == debug_quoted(s@),
        plain_text(s@) ==> r@ == quoted(s@),
{
    format!("{:?}", s)
}

/// The text of a label: its kind and, quoted, its name (an archetype
/// component also shows the archetype id).
pub open spec fn label_text(t: NodeType) -> Seq<char> {
    match t {
        NodeType::Empty => seq!['N', 'o', 'n', 'e'],
        NodeType::System(_, s) => seq!['S', 'y', 's', 't', 'e', 'm', '('] + debug_quoted(s@) + seq![')'],
        NodeType::ArchetypeComponent(id, s) => seq![
            'A',
            'r',
            'c',
            'h',
            'e',
            't',
            'y',
            'p',
            'e',
            'C',
            'o',
            'm',
            'p',
            'o',
            'n',
            'e',
            'n',
            't',
            '(',
        ] + decimal(id as nat) + seq![','] + debug_quoted(s@) + seq![')'],
        NodeType::Res(s) => seq!['R', 'e', 's', '('] + debug_quoted(s@) + seq![')'],
        NodeType::SystemSet(s) => seq!['S', 'e', 't', '('] + debug_quoted(s@) + seq![')'],
    }
}

/// The name of a label is plain text (an empty node has none).
pub open spec fn plain_name(t: NodeType) -> bool {
    match t {
        NodeType::Empty => true,
        NodeType::System(_, s) => plain_text(s@),
        NodeType::ArchetypeComponent(_, s) => plain_text(s@),
        NodeType::Res(s) => plain_text(s@),
        NodeType::SystemSet(s) => plain_text(s@),
    }
}

/// The text of a label whose name is plain: its kind and its name, whole,
/// between double quotes (an archetype component also shows the archetype
/// id).
pub open spec fn plain_label(t: NodeType) -> Seq<char> {
    match t {
        NodeType::Empty => seq!['N', 'o', 'n', 'e'],
        NodeType::System(_, s) => seq!['S', 'y', 's', 't', 'e', 'm', '('] + quoted(s@) + seq![')'],
        NodeType::ArchetypeComponent(id, s) => seq![
            'A',
            'r',
            'c',
            'h',
            'e',
            't',
            'y',
            'p',
            'e',
            'C',
            'o',
            'm',
            'p',
            'o',
            'n',
            'e',
            'n',
            't',
            '(',
        ] + decimal(id as nat) + seq![','] + quoted(s@) + seq![')'],
        NodeType::Res(s) => seq!['R', 'e', 's', '('] + quoted(s@) + seq![')'],
        NodeType::SystemSet(s) => seq!['S', 'e', 't', '('] + quoted(s@) + seq![')'],
    }
}

/// The label of a system with a plain name shows the whole name, every
/// character in order, right after `System("`; so two systems whose plain
/// names differ (say, in their module path) get different labels.
pub proof fn lemma_system_label_shows_name(i: usize, a: String, j: usize, b: String)
    requires
        plain_text(a@),
        plain_text(b@),
    ensures
        plain_label(NodeType::System(i, a)).subrange(8, 8 + a@.len() as int) == a@,
        plain_label(NodeType::System(i, a)).len() == a@.len() + 10,
        plain_label(NodeType::System(i, a)) == plain_label(NodeType::System(j, b)) ==> a@ == b@,
{
    let la = plain_label(NodeType::System(i, a));
    let lb = plain_label(NodeType::System(j, b));
    assert(la.subrange(8, 8 + a@.len() as int) =~= a@);
    assert(lb.subrange(8, 8 + b@.len() as int) =~= b@);
    if la == lb {
        assert(a@.len() == b@.len());
        assert(a@ =~= b@);
    }
}

impl NodeType {
    /// The text of the label.
    pub fn to_string(&self) -> (r: String)
        ensures
            r@ == label_text(*self),
            plain_name(*self) ==> r@ == plain_label(*self),
    {
        let mut r = String::new();
        match self {
            NodeType::Empty => {
                r.append("None");
            },
            NodeType::System(_, s) => {
                r.append("System(");
                r.append(debug_str(s.as_str()).as_str());
                r.append(")");
            },
            NodeType::ArchetypeComponent(id, s) => {
                r.append("ArchetypeComponent(");
                push_decimal(&mut r, *id);
                r.append(",");
                r.append(debug_str(s.as_str()).as_str());
                r.append(")");
            },
            NodeType::Res(s) => {
                r.append("Res(");
                r.append(debug_str(s.as_str()).as_str());
                r.append(")");
            },
            NodeType::SystemSet(s) => {
                r.append("Set(");
                r.append(debug_str(s.as_str()).as_str());
                r.append(")");
            },
        }
        proof {
            reveal_strlit("None");
            reveal_strlit("System(");
            reveal_strlit("ArchetypeComponent(");
            reveal_strlit(",");
            reveal_strlit(")");
            reveal_strlit("Res(");
            reveal_strlit("Set(");
            assert(r@ =~= label_text(*self));
            if plain_name(*self) {
                assert(r@ =~= plain_label(*self));
            }
        }
        r
    }
}

/// Options of the dot text.
#[derive(Clone, Copy)]
pub struct Config(pub u32);

impl Config {
    /// Nodes are written without their labels.
    pub const NODE_NO_LABEL: u32 = 0b001;
    /// Edges are written with their attributes.
    pub const EDGE_NO_LABEL: u32 = 0b010;
    /// Only the lines of the nodes and edges, without the enclosing
    /// `digraph { .. }`.
    pub const GRAPH_CONTENT_ONLY: u32 = 0b100;

    pub fn empty() -> (r: Config)
        ensures
            r.0 == 0,
    {
        Config(0)
    }

    pub fn from_bits(bits: u32) -> (r: Config)
        ensures
            r.0 == bits,
    {
        Config(bits)
    }

    /// All the options of `bits` are set.
    pub fn contains(&self, bits: u32) -> (r: bool)
        ensures
            r == (self.0 & bits == bits),
    {
        self.0 & bits == bits
    }
}

/// The attributes of item `i`, empty when none were given.
pub open spec fn attr_at(attrs: Seq<String>, i: int) -> Seq<char> {
    if 0 <= i < attrs.len() {
        attrs[i]@
    } else {
        Seq::empty()
    }
}

/// The line of node `i`: its number and, unless labels are left out, its
/// escaped label and its attributes.
pub open spec fn node_line(i: nat, label: NodeType, attr: Seq<char>, cfg: u32) -> Seq<char> {
    seq!['\t'] + decimal(i) + if cfg & Config::NODE_NO_LABEL == Config::NODE_NO_LABEL {
        Seq::empty()
    } else {
        seq![' ', '[', 'l', 'a', 'b', 'e', 'l', '=', '"'] + escaped(label_text(label)) + seq!['"'] + (if attr.len() > 0 {
            seq![',', ' '] + attr
        } else {
            Seq::empty()
        }) + seq![']', ';', '\n']
    }
}

/// The line of an edge: its source and target and, when edge attributes
/// are asked for and given, the attributes.
pub open spec fn edge_line(from: u32, to: u32, attr: Seq<char>, cfg: u32) -> Seq<char> {
    seq!['\t'] + decimal(from as nat) + seq![' ', '-', '>', ' '] + decimal(to as nat) + (if cfg & Config::EDGE_NO_LABEL
        == Config::EDGE_NO_LABEL && attr.len() > 0 {
        seq!['['] + attr + seq![']']
    } else {
        Seq::empty()
    }) + seq![';', '\n']
}

/// The lines of the first `k` nodes.
pub open spec fn nodes_text(g: GraphInner, attrs: Seq<String>, cfg: u32, k: nat) -> Seq<char>
    decreases k,
{
    if k == 0 {
        Seq::empty()
    } else {
        nodes_text(g, attrs, cfg, (k - 1) as nat) + node_line(
            (k - 1) as nat,
            g.label_at(k - 1),
            attr_at(attrs, k - 1),
            cfg,
        )
    }
}

/// The lines of the first `k` edges.
pub open spec fn edges_text(g: GraphInner, attrs: Seq<String>, cfg: u32, k: nat) -> Seq<char>
    decreases k,
{
    if k == 0 {
        Seq::empty()
    } else {
        edges_text(g, attrs, cfg, (k - 1) as nat) + edge_line(
            g.pairs()[k - 1].0,
            g.pairs()[k - 1].1,
            attr_at(attrs, k - 1),
            cfg,
        )
    }
}

/// The dot text of a graph: the node lines, then the edge lines, inside
/// `digraph { .. }` unless only the content is asked for.
pub open spec fn dot_text(g: GraphInner, cfg: u32, edge_attrs: Seq<String>, node_attrs: Seq<String>) -> Seq<char> {
    let body = nodes_text(g, node_attrs, cfg, g.node_count()) + edges_text(g, edge_attrs, cfg, g.pairs().len());
    if cfg & Config::GRAPH_CONTENT_ONLY == Config::GRAPH_CONTENT_ONLY {
        body
    } else {
        seq!['d', 'i', 'g', 'r', 'a', 'p', 'h', ' ', '{', '\n'] + body + seq!['}', '\n']
    }
}

/// Appends the line of an edge.
fn push_edge_line(r: &mut String, from: u32, to: u32, attr: &str, cfg: Config)
    ensures
        final(r)@ == old(r)@ + edge_line(from, to, attr@, cfg.0),
{
    r.append("\t");
    push_decimal(r, from as u128);
    r.append(" -> ");
    push_decimal(r, to as u128);
    if cfg.contains(Config::EDGE_NO_LABEL) && attr.unicode_len() > 0 {
        r.append("[");
        r.append(attr);
        r.append("]");
    }
    r.append(";\n");
    proof {
        reveal_strlit("\t");
        reveal_strlit(" -> ");
        reveal_strlit("[");
        reveal_strlit("]");
        reveal_strlit(";\n");
        assert(r@ =~= old(r)@ + edge_line(from, to, attr@, cfg.0));
    }
}

/// A graph to be written as dot text, with its options and the attributes
/// of its edges and nodes by index.
pub struct Dot<'a> {
    graph: &'a ExecGraph,
    config: Config,
    edge_attributes: Vec<String>,
    node_attributes: Vec<String>,
}

impl<'a> Dot<'a> {
    pub closed spec fn spec_graph(&self) -> ExecGraph {
        *self.graph
    }

    pub closed spec fn spec_config(&self) -> u32 {
        self.config.0
    }

    pub closed spec fn spec_edge_attributes(&self) -> Seq<String> {
        self.edge_attributes@
    }

    pub closed spec fn spec_node_attributes(&self) -> Seq<String> {
        self.node_attributes@
    }

    /// The graph with no option and no attribute.
    pub fn new(graph: &'a ExecGraph) -> (r: Dot<'a>)
        ensures
            r.spec_graph() == *graph,
            r.spec_config() == 0,
            r.spec_edge_attributes().len() == 0,
            r.spec_node_attributes().len() == 0,
    {
        Self::with_config(graph, Config::empty())
    }

    /// The graph with the given options and no attribute.
    pub fn with_config(graph: &'a ExecGraph, config: Config) -> (r: Dot<'a>)
        ensures
            r.spec_graph() == *graph,
            r.spec_config() == config.0,
            r.spec_edge_attributes().len() == 0,
            r.spec_node_attributes().len() == 0,
    {
        Self::with_attr_getters(graph, config, Vec::new(), Vec::new())
    }

    /// The graph with the given options and the attributes of its edges and
    /// nodes, by index.
    pub fn with_attr_getters(
        graph: &'a ExecGraph,
        config: Config,
        edge_attributes: Vec<String>,
        node_attributes: Vec<String>,
    ) -> (r: Dot<'a>)
        ensures
            r.spec_graph() == *graph,
            r.spec_config() == config.0,
            r.spec_edge_attributes() == edge_attributes@,
            r.spec_node_attributes() == node_attributes@,
    {
        Dot { graph, config, edge_attributes, node_attributes }
    }

    /// The dot text of the graph.
    pub fn to_string(&self) -> (r: String)
        requires
            self.spec_graph().graph().wf(),
        ensures
            r@ == dot_text(
                self.spec_graph().graph(),
                self.spec_config(),
                self.spec_edge_attributes(),
                self.spec_node_attributes(),
            ),
    {
        let g = self.graph;
        let ghost gi = g.graph();
        let cfg = self.config;
        let mut r = String::new();
        proof {
            reveal_strlit("digraph {\n");
            reveal_strlit("}\n");
            reveal_strlit("\t");
            reveal_strlit(" [label=\"");
            reveal_strlit("\"");
            reveal_strlit(", ");
            reveal_strlit("];\n");
            reveal_strlit(" -> ");
            reveal_strlit("[");
            reveal_strlit("]");
            reveal_strlit(";\n");
        }
        let whole = !cfg.contains(Config::GRAPH_CONTENT_ONLY);
        if whole {
            r.append("digraph {\n");
        }
        let ghost head = r@;
        let n = g.node_len();
        let mut i: usize = 0;
        while i < n
            invariant
                n == gi.node_count(),
                gi == g.graph(),
                gi.wf(),
                0 <= i <= n,
                r@ == head + nodes_text(gi, self.node_attributes@, cfg.0, i as nat),
            decreases n - i,
        {
            r.append("\t");
            push_decimal(&mut r, i as u128);
            if !cfg.contains(Config::NODE_NO_LABEL) {
                r.append(" [label=\"");
                let text = g.label(i).to_string();
                push_escaped(&mut r, text.as_str());
                r.append("\"");
                if i < self.node_attributes.len() {
                    let a = self.node_attributes[i].as_str();
                    if a.unicode_len() > 0 {
                        r.append(", ");
                        r.append(a);
                    }
                }
                r.append("];\n");
            }
            proof {
                reveal_strlit("\t");
                reveal_strlit(" [label=\"");
                reveal_strlit("\"");
                reveal_strlit(", ");
                reveal_strlit("];\n");
                assert(r@ =~= head + nodes_text(gi, self.node_attributes@, cfg.0, (i + 1) as nat));
            }
            i = i + 1;
        }
        let ghost mid = r@;
        let m = g.edge_len();
        let mut k: usize = 0;
        while k < m
            invariant
                m == gi.pairs().len(),
                gi == g.graph(),
                gi.wf(),
                0 <= k <= m,
                r@ == mid + edges_text(gi, self.edge_attributes@, cfg.0, k as nat),
            decreases m - k,
        {
            let (from, to) = g.edge_nodes(k);
            let empty = String::new();
            let a = if k < self.edge_attributes.len() {
                self.edge_attributes[k].as_str()
            } else {
                empty.as_str()
            };
            proof {
                assert(a@ == attr_at(self.edge_attributes@, k as int));
            }
            push_edge_line(&mut r, from.0, to.0, a, cfg);
            proof {
                assert(edges_text(gi, self.edge_attributes@, cfg.0, (k + 1) as nat) == edges_text(
                    gi,
                    self.edge_attributes@,
                    cfg.0,
                    k as nat,
                ) + edge_line(from.0, to.0, attr_at(self.edge_attributes@, k as int), cfg.0));
            }
            k = k + 1;
        }
        if whole {
            r.append("}\n");
        }
        proof {
            assert(r@ =~= dot_text(gi, cfg.0, self.edge_attributes@, self.node_attributes@));
        }
        r
    }
}

} // verus!
