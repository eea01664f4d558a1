//! Nodes, edges, and the graph container with its invariants.
//!
//! A graph owns an ordered sequence of nodes and an ordered sequence of
//! directed edges. After every mutation three invariants hold: node
//! identifiers are pairwise distinct, every edge's endpoints name existing
//! nodes, and no two edges share the same ordered pair of endpoints.

use vstd::prelude::*;
use crate::text::{chars_of, dec_digits, parse_u32, parse_u32_token, push_dec, split2, split2_exec,
    split_lines, split_lines_exec, string_of};
use crate::token::TokenValue;

verus! {

/// An identified entity holding a value.
#[derive(Debug)]
pub struct Node<T> {
    pub id: u32,
    pub value: T,
}

/// A directed arc between two node identifiers.
#[derive(Debug, Clone, Copy)]
pub struct Edge {
    pub begin: u32,
    pub end: u32,
}

/// What can go wrong when building or decoding a graph.
#[derive(Debug)]
pub enum GraphError {
    /// A line of text did not decode; carries the offending line.
    Parse(String),
    /// A node with this identifier already exists.
    DuplicateNode(u32),
    /// An edge names at least one identifier with no node.
    InvalidEdge(u32, u32),
}

/// The owning container of nodes and edges.
#[derive(Debug)]
pub struct Graph<T> {
    pub nodes: Vec<Node<T>>,
    pub edges: Vec<Edge>,
}

/// The mathematical content of a graph: its two sequences.
pub struct GraphV<T> {
    pub nodes: Seq<Node<T>>,
    pub edges: Seq<Edge>,
}

impl<T> View for Graph<T> {
    type V = GraphV<T>;

    open spec fn view(&self) -> GraphV<T> {
        GraphV { nodes: self.nodes@, edges: self.edges@ }
    }
}

impl<T> GraphV<T> {
    /// Some node carries this identifier.
    pub open spec fn has_node_id(self, id: u32) -> bool {
        exists|i: int| 0 <= i < self.nodes.len() && self.nodes[i].id == id
    }

    /// Some edge goes from `begin` to `end`.
    pub open spec fn has_edge(self, begin: u32, end: u32) -> bool {
        exists|i: int|
            0 <= i < self.edges.len() && self.edges[i].begin == begin && self.edges[i].end == end
    }

    /// The graph's invariants: distinct node identifiers, valid edge
    /// endpoints, and no duplicate edge pair.
    pub open spec fn wf(self) -> bool {
        &&& forall|i: int, j: int|
            0 <= i < j < self.nodes.len() ==> self.nodes[i].id != self.nodes[j].id
        &&& forall|i: int|
            0 <= i < self.edges.len() ==> self.has_node_id(#[trigger] self.edges[i].begin)
                && self.has_node_id(self.edges[i].end)
        &&& forall|i: int, j: int|
            0 <= i < j < self.edges.len() ==> !(self.edges[i].begin == self.edges[j].begin
                && self.edges[i].end == self.edges[j].end)
    }
}




/// The text line of a node: its identifier, one space, its value's token.
pub open spec fn node_line<T: TokenValue>(n: Node<T>) -> Seq<char> {
    dec_digits(n.id as nat) + seq![' '] + n.value.token()
}

/// The text line of an edge: its two endpoint identifiers, one space apart.
pub open spec fn edge_line(e: Edge) -> Seq<char> {
    dec_digits(e.begin as nat) + seq![' '] + dec_digits(e.end as nat)
}

/// The lines of the node section, in node order.
pub open spec fn node_lines<T: TokenValue>(ns: Seq<Node<T>>) -> Seq<Seq<char>>
    decreases ns.len(),
{
    if ns.len() == 0 {
        Seq::empty()
    } else {
        node_lines(ns.drop_last()).push(node_line(ns.last()))
    }
}

/// The lines of the edge section, in edge order.
pub open spec fn edge_lines(es: Seq<Edge>) -> Seq<Seq<char>>
    decreases es.len(),
{
    if es.len() == 0 {
        Seq::empty()
    } else {
        edge_lines(es.drop_last()).push(edge_line(es.last()))
    }
}

/// All lines of a graph's text: nodes, the `#` separator, edges.
pub open spec fn ser_lines<T: TokenValue>(g: GraphV<T>) -> Seq<Seq<char>> {
    node_lines(g.nodes) + seq![seq!['#']] + edge_lines(g.edges)
}

/// Lines joined into one text, each followed by a newline.
pub open spec fn cat_lines(ls: Seq<Seq<char>>) -> Seq<char>
    decreases ls.len(),
{
    if ls.len() == 0 {
        Seq::empty()
    } else {
        cat_lines(ls.drop_last()) + ls.last() + seq!['\n']
    }
}

/// The whole text of a graph.
pub open spec fn ser_text<T: TokenValue>(g: GraphV<T>) -> Seq<char> {
    cat_lines(ser_lines(g))
}

/// Joining distributes over concatenation of line sequences.
pub proof fn lemma_cat_lines_add(a: Seq<Seq<char>>, b: Seq<Seq<char>>)
    ensures
        cat_lines(a + b) == cat_lines(a) + cat_lines(b),
    decreases b.len(),
{
    if b.len() == 0 {
        assert(a + b =~= a);
        assert(cat_lines(a) + cat_lines(b) =~= cat_lines(a));
    } else {
        assert((a + b).drop_last() =~= a + b.drop_last());
        assert((a + b).last() == b.last());
        lemma_cat_lines_add(a, b.drop_last());
        assert(cat_lines(a + b) =~= cat_lines(a) + cat_lines(b));
    }
}

/// What decoding a node line yields, if anything.
pub open spec fn parse_node_line<T: TokenValue>(l: Seq<char>) -> Option<Node<T>> {
    match split2(l) {
        Some(p) => match parse_u32(p.0) {
            Some(id) => match T::decode_spec(p.1) {
                Some(v) => Some(Node { id, value: v }),
                None => None,
            },
            None => None,
        },
        None => None,
    }
}

/// What decoding an edge line yields, if anything.
pub open spec fn parse_edge_line(l: Seq<char>) -> Option<Edge> {
    match split2(l) {
        Some(p) => match parse_u32(p.0) {
            Some(begin) => match parse_u32(p.1) {
                Some(end) => Some(Edge { begin, end }),
                None => None,
            },
            None => None,
        },
        None => None,
    }
}


/// The spec-level shape of a graph error.
pub enum ErrV {
    Parse(Seq<char>),
    DuplicateNode(u32),
    InvalidEdge(u32, u32),
}

impl View for GraphError {
    type V = ErrV;

    open spec fn view(&self) -> ErrV {
        match self {
            GraphError::Parse(l) => ErrV::Parse(l@),
            GraphError::DuplicateNode(id) => ErrV::DuplicateNode(*id),
            GraphError::InvalidEdge(b, e) => ErrV::InvalidEdge(*b, *e),
        }
    }
}

/// Folds the lines of a text into a graph, through the same validated
/// insertion path the mutation operations use: every line before the first
/// `#` is a node, every line after it an edge; a `#` line only switches.
pub open spec fn deser_lines<T: TokenValue>(
    ls: Seq<Seq<char>>,
    ns: Seq<Node<T>>,
    es: Seq<Edge>,
    in_edges: bool,
) -> Result<(Seq<Node<T>>, Seq<Edge>), ErrV>
    decreases ls.len(),
{
    if ls.len() == 0 {
        Ok((ns, es))
    } else {
        let l = ls[0];
        let rest = ls.skip(1);
        if l == seq!['#'] {
            deser_lines(rest, ns, es, true)
        } else if !in_edges {
            match parse_node_line::<T>(l) {
                None => Err(ErrV::Parse(l)),
                Some(n) => if (GraphV { nodes: ns, edges: es }).has_node_id(n.id) {
                    Err(ErrV::DuplicateNode(n.id))
                } else {
                    deser_lines(rest, ns.push(n), es, false)
                },
            }
        } else {
            match parse_edge_line(l) {
                None => Err(ErrV::Parse(l)),
                Some(e) => if !((GraphV { nodes: ns, edges: es }).has_node_id(e.begin) && (GraphV {
                    nodes: ns,
                    edges: es,
                }).has_node_id(e.end)) {
                    Err(ErrV::InvalidEdge(e.begin, e.end))
                } else if (GraphV { nodes: ns, edges: es }).has_edge(e.begin, e.end) {
                    deser_lines(rest, ns, es, true)
                } else {
                    deser_lines(rest, ns, es.push(e), true)
                },
            }
        }
    }
}

/// What deserializing a whole text yields: the two sequences, or the
/// first error.
pub open spec fn deser_text<T: TokenValue>(s: Seq<char>) -> Result<
    (Seq<Node<T>>, Seq<Edge>),
    ErrV,
> {
    deser_lines(split_lines(s), Seq::empty(), Seq::empty(), false)
}

/// The node sequence with every node of this identifier removed.
pub open spec fn without_node<T>(ns: Seq<Node<T>>, id: u32) -> Seq<Node<T>>
    decreases ns.len(),
{
    if ns.len() == 0 {
        ns
    } else {
        let rest = without_node(ns.drop_last(), id);
        if ns.last().id != id {
            rest.push(ns.last())
        } else {
            rest
        }
    }
}

/// The edge sequence with every edge incident to this node removed.
pub open spec fn without_incident(es: Seq<Edge>, id: u32) -> Seq<Edge>
    decreases es.len(),
{
    if es.len() == 0 {
        es
    } else {
        let rest = without_incident(es.drop_last(), id);
        if !(id == es.last().begin || id == es.last().end) {
            rest.push(es.last())
        } else {
            rest
        }
    }
}

/// The edge sequence with every edge of this ordered pair removed.
pub open spec fn without_pair(es: Seq<Edge>, begin: u32, end: u32) -> Seq<Edge>
    decreases es.len(),
{
    if es.len() == 0 {
        es
    } else {
        let rest = without_pair(es.drop_last(), begin, end);
        if !(es.last().begin == begin && es.last().end == end) {
            rest.push(es.last())
        } else {
            rest
        }
    }
}


/// A node whose identifier differs from the removed one stays.
proof fn lemma_without_node_keeps<T>(ns: Seq<Node<T>>, id: u32, a: int)
    requires
        0 <= a < ns.len(),
        ns[a].id != id,
    ensures
        without_node(ns, id).contains(ns[a]),
    decreases ns.len(),
{
    let f = without_node(ns, id);
    if a == ns.len() - 1 {
        assert(ns[a] == ns.last());
        assert(f[f.len() - 1] == ns[a]);
    } else {
        let d = ns.drop_last();
        assert(d[a] == ns[a]);
        lemma_without_node_keeps(d, id, a);
        let fd = without_node(d, id);
        let w = choose|w: int| 0 <= w < fd.len() && fd[w] == ns[a];
        assert(f[w] == ns[a]);
    }
}


/// The first node carrying this identifier, in sequence order.
pub open spec fn first_node_with_id<T>(ns: Seq<Node<T>>, id: u32) -> Option<Node<T>>
    decreases ns.len(),
{
    if ns.len() == 0 {
        None
    } else if ns[0].id == id {
        Some(ns[0])
    } else {
        first_node_with_id(ns.skip(1), id)
    }
}

/// The targets of every edge beginning at `id`, in edge order; an edge
/// whose end names no node is skipped.
pub open spec fn connected_nodes<T>(ns: Seq<Node<T>>, es: Seq<Edge>, id: u32) -> Seq<Node<T>>
    decreases es.len(),
{
    if es.len() == 0 {
        Seq::empty()
    } else {
        let tail = connected_nodes(ns, es.skip(1), id);
        if es[0].begin == id {
            match first_node_with_id(ns, es[0].end) {
                Some(n) => seq![n] + tail,
                None => tail,
            }
        } else {
            tail
        }
    }
}

/// What node removal leaves: only nodes of other identifiers, all from the
/// original sequence, still pairwise distinct when they were before.
proof fn lemma_without_node_props<T>(ns: Seq<Node<T>>, id: u32)
    ensures
        forall|i: int|
            0 <= i < without_node(ns, id).len() ==> (#[trigger] without_node(ns, id)[i]).id != id,
        forall|i: int|
            0 <= i < without_node(ns, id).len() ==> ns.contains(#[trigger] without_node(ns, id)[i]),
        (forall|i: int, j: int| 0 <= i < j < ns.len() ==> ns[i].id != ns[j].id) ==> (forall|
            i: int,
            j: int,
        |
            0 <= i < j < without_node(ns, id).len() ==> (#[trigger] without_node(ns, id)[i]).id != (
            #[trigger] without_node(ns, id)[j]).id),
    decreases ns.len(),
{
    if ns.len() > 0 {
        let d = ns.drop_last();
        lemma_without_node_props(d, id);
        let f = without_node(ns, id);
        let fd = without_node(d, id);
        assert(ns[ns.len() - 1] == ns.last());
        assert forall|i: int| 0 <= i < f.len() implies ns.contains(#[trigger] f[i]) by {
            if ns.last().id != id && i == f.len() - 1 {
            } else {
                assert(f[i] == fd[i]);
                assert(d.contains(fd[i]));
                let a = choose|a: int| 0 <= a < d.len() && d[a] == fd[i];
                assert(ns[a] == f[i]);
            }
        }
        if forall|i: int, j: int| 0 <= i < j < ns.len() ==> ns[i].id != ns[j].id {
            assert forall|i: int, j: int| 0 <= i < j < d.len() implies d[i].id != d[j].id by {
                assert(ns[i].id != ns[j].id);
            }
            assert forall|i: int, j: int|
                0 <= i < j < f.len() implies (#[trigger] f[i]).id != (#[trigger] f[j]).id by {
                if ns.last().id != id && j == f.len() - 1 {
                    assert(f[i] == fd[i]);
                    assert(d.contains(fd[i]));
                    let a = choose|a: int| 0 <= a < d.len() && d[a] == fd[i];
                    assert(ns[a].id != ns[ns.len() - 1].id);
                } else {
                    assert(f[i] == fd[i]);
                    assert(f[j] == fd[j]);
                }
            }
        }
    }
}

/// What edge removal (by incident node) leaves: only edges avoiding the
/// node, all from the original sequence, still pairwise distinct when they
/// were before.
proof fn lemma_without_incident_props(es: Seq<Edge>, id: u32)
    ensures
        forall|i: int|
            0 <= i < without_incident(es, id).len() ==> !(id == (#[trigger] without_incident(
                es,
                id,
            )[i]).begin || id == without_incident(es, id)[i].end),
        forall|i: int|
            0 <= i < without_incident(es, id).len() ==> es.contains(
                #[trigger] without_incident(es, id)[i],
            ),
        (forall|i: int, j: int|
            0 <= i < j < es.len() ==> !(es[i].begin == es[j].begin && es[i].end == es[j].end))
            ==> (forall|i: int, j: int|
            0 <= i < j < without_incident(es, id).len() ==> !((#[trigger] without_incident(
                es,
                id,
            )[i]).begin == (#[trigger] without_incident(es, id)[j]).begin && without_incident(
                es,
                id,
            )[i].end == without_incident(es, id)[j].end)),
    decreases es.len(),
{
    if es.len() > 0 {
        let d = es.drop_last();
        lemma_without_incident_props(d, id);
        let f = without_incident(es, id);
        let fd = without_incident(d, id);
        assert(es[es.len() - 1] == es.last());
        assert forall|i: int| 0 <= i < f.len() implies es.contains(#[trigger] f[i]) by {
            if !(id == es.last().begin || id == es.last().end) && i == f.len() - 1 {
            } else {
                assert(f[i] == fd[i]);
                assert(d.contains(fd[i]));
                let a = choose|a: int| 0 <= a < d.len() && d[a] == fd[i];
                assert(es[a] == f[i]);
            }
        }
        if forall|i: int, j: int|
            0 <= i < j < es.len() ==> !(es[i].begin == es[j].begin && es[i].end == es[j].end) {
            assert forall|i: int, j: int|
                0 <= i < j < d.len() implies !(d[i].begin == d[j].begin && d[i].end
                == d[j].end) by {
                assert(!(es[i].begin == es[j].begin && es[i].end == es[j].end));
            }
            assert forall|i: int, j: int|
                0 <= i < j < f.len() implies !((#[trigger] f[i]).begin == (#[trigger] f[j]).begin
                && f[i].end == f[j].end) by {
                if !(id == es.last().begin || id == es.last().end) && j == f.len() - 1 {
                    assert(f[i] == fd[i]);
                    assert(d.contains(fd[i]));
                    let a = choose|a: int| 0 <= a < d.len() && d[a] == fd[i];
                    assert(!(es[a].begin == es[es.len() - 1].begin && es[a].end == es[es.len()
                        - 1].end));
                } else {
                    assert(f[i] == fd[i]);
                    assert(f[j] == fd[j]);
                }
            }
        }
    }
}

/// What edge removal (by pair) leaves: everything from the original
/// sequence, still pairwise distinct when it was before.
proof fn lemma_without_pair_props(es: Seq<Edge>, begin: u32, end: u32)
    ensures
        forall|i: int|
            0 <= i < without_pair(es, begin, end).len() ==> es.contains(
                #[trigger] without_pair(es, begin, end)[i],
            ),
        (forall|i: int, j: int|
            0 <= i < j < es.len() ==> !(es[i].begin == es[j].begin && es[i].end == es[j].end))
            ==> (forall|i: int, j: int|
            0 <= i < j < without_pair(es, begin, end).len() ==> !((#[trigger] without_pair(
                es,
                begin,
                end,
            )[i]).begin == (#[trigger] without_pair(es, begin, end)[j]).begin && without_pair(
                es,
                begin,
                end,
            )[i].end == without_pair(es, begin, end)[j].end)),
    decreases es.len(),
{
    if es.len() > 0 {
        let d = es.drop_last();
        lemma_without_pair_props(d, begin, end);
        let f = without_pair(es, begin, end);
        let fd = without_pair(d, begin, end);
        assert(es[es.len() - 1] == es.last());
        assert forall|i: int| 0 <= i < f.len() implies es.contains(#[trigger] f[i]) by {
            if !(es.last().begin == begin && es.last().end == end) && i == f.len() - 1 {
            } else {
                assert(f[i] == fd[i]);
                assert(d.contains(fd[i]));
                let a = choose|a: int| 0 <= a < d.len() && d[a] == fd[i];
                assert(es[a] == f[i]);
            }
        }
        if forall|i: int, j: int|
            0 <= i < j < es.len() ==> !(es[i].begin == es[j].begin && es[i].end == es[j].end) {
            assert forall|i: int, j: int|
                0 <= i < j < d.len() implies !(d[i].begin == d[j].begin && d[i].end
                == d[j].end) by {
                assert(!(es[i].begin == es[j].begin && es[i].end == es[j].end));
            }
            assert forall|i: int, j: int|
                0 <= i < j < f.len() implies !((#[trigger] f[i]).begin == (#[trigger] f[j]).begin
                && f[i].end == f[j].end) by {
                if !(es.last().begin == begin && es.last().end == end) && j == f.len() - 1 {
                    assert(f[i] == fd[i]);
                    assert(d.contains(fd[i]));
                    let a = choose|a: int| 0 <= a < d.len() && d[a] == fd[i];
                    assert(!(es[a].begin == es[es.len() - 1].begin && es[a].end == es[es.len()
                        - 1].end));
                } else {
                    assert(f[i] == fd[i]);
                    assert(f[j] == fd[j]);
                }
            }
        }
    }
}

impl<T: TokenValue> Graph<T> {
    /// The empty graph.
    pub fn new() -> (g: Self)
        ensures
            g@.nodes == Seq::<Node<T>>::empty(),
            g@.edges == Seq::<Edge>::empty(),
            g@.wf(),
    {
        let g = Graph { nodes: Vec::new(), edges: Vec::new() };
        proof {
            assert(g@.nodes =~= Seq::<Node<T>>::empty());
            assert(g@.edges =~= Seq::<Edge>::empty());
        }
        g
    }

    /// Whether a node with this identifier exists.
    pub(crate) fn contains_node_id(&self, id: u32) -> (r: bool)
        ensures
            r == self@.has_node_id(id),
    {
        let mut i: usize = 0;
        while i < self.nodes.len()
            invariant
                0 <= i <= self.nodes@.len(),
                forall|k: int| 0 <= k < i ==> self.nodes@[k].id != id,
            decreases self.nodes@.len() - i,
        {
            if self.nodes[i].id == id {
                assert(self@.nodes[i as int].id == id);
                return true;
            }
            i = i + 1;
        }
        false
    }

    /// Whether an edge with this ordered pair of endpoints exists.
    fn contains_edge(&self, begin: u32, end: u32) -> (r: bool)
        ensures
            r == self@.has_edge(begin, end),
    {
        let mut i: usize = 0;
        while i < self.edges.len()
            invariant
                0 <= i <= self.edges@.len(),
                forall|k: int|
                    0 <= k < i ==> !(self.edges@[k].begin == begin && self.edges@[k].end == end),
            decreases self.edges@.len() - i,
        {
            if self.edges[i].begin == begin && self.edges[i].end == end {
                assert(self@.edges[i as int].begin == begin && self@.edges[i as int].end == end);
                return true;
            }
            i = i + 1;
        }
        false
    }

    /// Inserts a node. Fails, changing nothing, when its identifier is
    /// already taken; otherwise appends it to the node sequence.
    pub fn add_node_from(&mut self, node: Node<T>) -> (r: Result<(), GraphError>)
        requires
            old(self)@.wf(),
        ensures
            final(self)@.wf(),
            old(self)@.has_node_id(node.id) ==> r == Err::<(), GraphError>(
                GraphError::DuplicateNode(node.id),
            ) && final(self)@ == old(self)@,
            !old(self)@.has_node_id(node.id) ==> r == Ok::<(), GraphError>(()) && final(self)@.nodes == old(self)@.nodes.push(node) && final(self)@.edges == old(self)@.edges,
    {
        let ghost pre = self@;
        if self.contains_node_id(node.id) {
            return Err(GraphError::DuplicateNode(node.id));
        }
        let ghost nid = node.id;
        self.nodes.push(node);
        proof {
            let post = self@;
            assert(post.nodes == pre.nodes.push(node));
            assert(post.edges == pre.edges);
            assert forall|i: int, j: int|
                0 <= i < j < post.nodes.len() implies post.nodes[i].id != post.nodes[j].id by {
                if j < post.nodes.len() - 1 {
                    assert(pre.nodes[i].id != pre.nodes[j].id);
                } else {
                    assert(post.nodes[j].id == nid);
                    assert(pre.nodes[i].id != nid);
                }
            }
            assert forall|i: int|
                0 <= i < post.edges.len() implies post.has_node_id(
                #[trigger] post.edges[i].begin,
            ) && post.has_node_id(post.edges[i].end) by {
                assert(pre.has_node_id(pre.edges[i].begin));
                assert(pre.has_node_id(pre.edges[i].end));
                let b = choose|k: int|
                    0 <= k < pre.nodes.len() && pre.nodes[k].id == pre.edges[i].begin;
                assert(post.nodes[b].id == post.edges[i].begin);
                let e = choose|k: int|
                    0 <= k < pre.nodes.len() && pre.nodes[k].id == pre.edges[i].end;
                assert(post.nodes[e].id == post.edges[i].end);
            }
        }
        Ok(())
    }

    /// Builds a node and inserts it, as `add_node_from` does.
    pub fn add_node(&mut self, id: u32, value: T) -> (r: Result<(), GraphError>)
        requires
            old(self)@.wf(),
        ensures
            final(self)@.wf(),
            old(self)@.has_node_id(id) ==> r == Err::<(), GraphError>(
                GraphError::DuplicateNode(id),
            ) && final(self)@ == old(self)@,
            !old(self)@.has_node_id(id) ==> r == Ok::<(), GraphError>(()) && final(self)@.nodes
                == old(self)@.nodes.push(Node { id, value }) && final(self)@.edges == old(self)@.edges,
    {
        self.add_node_from(Node::new(id, value))
    }

    /// Inserts an edge. Fails, changing nothing, when an endpoint names no
    /// node; silently changes nothing when the same pair is already there;
    /// otherwise appends it to the edge sequence.
    pub fn add_edge_from(&mut self, edge: Edge) -> (r: Result<(), GraphError>)
        requires
            old(self)@.wf(),
        ensures
            final(self)@.wf(),
            !(old(self)@.has_node_id(edge.begin) && old(self)@.has_node_id(edge.end)) ==> r
                == Err::<(), GraphError>(GraphError::InvalidEdge(edge.begin, edge.end)) && final(self)@ == old(self)@,
            old(self)@.has_node_id(edge.begin) && old(self)@.has_node_id(edge.end) && old(self)@.has_edge(edge.begin, edge.end) ==> r == Ok::<(), GraphError>(()) && final(self)@
                == old(self)@,
            old(self)@.has_node_id(edge.begin) && old(self)@.has_node_id(edge.end) && !old(self)@.has_edge(edge.begin, edge.end) ==> r == Ok::<(), GraphError>(()) && final(self)@.edges == old(self)@.edges.push(edge) && final(self)@.nodes == old(self)@.nodes,
    {
        let ghost pre = self@;
        if !(self.contains_node_id(edge.begin) && self.contains_node_id(edge.end)) {
            return Err(GraphError::InvalidEdge(edge.begin, edge.end));
        }
        if self.contains_edge(edge.begin, edge.end) {
            return Ok(());
        }
        let ghost eg = edge;
        self.edges.push(edge);
        proof {
            let post = self@;
            assert(post.edges == pre.edges.push(eg));
            assert(post.nodes == pre.nodes);
            assert forall|i: int|
                0 <= i < post.edges.len() implies post.has_node_id(
                #[trigger] post.edges[i].begin,
            ) && post.has_node_id(post.edges[i].end) by {
                if i < post.edges.len() - 1 {
                    assert(pre.has_node_id(pre.edges[i].begin));
                    assert(pre.has_node_id(pre.edges[i].end));
                } else {
                    assert(post.edges[i] == eg);
                    assert(pre.has_node_id(eg.begin));
                    assert(pre.has_node_id(eg.end));
                }
            }
            assert forall|i: int, j: int|
                0 <= i < j < post.edges.len() implies !(post.edges[i].begin
                == post.edges[j].begin && post.edges[i].end == post.edges[j].end) by {
                if j < post.edges.len() - 1 {
                    assert(!(pre.edges[i].begin == pre.edges[j].begin && pre.edges[i].end
                        == pre.edges[j].end));
                } else {
                    assert(post.edges[j] == eg);
                    assert(!pre.has_edge(eg.begin, eg.end));
                    assert(!(pre.edges[i].begin == eg.begin && pre.edges[i].end == eg.end));
                }
            }
        }
        Ok(())
    }

    /// Builds an edge and inserts it, as `add_edge_from` does.
    pub fn add_edge(&mut self, begin: u32, end: u32) -> (r: Result<(), GraphError>)
        requires
            old(self)@.wf(),
        ensures
            final(self)@.wf(),
            !(old(self)@.has_node_id(begin) && old(self)@.has_node_id(end)) ==> r == Err::<(), GraphError>(GraphError::InvalidEdge(begin, end)) && final(self)@ == old(self)@,
            old(self)@.has_node_id(begin) && old(self)@.has_node_id(end) && old(self)@.has_edge(
                begin,
                end,
            ) ==> r == Ok::<(), GraphError>(()) && final(self)@ == old(self)@,
            old(self)@.has_node_id(begin) && old(self)@.has_node_id(end) && !old(self)@.has_edge(
                begin,
                end,
            ) ==> r == Ok::<(), GraphError>(()) && final(self)@.edges == old(self)@.edges.push(
                Edge { begin, end },
            ) && final(self)@.nodes == old(self)@.nodes,
    {
        self.add_edge_from(Edge::new(begin, end))
    }

    /// The first node carrying this identifier, if any.
    fn find_node(&self, id: u32) -> (r: Option<&Node<T>>)
        ensures
            match r {
                Some(n) => first_node_with_id(self@.nodes, id) == Some(*n),
                None => first_node_with_id(self@.nodes, id) == None::<Node<T>>,
            },
    {
        let ghost ns = self@.nodes;
        let mut i: usize = 0;
        proof {
            assert(ns.skip(0) =~= ns);
        }
        while i < self.nodes.len()
            invariant
                ns == self@.nodes,
                0 <= i <= ns.len(),
                first_node_with_id(ns, id) == first_node_with_id(ns.skip(i as int), id),
            decreases ns.len() - i,
        {
            proof {
                assert(ns.skip(i as int)[0] == ns[i as int]);
                assert(ns.skip(i as int).skip(1) =~= ns.skip(i + 1));
            }
            if self.nodes[i].id == id {
                let n = &self.nodes[i];
                assert(first_node_with_id(ns.skip(i as int), id) == Some(ns[i as int]));
                return Some(n);
            }
            i = i + 1;
        }
        assert(ns.skip(ns.len() as int) =~= Seq::<Node<T>>::empty());
        None
    }

    /// The whole node sequence, in insertion order, as references.
    pub fn get_all_nodes(&self) -> (r: Vec<&Node<T>>)
        ensures
            r@.len() == self@.nodes.len(),
            forall|i: int| 0 <= i < r@.len() ==> *(#[trigger] r@[i]) == self@.nodes[i],
    {
        let mut r: Vec<&Node<T>> = Vec::new();
        let mut i: usize = 0;
        while i < self.nodes.len()
            invariant
                0 <= i <= self@.nodes.len(),
                r@.len() == i,
                forall|k: int| 0 <= k < i ==> *(#[trigger] r@[k]) == self@.nodes[k],
            decreases self@.nodes.len() - i,
        {
            r.push(&self.nodes[i]);
            i = i + 1;
        }
        r
    }

    /// The target node of every edge beginning at the given node, in edge
    /// insertion order.
    pub fn get_connected(&self, node: &Node<T>) -> (r: Vec<&Node<T>>)
        ensures
            r@.len() == connected_nodes(self@.nodes, self@.edges, node.id).len(),
            forall|i: int|
                0 <= i < r@.len() ==> *(#[trigger] r@[i]) == connected_nodes(
                    self@.nodes,
                    self@.edges,
                    node.id,
                )[i],
    {
        let ghost ns = self@.nodes;
        let ghost es = self@.edges;
        let ghost full = connected_nodes(ns, es, node.id);
        let mut r: Vec<&Node<T>> = Vec::new();
        let mut i: usize = 0;
        proof {
            assert(es.skip(0) =~= es);
        }
        while i < self.edges.len()
            invariant
                ns == self@.nodes,
                es == self@.edges,
                0 <= i <= es.len(),
                r@.len() + connected_nodes(ns, es.skip(i as int), node.id).len() == full.len(),
                forall|k: int| 0 <= k < r@.len() ==> *(#[trigger] r@[k]) == full[k],
                forall|k: int|
                    0 <= k < connected_nodes(ns, es.skip(i as int), node.id).len() ==> #[trigger]
                    connected_nodes(ns, es.skip(i as int), node.id)[k] == full[r@.len() + k],
            decreases es.len() - i,
        {
            let ghost rest = es.skip(i as int);
            proof {
                assert(rest[0] == es[i as int]);
                assert(rest.skip(1) =~= es.skip(i + 1));
            }
            if self.edges[i].begin == node.id {
                match self.find_node(self.edges[i].end) {
                    Some(n) => {
                        proof {
                            assert(connected_nodes(ns, rest, node.id) == seq![*n]
                                + connected_nodes(ns, es.skip(i + 1), node.id));
                            assert(connected_nodes(ns, rest, node.id)[0] == *n);
                            assert(full[r@.len() as int] == *n);
                        }
                        r.push(n);
                        proof {
                            assert forall|k: int|
                                0 <= k < connected_nodes(ns, es.skip(i + 1), node.id).len() implies
                                #[trigger] connected_nodes(ns, es.skip(i + 1), node.id)[k] == full[
                                r@.len() + k] by {
                                assert(connected_nodes(ns, rest, node.id)[k + 1]
                                    == connected_nodes(ns, es.skip(i + 1), node.id)[k]);
                            }
                        }
                    },
                    None => {
                    },
                }
            }
            i = i + 1;
        }
        proof {
            assert(es.skip(es.len() as int) =~= Seq::<Edge>::empty());
        }
        r
    }


    /// The whole graph as text: node lines, the `#` separator, edge lines,
    /// each line closed by a newline.
    pub fn ser(&self) -> (r: String)
        ensures
            r@ == ser_text(self@),
    {
        let ghost gv = self@;
        let mut out: Vec<char> = Vec::new();
        let mut i: usize = 0;
        proof {
            assert(gv.nodes.take(0) =~= Seq::<Node<T>>::empty());
            assert(out@ =~= cat_lines(node_lines(gv.nodes.take(0))));
        }
        while i < self.nodes.len()
            invariant
                gv == self@,
                0 <= i <= gv.nodes.len(),
                out@ == cat_lines(node_lines(gv.nodes.take(i as int))),
            decreases gv.nodes.len() - i,
        {
            let mut lc = self.nodes[i].line_chars();
            out.append(&mut lc);
            out.push('\n');
            proof {
                assert(gv.nodes.take(i + 1).drop_last() =~= gv.nodes.take(i as int));
                assert(gv.nodes.take(i + 1).last() == gv.nodes[i as int]);
                let nl = node_lines(gv.nodes.take(i + 1));
                assert(nl == node_lines(gv.nodes.take(i as int)).push(
                    node_line(gv.nodes[i as int]),
                ));
                assert(nl.drop_last() =~= node_lines(gv.nodes.take(i as int)));
                assert(out@ =~= cat_lines(nl));
            }
            i = i + 1;
        }
        proof {
            assert(gv.nodes.take(gv.nodes.len() as int) =~= gv.nodes);
        }
        out.push('#');
        out.push('\n');
        let ghost mid = out@;
        let mut j: usize = 0;
        proof {
            assert(gv.edges.take(0) =~= Seq::<Edge>::empty());
            assert(out@ =~= mid + cat_lines(edge_lines(gv.edges.take(0))));
        }
        while j < self.edges.len()
            invariant
                gv == self@,
                0 <= j <= gv.edges.len(),
                out@ == mid + cat_lines(edge_lines(gv.edges.take(j as int))),
                mid == cat_lines(node_lines(gv.nodes)) + seq!['#', '\n'],
            decreases gv.edges.len() - j,
        {
            let mut lc = self.edges[j].line_chars();
            out.append(&mut lc);
            out.push('\n');
            proof {
                assert(gv.edges.take(j + 1).drop_last() =~= gv.edges.take(j as int));
                assert(gv.edges.take(j + 1).last() == gv.edges[j as int]);
                let el = edge_lines(gv.edges.take(j + 1));
                assert(el == edge_lines(gv.edges.take(j as int)).push(
                    edge_line(gv.edges[j as int]),
                ));
                assert(el.drop_last() =~= edge_lines(gv.edges.take(j as int)));
                assert(out@ =~= mid + cat_lines(el));
            }
            j = j + 1;
        }
        proof {
            assert(gv.edges.take(gv.edges.len() as int) =~= gv.edges);
            let hash = seq![seq!['#']];
            assert(hash.drop_last() =~= Seq::<Seq<char>>::empty());
            assert(cat_lines(hash) =~= seq!['#', '\n']);
            lemma_cat_lines_add(node_lines(gv.nodes), hash);
            lemma_cat_lines_add(node_lines(gv.nodes) + hash, edge_lines(gv.edges));
            assert((node_lines(gv.nodes) + hash) + edge_lines(gv.edges) =~= ser_lines(gv));
            assert(out@ =~= ser_text(gv));
        }
        string_of(&out)
    }

    /// Rebuilds a graph from text, or reports the first failure: a line
    /// that does not decode, a duplicate node, or an invalid edge.
    pub fn deser(s: &str) -> (r: Result<Self, GraphError>)
        ensures
            match r {
                Ok(g) => deser_text::<T>(s@) == Ok::<(Seq<Node<T>>, Seq<Edge>), ErrV>(
                    (g@.nodes, g@.edges),
                ) && g@.wf(),
                Err(e) => deser_text::<T>(s@) == Err::<(Seq<Node<T>>, Seq<Edge>), ErrV>(e@),
            },
    {
        let cs = chars_of(s);
        let lines = split_lines_exec(&cs);
        let ghost ls = split_lines(s@);
        let mut g = Self::new();
        let mut in_edges = false;
        let mut i: usize = 0;
        proof {
            assert(ls.skip(0) =~= ls);
            assert(g@.nodes =~= Seq::<Node<T>>::empty());
            assert(g@.edges =~= Seq::<Edge>::empty());
        }
        while i < lines.len()
            invariant
                ls == split_lines(s@),
                lines.deep_view() == ls,
                0 <= i <= ls.len(),
                g@.wf(),
                deser_lines(ls.skip(i as int), g@.nodes, g@.edges, in_edges) == deser_text::<T>(
                    s@,
                ),
            decreases ls.len() - i,
        {
            let ghost l = ls[i as int];
            let ghost rest = ls.skip(i as int);
            proof {
                assert(l =~= lines@[i as int]@);
                assert(rest[0] == l);
                assert(rest.skip(1) =~= ls.skip(i + 1));
            }
            let line = &lines[i];
            if line.len() == 1 && line[0] == '#' {
                proof {
                    assert(l =~= seq!['#']);
                }
                in_edges = true;
            } else {
                proof {
                    if l == seq!['#'] {
                        assert(l.len() == 1 && l[0] == '#');
                        assert(line@[0] == '#');
                    }
                }
                let lstr = string_of(line);
                if !in_edges {
                    match Node::<T>::deser(lstr.as_str()) {
                        Err(e) => {
                            return Err(e);
                        },
                        Ok(n) => {
                            let ghost nid = n.id;
                            match g.add_node_from(n) {
                                Err(e) => {
                                    return Err(e);
                                },
                                Ok(()) => {
                                },
                            }
                        },
                    }
                } else {
                    match Edge::deser(lstr.as_str()) {
                        Err(e) => {
                            return Err(e);
                        },
                        Ok(edge) => {
                            match g.add_edge_from(edge) {
                                Err(e) => {
                                    return Err(e);
                                },
                                Ok(()) => {
                                },
                            }
                        },
                    }
                }
            }
            i = i + 1;
        }
        proof {
            assert(ls.skip(ls.len() as int) =~= Seq::<Seq<char>>::empty());
        }
        Ok(g)
    }

    /// Removes the node with this identifier, if any, together with every
    /// edge that begins or ends at it. Absence is a no-op, not an error.
    pub fn remove_node_by_id(&mut self, node_id: u32)
        ensures
            final(self)@.nodes == without_node(old(self)@.nodes, node_id),
            final(self)@.edges == without_incident(old(self)@.edges, node_id),
            old(self)@.wf() ==> final(self)@.wf(),
    {
        let ghost pre = self@;
        let mut kept: Vec<Edge> = Vec::new();
        let mut i: usize = 0;
        proof {
            assert(pre.edges.take(0) =~= Seq::<Edge>::empty());
        }
        while i < self.edges.len()
            invariant
                self@ == pre,
                0 <= i <= pre.edges.len(),
                kept@ == without_incident(pre.edges.take(i as int), node_id),
            decreases pre.edges.len() - i,
        {
            let e = self.edges[i];
            proof {
                assert(pre.edges.take(i + 1).drop_last() =~= pre.edges.take(i as int));
                assert(pre.edges.take(i + 1).last() == pre.edges[i as int]);
            }
            if !(node_id == e.begin || node_id == e.end) {
                kept.push(e);
            }
            assert(kept@ =~= without_incident(pre.edges.take(i + 1), node_id));
            i = i + 1;
        }
        proof {
            assert(pre.edges.take(pre.edges.len() as int) =~= pre.edges);
        }
        self.edges = kept;
        let ghost onodes = pre.nodes;
        let mut j: usize = 0;
        let ghost mut k: int = 0;
        proof {
            assert(onodes.take(0) =~= Seq::<Node<T>>::empty());
            assert(onodes.skip(0) =~= onodes);
        }
        while j < self.nodes.len()
            invariant
                self@.edges == without_incident(pre.edges, node_id),
                0 <= k <= onodes.len(),
                j as int == without_node(onodes.take(k), node_id).len(),
                self@.nodes == without_node(onodes.take(k), node_id) + onodes.skip(k),
            decreases onodes.len() - k,
        {
            proof {
                assert(self@.nodes.len() == j + (onodes.len() - k));
                assert(k < onodes.len());
                assert(onodes.skip(k)[0] == onodes[k]);
                assert(self@.nodes[j as int] == onodes[k]);
                assert(onodes.take(k + 1).drop_last() =~= onodes.take(k));
                assert(onodes.take(k + 1).last() == onodes[k]);
                assert(onodes.skip(k).skip(1) =~= onodes.skip(k + 1));
            }
            let cur = self.nodes[j].id;
            assert(cur == onodes[k].id);
            if cur == node_id {
                self.nodes.remove(j);
                proof {
                    assert(self@.nodes =~= without_node(onodes.take(k + 1), node_id)
                        + onodes.skip(k + 1));
                }
            } else {
                proof {
                    assert(self@.nodes =~= without_node(onodes.take(k + 1), node_id)
                        + onodes.skip(k + 1));
                }
                j = j + 1;
            }
            proof {
                k = k + 1;
            }
        }
        proof {
            assert(k == onodes.len());
            assert(onodes.take(k) =~= onodes);
            assert(onodes.skip(k) =~= Seq::<Node<T>>::empty());
            assert(self@.nodes =~= without_node(onodes, node_id));
            if pre.wf() {
                let post = self@;
                lemma_without_node_props(onodes, node_id);
                lemma_without_incident_props(pre.edges, node_id);
                assert forall|i2: int|
                    0 <= i2 < post.edges.len() implies post.has_node_id(
                    #[trigger] post.edges[i2].begin,
                ) && post.has_node_id(post.edges[i2].end) by {
                    assert(pre.edges.contains(post.edges[i2]));
                    let a = choose|a: int|
                        0 <= a < pre.edges.len() && pre.edges[a] == post.edges[i2];
                    assert(pre.has_node_id(pre.edges[a].begin));
                    assert(pre.has_node_id(pre.edges[a].end));
                    assert(!(node_id == post.edges[i2].begin || node_id == post.edges[i2].end));
                    let b = choose|b: int|
                        0 <= b < pre.nodes.len() && pre.nodes[b].id == pre.edges[a].begin;
                    assert(without_node(onodes, node_id).contains(onodes[b])) by {
                        lemma_without_node_keeps(onodes, node_id, b);
                    }
                    let b2 = choose|b2: int|
                        0 <= b2 < post.nodes.len() && post.nodes[b2] == onodes[b];
                    assert(post.nodes[b2].id == post.edges[i2].begin);
                    let c = choose|c: int|
                        0 <= c < pre.nodes.len() && pre.nodes[c].id == pre.edges[a].end;
                    assert(without_node(onodes, node_id).contains(onodes[c])) by {
                        lemma_without_node_keeps(onodes, node_id, c);
                    }
                    let c2 = choose|c2: int|
                        0 <= c2 < post.nodes.len() && post.nodes[c2] == onodes[c];
                    assert(post.nodes[c2].id == post.edges[i2].end);
                }
            }
        }
    }

    /// Removes the edge whose `begin` and `end` both equal the given
    /// edge's. Absence is a no-op, not an error.
    pub fn remove_edge(&mut self, edge: &Edge)
        ensures
            final(self)@.nodes == old(self)@.nodes,
            final(self)@.edges == without_pair(old(self)@.edges, edge.begin, edge.end),
            old(self)@.wf() ==> final(self)@.wf(),
    {
        let ghost pre = self@;
        let mut kept: Vec<Edge> = Vec::new();
        let mut i: usize = 0;
        proof {
            assert(pre.edges.take(0) =~= Seq::<Edge>::empty());
        }
        while i < self.edges.len()
            invariant
                self@ == pre,
                0 <= i <= pre.edges.len(),
                kept@ == without_pair(pre.edges.take(i as int), edge.begin, edge.end),
            decreases pre.edges.len() - i,
        {
            let e = self.edges[i];
            proof {
                assert(pre.edges.take(i + 1).drop_last() =~= pre.edges.take(i as int));
                assert(pre.edges.take(i + 1).last() == pre.edges[i as int]);
            }
            if !(e.begin == edge.begin && e.end == edge.end) {
                kept.push(e);
            }
            assert(kept@ =~= without_pair(pre.edges.take(i + 1), edge.begin, edge.end));
            i = i + 1;
        }
        proof {
            assert(pre.edges.take(pre.edges.len() as int) =~= pre.edges);
        }
        self.edges = kept;
        proof {
            if pre.wf() {
                let post = self@;
                lemma_without_pair_props(pre.edges, edge.begin, edge.end);
                assert forall|i2: int|
                    0 <= i2 < post.edges.len() implies post.has_node_id(
                    #[trigger] post.edges[i2].begin,
                ) && post.has_node_id(post.edges[i2].end) by {
                    assert(pre.edges.contains(post.edges[i2]));
                    let a = choose|a: int|
                        0 <= a < pre.edges.len() && pre.edges[a] == post.edges[i2];
                    assert(pre.has_node_id(pre.edges[a].begin));
                    assert(pre.has_node_id(pre.edges[a].end));
                    let b = choose|b: int|
                        0 <= b < pre.nodes.len() && pre.nodes[b].id == pre.edges[a].begin;
                    assert(post.nodes[b].id == post.edges[i2].begin);
                    let c = choose|c: int|
                        0 <= c < pre.nodes.len() && pre.nodes[c].id == pre.edges[a].end;
                    assert(post.nodes[c].id == post.edges[i2].end);
                }
            }
        }
    }

}

impl<T> Node<T> {
    /// A node with the given identifier and value.
    pub fn new(id: u32, value: T) -> (n: Self)
        ensures
            n == (Node { id, value }),
    {
        Node { id, value }
    }
}

impl Edge {
    /// An edge from `begin` to `end`.
    pub fn new(begin: u32, end: u32) -> (e: Self)
        ensures
            e == (Edge { begin, end }),
    {
        Edge { begin, end }
    }

    /// The characters of this edge's text line.
    fn line_chars(&self) -> (r: Vec<char>)
        ensures
            r@ == edge_line(*self),
    {
        let mut cs: Vec<char> = Vec::new();
        push_dec(self.begin, &mut cs);
        cs.push(' ');
        push_dec(self.end, &mut cs);
        proof {
            assert(cs@ =~= edge_line(*self));
        }
        cs
    }

    /// This edge's text line: `"<begin> <end>"`.
    pub fn ser(&self) -> (r: String)
        ensures
            r@ == edge_line(*self),
    {
        let cs = self.line_chars();
        string_of(&cs)
    }

    /// Decodes one text line into an edge, or says why it cannot.
    pub fn deser(s: &str) -> (r: Result<Self, GraphError>)
        ensures
            match r {
                Ok(e) => parse_edge_line(s@) == Some(e),
                Err(e) => parse_edge_line(s@) is None && (e matches GraphError::Parse(l) && l@
                    == s@),
            },
    {
        let cs = chars_of(s);
        match split2_exec(&cs) {
            None => Err(GraphError::Parse(s.to_owned())),
            Some((a, b)) => match parse_u32_token(&a) {
                None => Err(GraphError::Parse(s.to_owned())),
                Some(begin) => match parse_u32_token(&b) {
                    None => Err(GraphError::Parse(s.to_owned())),
                    Some(end) => Ok(Edge { begin, end }),
                },
            },
        }
    }

}

impl<T: TokenValue> Node<T> {
    /// The characters of this node's text line.
    fn line_chars(&self) -> (r: Vec<char>)
        ensures
            r@ == node_line(*self),
    {
        let mut cs: Vec<char> = Vec::new();
        push_dec(self.id, &mut cs);
        cs.push(' ');
        let vs = self.value.encode();
        let mut vcs = chars_of(vs.as_str());
        cs.append(&mut vcs);
        proof {
            assert(cs@ =~= node_line(*self));
        }
        cs
    }

    /// This node's text line: `"<id> <value>"`.
    pub fn ser(&self) -> (r: String)
        ensures
            r@ == node_line(*self),
    {
        let cs = self.line_chars();
        string_of(&cs)
    }

    /// Decodes one text line into a node, or says why it cannot.
    pub fn deser(s: &str) -> (r: Result<Self, GraphError>)
        ensures
            match r {
                Ok(n) => parse_node_line::<T>(s@) == Some(n),
                Err(e) => parse_node_line::<T>(s@) is None && (e matches GraphError::Parse(l)
                    && l@ == s@),
            },
    {
        let cs = chars_of(s);
        match split2_exec(&cs) {
            None => Err(GraphError::Parse(s.to_owned())),
            Some((a, b)) => match parse_u32_token(&a) {
                None => Err(GraphError::Parse(s.to_owned())),
                Some(id) => {
                    let bs = string_of(&b);
                    match T::decode(bs.as_str()) {
                        None => Err(GraphError::Parse(s.to_owned())),
                        Some(value) => Ok(Node { id, value }),
                    }
                },
            },
        }
    }
}


} // verus!
