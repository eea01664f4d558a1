//! The laws the graph obeys, stated and proved once and for all: edge
//! idempotence, cascade deletion, and the serialization round trip.

use vstd::prelude::*;
use crate::graph::{cat_lines, deser_lines, deser_text, edge_line, edge_lines, node_line,
    node_lines, parse_edge_line, parse_node_line, ser_lines, ser_text, without_incident, Edge,
    ErrV, GraphV, Node};
use crate::text::{dec_digits, lemma_dec_digits, lemma_digits_no_separators, lemma_first_nl_at,
    lemma_split2_exact, parse_u32, split_lines};
use crate::token::TokenValue;

verus! {

/// A well-formed graph holds exactly one edge for a pair it has: adding
/// the same edge again changes nothing, so the serialized output carries
/// one line for it.
pub proof fn lemma_edge_idempotence<T>(g: GraphV<T>, begin: u32, end: u32)
    requires
        g.wf(),
        g.has_edge(begin, end),
    ensures
        exists|i: int|
            0 <= i < g.edges.len() && g.edges[i].begin == begin && g.edges[i].end == end,
        forall|i: int, j: int|
            (0 <= i < g.edges.len() && 0 <= j < g.edges.len() && (#[trigger] g.edges[i]).begin
                == begin && g.edges[i].end == end && (#[trigger] g.edges[j]).begin == begin
                && g.edges[j].end == end) ==> i == j,
{
}

/// Removing a node removes every edge incident to it: no remaining edge
/// begins or ends at the removed identifier.
pub proof fn lemma_cascade_delete(es: Seq<Edge>, id: u32)
    ensures
        forall|i: int|
            0 <= i < without_incident(es, id).len() ==> (#[trigger] without_incident(
                es,
                id,
            )[i]).begin != id && without_incident(es, id)[i].end != id,
    decreases es.len(),
{
    if es.len() > 0 {
        lemma_cascade_delete(es.drop_last(), id);
        let f = without_incident(es, id);
        let fd = without_incident(es.drop_last(), id);
        assert forall|i: int|
            0 <= i < f.len() implies (#[trigger] f[i]).begin != id && f[i].end != id by {
            if !(id == es.last().begin || id == es.last().end) && i == f.len() - 1 {
                assert(f[i] == es.last());
            } else {
                assert(f[i] == fd[i]);
            }
        }
    }
}

/// The lines of the node section, indexed.
proof fn lemma_node_lines_index<T: TokenValue>(ns: Seq<Node<T>>)
    ensures
        node_lines(ns).len() == ns.len(),
        forall|i: int| 0 <= i < ns.len() ==> #[trigger] node_lines(ns)[i] == node_line(ns[i]),
    decreases ns.len(),
{
    if ns.len() > 0 {
        lemma_node_lines_index(ns.drop_last());
        assert forall|i: int| 0 <= i < ns.len() implies #[trigger] node_lines(ns)[i] == node_line(
            ns[i],
        ) by {
            if i < ns.len() - 1 {
                assert(ns.drop_last()[i] == ns[i]);
            } else {
                assert(ns[i] == ns.last());
            }
        }
    }
}

/// The lines of the edge section, indexed.
proof fn lemma_edge_lines_index(es: Seq<Edge>)
    ensures
        edge_lines(es).len() == es.len(),
        forall|i: int| 0 <= i < es.len() ==> #[trigger] edge_lines(es)[i] == edge_line(es[i]),
    decreases es.len(),
{
    if es.len() > 0 {
        lemma_edge_lines_index(es.drop_last());
        assert forall|i: int| 0 <= i < es.len() implies #[trigger] edge_lines(es)[i] == edge_line(
            es[i],
        ) by {
            if i < es.len() - 1 {
                assert(es.drop_last()[i] == es[i]);
            } else {
                assert(es[i] == es.last());
            }
        }
    }
}

/// Joined lines read back from the head: the first line, a newline, the rest.
proof fn lemma_cat_lines_head(ls: Seq<Seq<char>>)
    requires
        ls.len() > 0,
    ensures
        cat_lines(ls) == ls[0] + seq!['\n'] + cat_lines(ls.skip(1)),
    decreases ls.len(),
{
    if ls.len() == 1 {
        assert(ls.drop_last() =~= Seq::<Seq<char>>::empty());
        assert(cat_lines(ls.drop_last()) =~= Seq::<char>::empty());
        assert(ls.skip(1) =~= Seq::<Seq<char>>::empty());
        assert(cat_lines(ls.skip(1)) =~= Seq::<char>::empty());
        assert(ls.last() == ls[0]);
        assert(cat_lines(ls) =~= ls[0] + seq!['\n'] + cat_lines(ls.skip(1)));
    } else {
        let d = ls.drop_last();
        lemma_cat_lines_head(d);
        assert(d[0] == ls[0]);
        assert(ls.skip(1).drop_last() =~= d.skip(1));
        assert(ls.skip(1).last() == ls.last());
        assert(cat_lines(ls.skip(1)) == cat_lines(d.skip(1)) + ls.last() + seq!['\n']);
        assert(cat_lines(ls) =~= ls[0] + seq!['\n'] + cat_lines(ls.skip(1)));
    }
}

/// Splitting undoes joining, for lines that hold no newline.
proof fn lemma_split_cat(ls: Seq<Seq<char>>)
    requires
        forall|i: int, k: int|
            0 <= i < ls.len() && 0 <= k < ls[i].len() ==> #[trigger] ls[i][k] != '\n',
    ensures
        split_lines(cat_lines(ls)) == ls,
    decreases ls.len(),
{
    if ls.len() == 0 {
        assert(cat_lines(ls) =~= Seq::<char>::empty());
        assert(split_lines(cat_lines(ls)) =~= ls);
    } else {
        lemma_cat_lines_head(ls);
        let l = ls[0];
        let s = cat_lines(ls);
        let rest = cat_lines(ls.skip(1));
        assert forall|k: int| 0 <= k < l.len() implies s[k] != '\n' by {
            assert(s[k] == l[k]);
        }
        assert(s[l.len() as int] == '\n');
        lemma_first_nl_at(s, l.len() as int);
        assert(s.len() > l.len());
        assert(s.take(l.len() as int) =~= l);
        assert(s.skip(l.len() as int + 1) =~= rest);
        assert forall|i: int, k: int|
            0 <= i < ls.skip(1).len() && 0 <= k < ls.skip(1)[i].len() implies #[trigger] ls.skip(
            1,
        )[i][k] != '\n' by {
            assert(ls.skip(1)[i] == ls[i + 1]);
        }
        lemma_split_cat(ls.skip(1));
        assert(split_lines(s) =~= ls);
    }
}

/// A node's own line decodes back to the node.
proof fn lemma_node_line_roundtrip<T: TokenValue>(n: Node<T>)
    ensures
        parse_node_line::<T>(node_line(n)) == Some(n),
        node_line(n).len() >= 3,
        forall|k: int| 0 <= k < node_line(n).len() ==> #[trigger] node_line(n)[k] != '\n',
{
    let d = dec_digits(n.id as nat);
    let tok = n.value.token();
    lemma_dec_digits(n.id as nat);
    lemma_digits_no_separators(d);
    n.value.lemma_token_valid();
    let a = d + seq![' '] + tok;
    assert(a =~= (d + (seq![' '] + tok)));
    lemma_split2_exact(d, tok);
    assert(d + seq![' '] + tok =~= node_line(n));
    assert(parse_u32(d) == Some(n.id));
    assert forall|k: int| 0 <= k < node_line(n).len() implies #[trigger] node_line(n)[k]
        != '\n' by {
        let l = node_line(n);
        if k < d.len() {
            assert(l[k] == d[k]);
        } else if k == d.len() {
            assert(l[k] == ' ');
        } else {
            assert(l[k] == tok[k - d.len() - 1]);
        }
    }
}

/// An edge's own line decodes back to the edge.
proof fn lemma_edge_line_roundtrip(e: Edge)
    ensures
        parse_edge_line(edge_line(e)) == Some(e),
        edge_line(e).len() >= 3,
        forall|k: int| 0 <= k < edge_line(e).len() ==> #[trigger] edge_line(e)[k] != '\n',
{
    let b = dec_digits(e.begin as nat);
    let d = dec_digits(e.end as nat);
    lemma_dec_digits(e.begin as nat);
    lemma_dec_digits(e.end as nat);
    lemma_digits_no_separators(b);
    lemma_digits_no_separators(d);
    lemma_split2_exact(b, d);
    assert(b + seq![' '] + d =~= edge_line(e));
    assert(parse_u32(b) == Some(e.begin));
    assert(parse_u32(d) == Some(e.end));
    assert forall|k: int| 0 <= k < edge_line(e).len() implies #[trigger] edge_line(e)[k]
        != '\n' by {
        let l = edge_line(e);
        if k < b.len() {
            assert(l[k] == b[k]);
        } else if k == b.len() {
            assert(l[k] == ' ');
        } else {
            assert(l[k] == d[k - b.len() - 1]);
        }
    }
}

/// Replaying the edge lines of a well-formed graph, after all its nodes,
/// rebuilds exactly its edge sequence.
proof fn lemma_deser_edge_stage<T: TokenValue>(g: GraphV<T>, k: int)
    requires
        g.wf(),
        0 <= k <= g.edges.len(),
    ensures
        deser_lines(edge_lines(g.edges).skip(k), g.nodes, g.edges.take(k), true) == Ok::<
            (Seq<Node<T>>, Seq<Edge>),
            ErrV,
        >((g.nodes, g.edges)),
    decreases g.edges.len() - k,
{
    lemma_edge_lines_index(g.edges);
    let ls = edge_lines(g.edges).skip(k);
    if k == g.edges.len() {
        assert(ls.len() == 0);
        assert(g.edges.take(k) =~= g.edges);
    } else {
        let e = g.edges[k];
        lemma_edge_line_roundtrip(e);
        assert(ls[0] == edge_line(e));
        assert(ls[0].len() >= 3);
        assert(ls[0] != seq!['#']) by {
            assert(seq!['#'].len() == 1);
        }
        let cur = GraphV { nodes: g.nodes, edges: g.edges.take(k) };
        assert(g.has_node_id(e.begin) && g.has_node_id(e.end));
        assert(cur.has_node_id(e.begin) && cur.has_node_id(e.end)) by {
            let i = choose|i: int| 0 <= i < g.nodes.len() && g.nodes[i].id == e.begin;
            assert(cur.nodes[i].id == e.begin);
            let j = choose|j: int| 0 <= j < g.nodes.len() && g.nodes[j].id == e.end;
            assert(cur.nodes[j].id == e.end);
        }
        assert(!cur.has_edge(e.begin, e.end)) by {
            if cur.has_edge(e.begin, e.end) {
                let i = choose|i: int|
                    0 <= i < cur.edges.len() && cur.edges[i].begin == e.begin && cur.edges[i].end
                        == e.end;
                assert(g.edges[i].begin == g.edges[k].begin && g.edges[i].end == g.edges[k].end);
                assert(false);
            }
        }
        assert(g.edges.take(k).push(e) =~= g.edges.take(k + 1));
        assert(ls.skip(1) =~= edge_lines(g.edges).skip(k + 1));
        lemma_deser_edge_stage(g, k + 1);
    }
}

/// Replaying the node lines of a well-formed graph, then the separator,
/// then its edge lines, rebuilds exactly its two sequences.
proof fn lemma_deser_node_stage<T: TokenValue>(g: GraphV<T>, k: int)
    requires
        g.wf(),
        0 <= k <= g.nodes.len(),
    ensures
        deser_lines(
            node_lines(g.nodes).skip(k) + seq![seq!['#']] + edge_lines(g.edges),
            g.nodes.take(k),
            Seq::empty(),
            false,
        ) == Ok::<(Seq<Node<T>>, Seq<Edge>), ErrV>((g.nodes, g.edges)),
    decreases g.nodes.len() - k,
{
    lemma_node_lines_index(g.nodes);
    let ls = node_lines(g.nodes).skip(k) + seq![seq!['#']] + edge_lines(g.edges);
    if k == g.nodes.len() {
        assert(node_lines(g.nodes).skip(k).len() == 0);
        assert(ls[0] =~= seq!['#']);
        assert(ls.skip(1) =~= edge_lines(g.edges).skip(0));
        assert(g.nodes.take(k) =~= g.nodes);
        assert(g.edges.take(0) =~= Seq::<Edge>::empty());
        lemma_deser_edge_stage(g, 0);
        assert(deser_lines(ls.skip(1), g.nodes, Seq::empty(), true) == Ok::<
            (Seq<Node<T>>, Seq<Edge>),
            ErrV,
        >((g.nodes, g.edges)));
    } else {
        let n = g.nodes[k];
        lemma_node_line_roundtrip(n);
        assert(ls[0] == node_line(n));
        assert(ls[0].len() >= 3);
        assert(ls[0] != seq!['#']) by {
            assert(seq!['#'].len() == 1);
        }
        let cur = GraphV { nodes: g.nodes.take(k), edges: Seq::<Edge>::empty() };
        assert(!cur.has_node_id(n.id)) by {
            if cur.has_node_id(n.id) {
                let i = choose|i: int| 0 <= i < cur.nodes.len() && cur.nodes[i].id == n.id;
                assert(g.nodes[i].id == g.nodes[k].id);
                assert(false);
            }
        }
        assert(g.nodes.take(k).push(n) =~= g.nodes.take(k + 1));
        assert(ls.skip(1) =~= node_lines(g.nodes).skip(k + 1) + seq![seq!['#']] + edge_lines(
            g.edges,
        ));
        lemma_deser_node_stage(g, k + 1);
    }
}

/// The round trip: deserializing what a well-formed graph serializes to
/// yields back exactly its node sequence and its edge sequence.
pub proof fn lemma_round_trip<T: TokenValue>(g: GraphV<T>)
    requires
        g.wf(),
    ensures
        deser_text::<T>(ser_text(g)) == Ok::<(Seq<Node<T>>, Seq<Edge>), ErrV>(
            (g.nodes, g.edges),
        ),
{
    let ls = ser_lines(g);
    lemma_node_lines_index(g.nodes);
    lemma_edge_lines_index(g.edges);
    assert forall|i: int, k: int|
        0 <= i < ls.len() && 0 <= k < ls[i].len() implies #[trigger] ls[i][k] != '\n' by {
        let nn = node_lines(g.nodes).len() as int;
        if i < nn {
            lemma_node_line_roundtrip(g.nodes[i]);
            assert(ls[i] == node_line(g.nodes[i]));
        } else if i == nn {
            assert(ls[i] =~= seq!['#']);
        } else {
            lemma_edge_line_roundtrip(g.edges[i - nn - 1]);
            assert(ls[i] == edge_line(g.edges[i - nn - 1]));
        }
    }
    lemma_split_cat(ls);
    assert(ls.skip(0) =~= ls);
    assert(node_lines(g.nodes).skip(0) =~= node_lines(g.nodes));
    assert(g.nodes.take(0) =~= Seq::<Node<T>>::empty());
    lemma_deser_node_stage(g, 0);
}

} // verus!
