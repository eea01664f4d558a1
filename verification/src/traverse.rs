//! Depth-first traversal with cycle protection.
//!
//! The traversal starts at a root, visits a node before its successors,
//! takes successors in edge-insertion order, and suppresses every revisit
//! of an identifier already seen, so it terminates on any finite graph,
//! cycles included.

use vstd::prelude::*;
use crate::graph::{connected_nodes, first_node_with_id, Edge, Graph, GraphV, Node};
use crate::token::TokenValue;

verus! {

/// The identifiers a node sequence carries.
pub open spec fn ids_of<T>(ns: Seq<Node<T>>) -> Set<u32>
    decreases ns.len(),
{
    if ns.len() == 0 {
        Set::empty()
    } else {
        ids_of(ns.drop_last()).insert(ns.last().id)
    }
}

/// `ids_of` is finite and holds exactly the identifiers of the sequence.
pub proof fn lemma_ids_of<T>(ns: Seq<Node<T>>)
    ensures
        ids_of(ns).finite(),
        forall|id: u32|
            #[trigger] ids_of(ns).contains(id) <==> exists|i: int|
                0 <= i < ns.len() && ns[i].id == id,
    decreases ns.len(),
{
    broadcast use vstd::set::group_set_axioms;

    if ns.len() > 0 {
        let d = ns.drop_last();
        lemma_ids_of(d);
        assert forall|id: u32| #[trigger]
            ids_of(ns).contains(id) <==> exists|i: int| 0 <= i < ns.len() && ns[i].id == id by {
            if ids_of(ns).contains(id) {
                if id == ns.last().id {
                    assert(ns[ns.len() - 1].id == id);
                } else {
                    let i = choose|i: int| 0 <= i < d.len() && d[i].id == id;
                    assert(ns[i].id == id);
                }
            }
            if exists|i: int| 0 <= i < ns.len() && ns[i].id == id {
                let i = choose|i: int| 0 <= i < ns.len() && ns[i].id == id;
                if i == ns.len() - 1 {
                } else {
                    assert(d[i].id == id);
                }
            }
        }
    }
}

/// The targets of every edge beginning at `id`, in edge order.
pub open spec fn succ_ids(es: Seq<Edge>, id: u32) -> Seq<u32>
    decreases es.len(),
{
    if es.len() == 0 {
        Seq::empty()
    } else {
        let rest = succ_ids(es.skip(1), id);
        if es[0].begin == id {
            seq![es[0].end] + rest
        } else {
            rest
        }
    }
}

/// How many node identifiers a traversal has not visited yet.
pub open spec fn unvisited<T>(g: GraphV<T>, vis: Set<u32>) -> nat {
    ids_of(g.nodes).difference(vis).len()
}

/// The depth-first walk itself, over an explicit stack whose last element
/// is the top: the visit order, and the set of identifiers seen. A popped
/// identifier already seen is skipped; a fresh one is visited and its
/// successors are laid on the stack, first successor on top.
pub open spec fn dfs<T>(g: GraphV<T>, stack: Seq<u32>, vis: Set<u32>) -> (Seq<u32>, Set<u32>)
    decreases unvisited(g, vis), stack.len(),
    via dfs_dec::<T>
{
    if stack.len() == 0 {
        (Seq::empty(), vis)
    } else {
        let id = stack.last();
        let rest = stack.drop_last();
        if vis.contains(id) {
            dfs(g, rest, vis)
        } else if !ids_of(g.nodes).contains(id) {
            let r = dfs(g, rest, vis.insert(id));
            (seq![id] + r.0, r.1)
        } else {
            let r = dfs(g, rest + succ_ids(g.edges, id).reverse(), vis.insert(id));
            (seq![id] + r.0, r.1)
        }
    }
}

#[via_fn]
proof fn dfs_dec<T>(g: GraphV<T>, stack: Seq<u32>, vis: Set<u32>) {
    broadcast use vstd::set::group_set_axioms;

    lemma_ids_of(g.nodes);
    if stack.len() > 0 {
        let id = stack.last();
        if !vis.contains(id) {
            if !ids_of(g.nodes).contains(id) {
                assert(ids_of(g.nodes).difference(vis.insert(id)) =~= ids_of(
                    g.nodes,
                ).difference(vis));
            } else {
                ids_of(g.nodes).lemma_set_insert_diff_decreases(vis, id);
            }
        }
    }
}

impl<T: TokenValue> Graph<T> {
    /// Walks depth first from `root`, returning each reachable identifier
    /// exactly once, in visit order, `root` first.
    pub fn traverse_from(&self, root: &Node<T>) -> (order: Vec<u32>)
        requires
            self@.wf(),
        ensures
            order@ == dfs(self@, seq![root.id], Set::<u32>::empty()).0,
            order@.no_duplicates(),
            forall|x: u32| #[trigger] order@.contains(x) <==> reachable(self@, root.id, x),
    {
        proof {
            lemma_traverse_coverage(self@, root.id);
        }
        let ghost gv = self@;
        let ghost total = dfs(gv, seq![root.id], Set::<u32>::empty()).0;
        let mut stack: Vec<u32> = Vec::new();
        stack.push(root.id);
        let mut visited: Vec<u32> = Vec::new();
        let mut order: Vec<u32> = Vec::new();
        proof {
            broadcast use vstd::seq_lib::seq_to_set_is_finite;
            broadcast use vstd::set::group_set_axioms;

            assert(stack@ =~= seq![root.id]);
            assert(visited@.to_set() =~= Set::<u32>::empty());
            assert(order@ + dfs(gv, stack@, visited@.to_set()).0 =~= total);
        }
        while stack.len() > 0
            invariant
                gv == self@,
                gv.wf(),
                order@ + dfs(gv, stack@, visited@.to_set()).0 == total,
            decreases unvisited(gv, visited@.to_set()), stack@.len(),
        {
            broadcast use vstd::set::group_set_axioms;

            let ghost pre_stack = stack@;
            let ghost svis = visited@.to_set();
            let id = stack.pop().unwrap();
            proof {
                assert(pre_stack.last() == id);
                assert(pre_stack.drop_last() =~= stack@);
            }
            let mut vi: usize = 0;
            while vi < visited.len() && visited[vi] != id
                invariant
                    0 <= vi <= visited@.len(),
                    forall|k: int| 0 <= k < vi ==> visited@[k] != id,
                decreases visited@.len() - vi,
            {
                vi = vi + 1;
            }
            let seen = vi < visited.len();
            proof {
                if seen {
                    assert(visited@[vi as int] == id);
                }
                assert(seen == visited@.contains(id));
                assert(svis.contains(id) == visited@.contains(id));
            }
            if seen {
                proof {
                    assert(dfs(gv, pre_stack, svis) == dfs(gv, stack@, svis));
                }
            } else {
                order.push(id);
                visited.push(id);
                proof {
                    broadcast use vstd::prelude::Seq::lemma_push_to_set_commute;

                    assert(visited@.to_set() =~= svis.insert(id));
                    lemma_ids_of(gv.nodes);
                }
                if self.contains_node_id(id) {
                    proof {
                        assert(ids_of(gv.nodes).contains(id));
                    }
                    let ghost rest = stack@;
                    let ghost es = gv.edges;
                    let mut j: usize = self.edges.len();
                    proof {
                        assert(es.skip(es.len() as int).len() == 0);
                        assert(succ_ids(es.skip(es.len() as int), id).reverse() =~= Seq::<
                            u32,
                        >::empty());
                        assert(stack@ =~= rest + succ_ids(es.skip(es.len() as int), id).reverse());
                    }
                    while j > 0
                        invariant
                            gv == self@,
                            0 <= j <= es.len(),
                            es == gv.edges,
                            stack@ == rest + succ_ids(es.skip(j as int), id).reverse(),
                        decreases j,
                    {
                        let jj: usize = j - 1;
                        proof {
                            assert(es.skip(jj as int)[0] == es[jj as int]);
                            assert(es.skip(jj as int).skip(1) =~= es.skip(jj + 1));
                        }
                        if self.edges[jj].begin == id {
                            stack.push(self.edges[jj].end);
                            proof {
                                assert(succ_ids(es.skip(jj as int), id) =~= seq![es[jj as int].end]
                                    + succ_ids(es.skip(jj + 1), id));
                                assert(succ_ids(es.skip(jj as int), id).reverse() =~= succ_ids(
                                    es.skip(jj + 1),
                                    id,
                                ).reverse() + seq![es[jj as int].end]);
                                assert(stack@ =~= rest + succ_ids(es.skip(jj as int), id).reverse());
                            }
                        } else {
                            proof {
                                assert(succ_ids(es.skip(jj as int), id) =~= succ_ids(
                                    es.skip(jj + 1),
                                    id,
                                ));
                                assert(stack@ =~= rest + succ_ids(es.skip(jj as int), id).reverse());
                            }
                        }
                        j = jj;
                    }
                    proof {
                        assert(es.skip(0) =~= es);
                        assert(stack@ =~= rest + succ_ids(es, id).reverse());
                        let r = dfs(gv, rest + succ_ids(es, id).reverse(), svis.insert(id));
                        assert(dfs(gv, pre_stack, svis) == (seq![id] + r.0, r.1));
                        assert(order@ + r.0 =~= (order@.drop_last() + (seq![id] + r.0)));
                        ids_of(gv.nodes).lemma_set_insert_diff_decreases(svis, id);
                    }
                } else {
                    proof {
                        assert(!ids_of(gv.nodes).contains(id));
                        let r = dfs(gv, stack@, svis.insert(id));
                        assert(dfs(gv, pre_stack, svis) == (seq![id] + r.0, r.1));
                        assert(order@ + r.0 =~= (order@.drop_last() + (seq![id] + r.0)));
                        assert(ids_of(gv.nodes).difference(svis.insert(id)) =~= ids_of(
                            gv.nodes,
                        ).difference(svis));
                    }
                }
            }
        }
        proof {
            assert(stack@.len() == 0);
            assert(dfs(gv, stack@, visited@.to_set()).0 =~= Seq::<u32>::empty());
            assert(order@ =~= total);
        }
        order
    }
}


/// A path: consecutive identifiers joined by edges of the graph.
pub open spec fn is_path<T>(g: GraphV<T>, p: Seq<u32>) -> bool {
    p.len() > 0 && forall|i: int| 0 <= i < p.len() - 1 ==> g.has_edge(#[trigger] p[i], p[i + 1])
}

/// `to` can be reached from `from` along directed edges; every identifier
/// reaches itself.
pub open spec fn reachable<T>(g: GraphV<T>, from: u32, to: u32) -> bool {
    exists|p: Seq<u32>| is_path(g, p) && p[0] == from && p.last() == to
}

/// `succ_ids` holds exactly the targets of the edges leaving `id`.
proof fn lemma_succ_ids_contains(es: Seq<Edge>, id: u32)
    ensures
        forall|c: u32|
            #[trigger] succ_ids(es, id).contains(c) <==> exists|i: int|
                0 <= i < es.len() && es[i].begin == id && es[i].end == c,
    decreases es.len(),
{
    if es.len() > 0 {
        let rest = es.skip(1);
        lemma_succ_ids_contains(rest, id);
        let s = succ_ids(es, id);
        assert forall|c: u32| #[trigger]
            s.contains(c) <==> exists|i: int|
                0 <= i < es.len() && es[i].begin == id && es[i].end == c by {
            if s.contains(c) {
                let j = choose|j: int| 0 <= j < s.len() && s[j] == c;
                if es[0].begin == id && j == 0 {
                    assert(es[0].begin == id && es[0].end == c);
                } else {
                    let off: int = if es[0].begin == id {
                        1
                    } else {
                        0
                    };
                    assert(s[j] == succ_ids(rest, id)[j - off]);
                    assert(succ_ids(rest, id).contains(c));
                    let i = choose|i: int| 0 <= i < rest.len() && rest[i].begin == id && rest[i].end == c;
                    assert(rest[i] == es[i + 1]);
                }
            }
            if exists|i: int| 0 <= i < es.len() && es[i].begin == id && es[i].end == c {
                let i = choose|i: int| 0 <= i < es.len() && es[i].begin == id && es[i].end == c;
                if i == 0 {
                    assert(s[0] == c);
                } else {
                    assert(rest[i - 1] == es[i]);
                    assert(succ_ids(rest, id).contains(c));
                    let j = choose|j: int|
                        0 <= j < succ_ids(rest, id).len() && succ_ids(rest, id)[j] == c;
                    let off: int = if es[0].begin == id {
                        1
                    } else {
                        0
                    };
                    assert(s[j + off] == c);
                }
            }
        }
    }
}

/// One edge forward keeps reachability.
proof fn lemma_reachable_step<T>(g: GraphV<T>, a: u32, b: u32, x: u32)
    requires
        g.has_edge(a, b),
        reachable(g, b, x),
    ensures
        reachable(g, a, x),
{
    let p = choose|p: Seq<u32>| is_path(g, p) && p[0] == b && p.last() == x;
    let q = seq![a] + p;
    assert forall|i: int| 0 <= i < q.len() - 1 implies g.has_edge(#[trigger] q[i], q[i + 1]) by {
        if i == 0 {
            assert(q[0] == a && q[1] == p[0]);
        } else {
            assert(q[i] == p[i - 1] && q[i + 1] == p[i]);
            assert(g.has_edge(p[i - 1], p[i]));
        }
    }
    assert(is_path(g, q) && q[0] == a && q.last() == x);
}

/// What one whole walk does: it grows the seen set by exactly the visit
/// order, repeats nothing, leaves everything on the stack seen, visits only
/// what some stack identifier reaches, and leaves the seen set closed under
/// edges out of the identifiers it added.
proof fn lemma_dfs_props<T>(g: GraphV<T>, stack: Seq<u32>, vis: Set<u32>)
    requires
        g.wf(),
    ensures
        ({
            let ord = dfs(g, stack, vis).0;
            let v2 = dfs(g, stack, vis).1;
            &&& forall|x: u32| #[trigger] v2.contains(x) <==> vis.contains(x) || ord.contains(x)
            &&& ord.no_duplicates()
            &&& forall|i: int| 0 <= i < ord.len() ==> !vis.contains(#[trigger] ord[i])
            &&& forall|k: u32| stack.contains(k) ==> #[trigger] v2.contains(k)
            &&& forall|x: u32|
                #[trigger] ord.contains(x) ==> exists|s: u32|
                    stack.contains(s) && reachable(g, s, x)
            &&& forall|x: u32, c: u32|
                (#[trigger] v2.contains(x) && !vis.contains(x) && #[trigger] g.has_edge(x, c))
                    ==> v2.contains(c)
        }),
    decreases unvisited(g, vis), stack.len(),
{
    broadcast use vstd::set::group_set_axioms;

    lemma_ids_of(g.nodes);
    let ord = dfs(g, stack, vis).0;
    let v2 = dfs(g, stack, vis).1;
    if stack.len() == 0 {
    } else {
        let id = stack.last();
        let rest = stack.drop_last();
        assert(stack.contains(id)) by {
            assert(stack[stack.len() - 1] == id);
        }
        assert forall|k: u32| rest.contains(k) implies stack.contains(k) by {
            let i = choose|i: int| 0 <= i < rest.len() && rest[i] == k;
            assert(stack[i] == k);
        }
        if vis.contains(id) {
            lemma_dfs_props(g, rest, vis);
            assert forall|k: u32| stack.contains(k) implies #[trigger] v2.contains(k) by {
                let i = choose|i: int| 0 <= i < stack.len() && stack[i] == k;
                if i < stack.len() - 1 {
                    assert(rest[i] == k);
                    assert(rest.contains(k));
                } else {
                    assert(k == id);
                }
            }
        } else if !ids_of(g.nodes).contains(id) {
            assert(ids_of(g.nodes).difference(vis.insert(id)) =~= ids_of(g.nodes).difference(
                vis,
            ));
            lemma_dfs_props(g, rest, vis.insert(id));
            let sord = dfs(g, rest, vis.insert(id)).0;
            assert(ord == seq![id] + sord);
            assert(ord[0] == id);
            assert forall|x: u32| #[trigger] ord.contains(x) implies x == id || sord.contains(
                x,
            ) by {
                let i = choose|i: int| 0 <= i < ord.len() && ord[i] == x;
                if i > 0 {
                    assert(sord[i - 1] == x);
                }
            }
            assert forall|x: u32| #[trigger] sord.contains(x) implies ord.contains(x) by {
                let i = choose|i: int| 0 <= i < sord.len() && sord[i] == x;
                assert(ord[i + 1] == x);
            }
            assert forall|i: int| 0 <= i < ord.len() implies !vis.contains(#[trigger] ord[i]) by {
                if i > 0 {
                    assert(ord[i] == sord[i - 1]);
                }
            }
            assert forall|k: u32| stack.contains(k) implies #[trigger] v2.contains(k) by {
                let i = choose|i: int| 0 <= i < stack.len() && stack[i] == k;
                if i < stack.len() - 1 {
                    assert(rest[i] == k);
                    assert(rest.contains(k));
                } else {
                    assert(k == id);
                    assert(vis.insert(id).contains(id));
                }
            }
            assert forall|x: u32| #[trigger] v2.contains(x) implies vis.contains(x)
                || ord.contains(x) by {
                if !vis.contains(x) {
                    if x == id {
                        assert(ord[0] == id);
                        assert(ord.contains(id));
                    } else {
                        assert(vis.insert(id).contains(x) || sord.contains(x));
                    }
                }
            }
            assert forall|x: u32| vis.contains(x) || ord.contains(x) implies #[trigger] v2.contains(
                x,
            ) by {
                if ord.contains(x) {
                    if x == id {
                        assert(vis.insert(id).contains(id));
                    } else {
                        assert(sord.contains(x));
                    }
                }
            }

            assert(reachable(g, id, id)) by {
                let p = seq![id];
                assert(is_path(g, p) && p[0] == id && p.last() == id);
            }
            assert(ord.no_duplicates()) by {
                assert forall|i: int, j: int|
                    0 <= i < ord.len() && 0 <= j < ord.len() && i != j implies ord[i] != ord[
                j] by {
                    if i > 0 && j > 0 {
                        assert(ord[i] == sord[i - 1] && ord[j] == sord[j - 1]);
                    } else if i == 0 && j > 0 {
                        assert(ord[j] == sord[j - 1]);
                        assert(sord.contains(sord[j - 1]));
                    } else if j == 0 && i > 0 {
                        assert(ord[i] == sord[i - 1]);
                        assert(sord.contains(sord[i - 1]));
                    }
                }
            }
            assert forall|x: u32|
                #[trigger] ord.contains(x) implies exists|s: u32|
                    stack.contains(s) && reachable(g, s, x) by {
                if x == id {
                    assert(stack.contains(id) && reachable(g, id, id));
                } else {
                    assert(sord.contains(x));
                    let s = choose|s: u32| rest.contains(s) && reachable(g, s, x);
                    assert(stack.contains(s) && reachable(g, s, x));
                }
            }
            assert forall|x: u32, c: u32|
                (#[trigger] v2.contains(x) && !vis.contains(x) && #[trigger] g.has_edge(x, c))
                    implies v2.contains(c) by {
                if x == id {
                    assert(g.has_node_id(id));
                    assert(ids_of(g.nodes).contains(id));
                    assert(false);
                } else {
                    assert(!vis.insert(id).contains(x));
                }
            }
        } else {
            ids_of(g.nodes).lemma_set_insert_diff_decreases(vis, id);
            let kids = succ_ids(g.edges, id);
            let stack2 = rest + kids.reverse();
            lemma_dfs_props(g, stack2, vis.insert(id));
            lemma_succ_ids_contains(g.edges, id);
            let sord = dfs(g, stack2, vis.insert(id)).0;
            assert(ord == seq![id] + sord);
            assert(ord[0] == id);
            assert forall|k: u32| rest.contains(k) implies stack2.contains(k) by {
                let i = choose|i: int| 0 <= i < rest.len() && rest[i] == k;
                assert(stack2[i] == k);
            }
            assert forall|k: u32| kids.contains(k) implies stack2.contains(k) by {
                let i = choose|i: int| 0 <= i < kids.len() && kids[i] == k;
                assert(kids.reverse()[kids.len() - 1 - i] == k);
                assert(stack2[rest.len() + kids.len() - 1 - i] == k);
            }
            assert forall|k: u32| stack2.contains(k) implies rest.contains(k) || kids.contains(
                k,
            ) by {
                let i = choose|i: int| 0 <= i < stack2.len() && stack2[i] == k;
                if i < rest.len() {
                    assert(rest[i] == k);
                } else {
                    assert(kids.reverse()[i - rest.len()] == k);
                    assert(kids[kids.len() - 1 - (i - rest.len())] == k);
                }
            }
            assert forall|x: u32| #[trigger] ord.contains(x) implies x == id || sord.contains(
                x,
            ) by {
                let i = choose|i: int| 0 <= i < ord.len() && ord[i] == x;
                if i > 0 {
                    assert(sord[i - 1] == x);
                }
            }
            assert forall|x: u32| #[trigger] sord.contains(x) implies ord.contains(x) by {
                let i = choose|i: int| 0 <= i < sord.len() && sord[i] == x;
                assert(ord[i + 1] == x);
            }
            assert forall|i: int| 0 <= i < ord.len() implies !vis.contains(#[trigger] ord[i]) by {
                if i > 0 {
                    assert(ord[i] == sord[i - 1]);
                }
            }
            assert forall|k: u32| stack.contains(k) implies #[trigger] v2.contains(k) by {
                let i = choose|i: int| 0 <= i < stack.len() && stack[i] == k;
                if i < stack.len() - 1 {
                    assert(rest[i] == k);
                    assert(rest.contains(k));
                } else {
                    assert(k == id);
                    assert(vis.insert(id).contains(id));
                }
            }
            assert forall|x: u32| #[trigger] v2.contains(x) implies vis.contains(x)
                || ord.contains(x) by {
                if !vis.contains(x) {
                    if x == id {
                        assert(ord[0] == id);
                        assert(ord.contains(id));
                    } else {
                        assert(vis.insert(id).contains(x) || sord.contains(x));
                    }
                }
            }
            assert forall|x: u32| vis.contains(x) || ord.contains(x) implies #[trigger] v2.contains(
                x,
            ) by {
                if ord.contains(x) {
                    if x == id {
                        assert(vis.insert(id).contains(id));
                    } else {
                        assert(sord.contains(x));
                    }
                }
            }

            assert(reachable(g, id, id)) by {
                let p = seq![id];
                assert(is_path(g, p) && p[0] == id && p.last() == id);
            }
            assert(ord.no_duplicates()) by {
                assert forall|i: int, j: int|
                    0 <= i < ord.len() && 0 <= j < ord.len() && i != j implies ord[i] != ord[
                j] by {
                    if i > 0 && j > 0 {
                        assert(ord[i] == sord[i - 1] && ord[j] == sord[j - 1]);
                    } else if i == 0 && j > 0 {
                        assert(ord[j] == sord[j - 1]);
                        assert(sord.contains(sord[j - 1]));
                    } else if j == 0 && i > 0 {
                        assert(ord[i] == sord[i - 1]);
                        assert(sord.contains(sord[i - 1]));
                    }
                }
            }
            assert forall|x: u32|
                #[trigger] ord.contains(x) implies exists|s: u32|
                    stack.contains(s) && reachable(g, s, x) by {
                if x == id {
                    assert(stack.contains(id) && reachable(g, id, id));
                } else {
                    assert(sord.contains(x));
                    let s = choose|s: u32| stack2.contains(s) && reachable(g, s, x);
                    if rest.contains(s) {
                        assert(stack.contains(s) && reachable(g, s, x));
                    } else {
                        assert(kids.contains(s));
                        assert(g.has_edge(id, s));
                        lemma_reachable_step(g, id, s, x);
                        assert(stack.contains(id) && reachable(g, id, x));
                    }
                }
            }
            assert forall|x: u32, c: u32|
                (#[trigger] v2.contains(x) && !vis.contains(x) && #[trigger] g.has_edge(x, c))
                    implies v2.contains(c) by {
                if x == id {
                    assert(kids.contains(c));
                    assert(stack2.contains(c));
                } else {
                    assert(!vis.insert(id).contains(x));
                }
            }
        }
    }
}

/// Along a path whose start the traversal saw, every identifier is seen:
/// the seen set is closed under the graph's edges.
proof fn lemma_path_covered<T>(g: GraphV<T>, v2: Set<u32>, p: Seq<u32>)
    requires
        g.wf(),
        is_path(g, p),
        v2.contains(p[0]),
        forall|x: u32, c: u32|
            (#[trigger] v2.contains(x) && #[trigger] g.has_edge(x, c)) ==> v2.contains(c),
    ensures
        v2.contains(p.last()),
    decreases p.len(),
{
    if p.len() == 1 {
    } else {
        assert(g.has_edge(p[0], p[1]));
        let q = p.skip(1);
        assert(is_path(g, q)) by {
            assert forall|i: int| 0 <= i < q.len() - 1 implies g.has_edge(
                #[trigger] q[i],
                q[i + 1],
            ) by {
                assert(q[i] == p[i + 1] && q[i + 1] == p[i + 2]);
                assert(g.has_edge(p[i + 1], p[i + 2]));
            }
        }
        assert(v2.contains(q[0]));
        lemma_path_covered(g, v2, q);
        assert(q.last() == p.last());
    }
}

/// Traversal termination and coverage: the walk from `root` names each
/// identifier at most once, and names exactly those reachable from `root`,
/// `root` itself included.
pub proof fn lemma_traverse_coverage<T>(g: GraphV<T>, root: u32)
    requires
        g.wf(),
    ensures
        dfs(g, seq![root], Set::<u32>::empty()).0.no_duplicates(),
        forall|x: u32|
            #[trigger] dfs(g, seq![root], Set::<u32>::empty()).0.contains(x) <==> reachable(
                g,
                root,
                x,
            ),
{
    broadcast use vstd::set::group_set_axioms;

    let stack = seq![root];
    let vis = Set::<u32>::empty();
    lemma_dfs_props(g, stack, vis);
    let ord = dfs(g, stack, vis).0;
    let v2 = dfs(g, stack, vis).1;
    assert(stack.contains(root)) by {
        assert(stack[0] == root);
    }
    assert forall|x: u32| #[trigger] ord.contains(x) implies reachable(g, root, x) by {
        let s = choose|s: u32| stack.contains(s) && reachable(g, s, x);
        let i = choose|i: int| 0 <= i < stack.len() && stack[i] == s;
        assert(s == root);
    }
    assert forall|x: u32| reachable(g, root, x) implies #[trigger] ord.contains(x) by {
        let p = choose|p: Seq<u32>| is_path(g, p) && p[0] == root && p.last() == x;
        assert(v2.contains(root));
        assert forall|y: u32, c: u32|
            (#[trigger] v2.contains(y) && #[trigger] g.has_edge(y, c)) implies v2.contains(c) by {
            assert(!vis.contains(y));
        }
        lemma_path_covered(g, v2, p);
        assert(v2.contains(x));
    }
}


/// `first_node_with_id` finds a node exactly when one carries the
/// identifier, and what it finds carries it.
proof fn lemma_first_node_some<T>(ns: Seq<Node<T>>, id: u32)
    ensures
        (first_node_with_id(ns, id) is Some) <==> exists|i: int|
            0 <= i < ns.len() && ns[i].id == id,
        match first_node_with_id(ns, id) {
            Some(n) => n.id == id,
            None => true,
        },
    decreases ns.len(),
{
    if ns.len() == 0 {
    } else if ns[0].id == id {
    } else {
        let rest = ns.skip(1);
        lemma_first_node_some(rest, id);
        if first_node_with_id(ns, id) is Some {
            let i = choose|i: int| 0 <= i < rest.len() && rest[i].id == id;
            assert(ns[i + 1].id == id);
        }
        if exists|i: int| 0 <= i < ns.len() && ns[i].id == id {
            let i = choose|i: int| 0 <= i < ns.len() && ns[i].id == id;
            assert(i > 0);
            assert(rest[i - 1].id == id);
        }
    }
}

/// When every edge target names a node, the traversal's successor list is
/// exactly the identifiers of what `get_connected` returns, in order.
proof fn lemma_connected_succ<T>(ns: Seq<Node<T>>, es: Seq<Edge>, id: u32)
    requires
        forall|i: int|
            0 <= i < es.len() ==> first_node_with_id(ns, (#[trigger] es[i]).end) is Some,
    ensures
        connected_nodes(ns, es, id).len() == succ_ids(es, id).len(),
        forall|i: int|
            0 <= i < succ_ids(es, id).len() ==> (#[trigger] connected_nodes(ns, es, id)[i]).id
                == succ_ids(es, id)[i],
    decreases es.len(),
{
    if es.len() > 0 {
        let rest = es.skip(1);
        assert forall|i: int|
            0 <= i < rest.len() implies first_node_with_id(ns, (#[trigger] rest[i]).end)
            is Some by {
            assert(rest[i] == es[i + 1]);
        }
        lemma_connected_succ(ns, rest, id);
        if es[0].begin == id {
            lemma_first_node_some(ns, es[0].end);
            assert(first_node_with_id(ns, es[0].end) is Some);
            let n = first_node_with_id(ns, es[0].end)->Some_0;
            let c = connected_nodes(ns, es, id);
            let s = succ_ids(es, id);
            assert(c == seq![n] + connected_nodes(ns, rest, id));
            assert(s == seq![es[0].end] + succ_ids(rest, id));
            assert forall|i: int| 0 <= i < s.len() implies (#[trigger] c[i]).id == s[i] by {
                if i > 0 {
                    assert(c[i] == connected_nodes(ns, rest, id)[i - 1]);
                    assert(s[i] == succ_ids(rest, id)[i - 1]);
                }
            }
        }
    }
}

/// In a well-formed graph the traversal takes successors exactly in the
/// order `get_connected` returns them.
pub proof fn lemma_traversal_follows_connected<T>(g: GraphV<T>, id: u32)
    requires
        g.wf(),
    ensures
        connected_nodes(g.nodes, g.edges, id).len() == succ_ids(g.edges, id).len(),
        forall|i: int|
            0 <= i < succ_ids(g.edges, id).len() ==> (#[trigger] connected_nodes(
                g.nodes,
                g.edges,
                id,
            )[i]).id == succ_ids(g.edges, id)[i],
{
    assert forall|i: int|
        0 <= i < g.edges.len() implies first_node_with_id(g.nodes, (#[trigger] g.edges[i]).end)
        is Some by {
        assert(g.has_node_id(g.edges[i].begin));
        assert(g.has_node_id(g.edges[i].end));
        lemma_first_node_some(g.nodes, g.edges[i].end);
    }
    lemma_connected_succ(g.nodes, g.edges, id);
}

} // verus!
