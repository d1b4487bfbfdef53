//! A rooted directed dependency graph held in flat index-addressed storage.
//!
//! Nodes live in an arena; a handle (`NodeRef`) is an index into it and stays
//! valid across filtering.  The distinguished root is always at index 0, every
//! edge points from a lower index to a strictly higher one, and every non-root
//! node keeps exactly one incoming edge, so the graph is acyclic by
//! construction.  Filtering removes direct children of the root (or the edges
//! to them) and then prunes every node that is no longer reachable from the
//! root in a single marking pass.

use vstd::prelude::*;
use vstd::string::StringExecFns;

use crate::strutil::{dec_digits, u64_to_string};

verus! {

/// A node value that can label itself for the textual graph export.
pub trait Labeled {
    /// The label as a mathematical sequence of characters.
    spec fn label_spec(&self) -> Seq<char>;

    /// The label as it is printed.
    fn label(&self) -> (r: String)
        ensures
            r@ == self.label_spec(),
    ;
}

/// A handle to a node of a [`DependencyGraph`]; stable across filtering.
pub type NodeRef = usize;

/// One directed, labelled edge of the graph.
pub struct GraphEdge<E> {
    pub from: usize,
    pub to: usize,
    pub label: E,
}

/// A rooted directed graph over node values `N` and edge labels `E`.
pub struct DependencyGraph<N, E> {
    nodes: Vec<Option<N>>,
    edges: Vec<GraphEdge<E>>,
}

/// Whether an edge of a well-formed graph is allowed: both endpoints present,
/// and the edge runs from a lower index to a strictly higher, non-root one.
pub open spec fn edge_ok<N, E>(nodes: Seq<Option<N>>, e: GraphEdge<E>) -> bool {
    &&& e.from < e.to
    &&& (e.to as int) < nodes.len()
    &&& nodes[e.from as int] is Some
    &&& nodes[e.to as int] is Some
}

/// Whether `b` is the target of an edge leaving `a`.
pub open spec fn step_to<E>(edges: Seq<GraphEdge<E>>, a: int, b: int) -> bool {
    exists|k: int| 0 <= k < edges.len() && (#[trigger] edges[k]).from == a && edges[k].to == b
}

/// Whether `p` is a directed path from `a` to `b` along `edges`.
pub open spec fn is_path<E>(edges: Seq<GraphEdge<E>>, p: Seq<int>, a: int, b: int) -> bool {
    &&& p.len() >= 1
    &&& p[0] == a
    &&& p[p.len() - 1] == b
    &&& forall|i: int| 0 <= i < p.len() - 1 ==> #[trigger] step_to(edges, p[i], p[i + 1])
}

/// Whether some directed path leads from `a` to `b` along `edges`.
pub open spec fn reachable<E>(edges: Seq<GraphEdge<E>>, a: int, b: int) -> bool {
    exists|p: Seq<int>| is_path(edges, p, a, b)
}

/// Whether `keep` retains both endpoints of `e`.
pub open spec fn edge_kept<E>(e: GraphEdge<E>, keep: Seq<bool>) -> bool {
    &&& (e.from as int) < keep.len()
    &&& (e.to as int) < keep.len()
    &&& keep[e.from as int]
    &&& keep[e.to as int]
}

/// The edges whose endpoints are both kept, keeping their order.
pub open spec fn filter_edges<E>(edges: Seq<GraphEdge<E>>, keep: Seq<bool>) -> Seq<GraphEdge<E>>
    decreases edges.len(),
{
    if edges.len() == 0 {
        Seq::empty()
    } else if edge_kept(edges.last(), keep) {
        filter_edges(edges.drop_last(), keep).push(edges.last())
    } else {
        filter_edges(edges.drop_last(), keep)
    }
}

/// The edges selected by a per-edge mask, keeping their order.
pub open spec fn mask_edges<E>(edges: Seq<GraphEdge<E>>, keep: Seq<bool>) -> Seq<GraphEdge<E>>
    decreases edges.len(),
{
    if edges.len() == 0 || edges.len() != keep.len() {
        Seq::empty()
    } else if keep.last() {
        mask_edges(edges.drop_last(), keep.drop_last()).push(edges.last())
    } else {
        mask_edges(edges.drop_last(), keep.drop_last())
    }
}

/// The values of the present slots of an arena, in index order.
pub open spec fn present_values<N>(nodes: Seq<Option<N>>) -> Seq<N>
    decreases nodes.len(),
{
    if nodes.len() == 0 {
        Seq::empty()
    } else if nodes.last() is Some {
        present_values(nodes.drop_last()).push(nodes.last()->Some_0)
    } else {
        present_values(nodes.drop_last())
    }
}

impl<N, E> DependencyGraph<N, E> {
    /// The arena of node slots; a removed node leaves a `None` slot behind.
    pub closed spec fn nodes_seq(&self) -> Seq<Option<N>> {
        self.nodes@
    }

    /// The current edges of the graph.
    pub closed spec fn edges_seq(&self) -> Seq<GraphEdge<E>> {
        self.edges@
    }

    /// Whether the slot `i` holds a node.
    pub open spec fn alive(&self, i: int) -> bool {
        0 <= i < self.nodes_seq().len() && self.nodes_seq()[i] is Some
    }

    /// The structural invariant: the root is present at index 0, every edge is
    /// allowed, and no two edges share a target.
    pub open spec fn wf(&self) -> bool {
        &&& self.nodes_seq().len() >= 1
        &&& self.nodes_seq()[0] is Some
        &&& forall|k: int|
            0 <= k < self.edges_seq().len() ==> edge_ok(
                self.nodes_seq(),
                #[trigger] self.edges_seq()[k],
            )
        &&& forall|k: int, l: int|
            0 <= k < l < self.edges_seq().len() ==> (#[trigger] self.edges_seq()[k]).to != (
            #[trigger] self.edges_seq()[l]).to
    }

    /// A one-node graph holding only the root, with no edges.
    pub fn new(root: N) -> (g: DependencyGraph<N, E>)
        ensures
            g.wf(),
            g.nodes_seq() == seq![Some(root)],
            g.edges_seq() == Seq::<GraphEdge<E>>::empty(),
    {
        let mut nodes: Vec<Option<N>> = Vec::new();
        nodes.push(Some(root));
        DependencyGraph { nodes, edges: Vec::new() }
    }

    /// Adds `n` as a direct child of the root, connected by an edge labelled
    /// `e`, and hands back its handle.
    pub fn insert(&mut self, n: N, e: E) -> (r: NodeRef)
        requires
            old(self).wf(),
        ensures
            final(self).wf(),
            r == old(self).nodes_seq().len(),
            final(self).nodes_seq() == old(self).nodes_seq().push(Some(n)),
            final(self).edges_seq() == old(self).edges_seq().push(
                (GraphEdge { from: 0, to: r, label: e }),
            ),
    {
        let r = self.nodes.len();
        self.nodes.push(Some(n));
        self.edges.push(GraphEdge { from: 0, to: r, label: e });
        proof {
            lemma_grown_graph_wf(old(self).nodes_seq(), old(self).edges_seq(), self.nodes_seq(),
                self.edges_seq());
        }
        r
    }

    /// Adds `n` as a child of the existing node `parent`, connected by an
    /// edge labelled `e`, and hands back its handle.
    pub fn insert_sub(&mut self, parent: NodeRef, n: N, e: E) -> (r: NodeRef)
        requires
            old(self).wf(),
            old(self).alive(parent as int),
        ensures
            final(self).wf(),
            r == old(self).nodes_seq().len(),
            final(self).nodes_seq() == old(self).nodes_seq().push(Some(n)),
            final(self).edges_seq() == old(self).edges_seq().push(
                (GraphEdge { from: parent, to: r, label: e }),
            ),
    {
        let r = self.nodes.len();
        self.nodes.push(Some(n));
        self.edges.push(GraphEdge { from: parent, to: r, label: e });
        proof {
            lemma_grown_graph_wf(old(self).nodes_seq(), old(self).edges_seq(), self.nodes_seq(),
                self.edges_seq());
        }
        r
    }

    /// Rebuilds the edge list, keeping exactly the edges whose two endpoints
    /// are both still present.
    fn retain_edges_alive(&mut self)
        requires
            old(self).nodes_seq().len() >= 1,
            old(self).nodes_seq()[0] is Some,
            edges_shape_ok(old(self).nodes_seq().len() as int, old(self).edges_seq()),
        ensures
            final(self).wf(),
            final(self).nodes_seq() == old(self).nodes_seq(),
            final(self).edges_seq() == filter_edges(
                old(self).edges_seq(),
                alive_mask(old(self).nodes_seq()),
            ),
    {
        let ghost es0 = self.edges@;
        let ghost mask = alive_mask(self.nodes@);
        let n = self.nodes.len();
        let mut kept: Vec<GraphEdge<E>> = Vec::new();
        let mut j: usize = 0;
        let m = self.edges.len();
        let ghost total = es0.len();
        while self.edges.len() > 0
            invariant
                total == m,
                self.nodes@ == old(self).nodes_seq(),
                mask == alive_mask(self.nodes@),
                n == self.nodes@.len(),
                es0 == old(self).edges_seq(),
                edges_shape_ok(n as int, es0),
                j <= total,
                total == es0.len(),
                self.edges@ == es0.skip(j as int),
                kept@ == filter_edges(es0.take(j as int), mask),
                forall|a: int, b: int|
                    0 <= a < b < kept@.len() ==> (#[trigger] kept@[a]).to != (#[trigger] kept@[b]).to,
                forall|a: int, k: int|
                    0 <= a < kept@.len() && 0 <= k < self.edges@.len() ==> (#[trigger] kept@[a]).to
                        != (#[trigger] self.edges@[k]).to,
                forall|a: int|
                    0 <= a < kept@.len() ==> edge_kept(#[trigger] kept@[a], mask) && kept@[a].from
                        < kept@[a].to && (kept@[a].to as int) < n,
            decreases self.edges.len(),
        {
            proof {
                assert(j < total);
                assert(self.edges@[0] == es0[j as int]);
            }
            let e = self.edges.remove(0);
            let ghost kept0 = kept@;
            let keep_it = self.nodes[e.from].is_some() && self.nodes[e.to].is_some();
            if keep_it {
                kept.push(e);
            }
            j += 1;
            proof {
                assert(es0.skip(j - 1).remove(0) =~= es0.skip(j as int));
                assert(es0.take(j as int).drop_last() =~= es0.take(j - 1));
                assert(es0.take(j as int).last() == es0[j - 1]);
                assert(edge_kept(es0[j - 1], mask) == keep_it);
                if keep_it {
                    assert forall|a: int, k: int|
                        0 <= a < kept@.len() && 0 <= k < self.edges@.len() implies (
                    #[trigger] kept@[a]).to != (#[trigger] self.edges@[k]).to by {
                        if a < kept0.len() {
                            assert(kept0[a].to != es0.skip(j as int)[k].to);
                        } else {
                            assert(kept@[a] == es0[j - 1]);
                            assert(es0.skip(j as int)[k] == es0[j + k]);
                            assert(es0[j - 1].to != es0[j + k].to);
                        }
                    }
                } else {
                    assert forall|a: int, k: int|
                        0 <= a < kept@.len() && 0 <= k < self.edges@.len() implies (
                    #[trigger] kept@[a]).to != (#[trigger] self.edges@[k]).to by {
                        assert(kept0[a].to != es0.skip(j as int)[k].to);
                    }
                }
            }
        }
        proof {
            assert(es0.skip(j as int).len() == 0);
            assert(j == total);
            assert(es0.take(j as int) =~= es0);
        }
        self.edges = kept;
    }

    /// Removes every node no longer reachable from the root, in one marking
    /// pass over the edges, and drops the edges that lost an endpoint.
    fn prune(&mut self)
        requires
            old(self).wf(),
        ensures
            final(self).wf(),
            final(self).nodes_seq().len() == old(self).nodes_seq().len(),
            forall|i: int|
                0 <= i < old(self).nodes_seq().len() ==> #[trigger] final(self).nodes_seq()[i] == (
                if reachable(old(self).edges_seq(), 0, i) {
                    old(self).nodes_seq()[i]
                } else {
                    None::<N>
                }),
            final(self).edges_seq() == filter_edges(
                old(self).edges_seq(),
                alive_mask(final(self).nodes_seq()),
            ),
            forall|i: int|
                0 <= i < final(self).nodes_seq().len() && final(self).nodes_seq()[i] is Some
                    ==> reachable(final(self).edges_seq(), 0, i),
    {
        let ghost ns0 = self.nodes@;
        let ghost es0 = self.edges@;
        let n = self.nodes.len();
        // one marking pass in slot order: every edge runs from a lower index
        // to a higher one, so each slot's mark is final before it is visited
        let mut mark: Vec<bool> = Vec::new();
        let mut i: usize = 0;
        while i < n
            invariant
                i <= n,
                mark@.len() == i,
                forall|j: int| 0 <= j < i ==> #[trigger] mark@[j] == (j == 0),
            decreases n - i,
        {
            mark.push(i == 0);
            i += 1;
        }
        proof {
            lemma_reachable_refl(es0, 0);
        }
        let mut i: usize = 0;
        while i < n
            invariant
                self.nodes@ == ns0,
                self.edges@ == es0,
                n == ns0.len(),
                old(self).wf(),
                ns0 == old(self).nodes_seq(),
                es0 == old(self).edges_seq(),
                i <= n,
                mark@.len() == n,
                mark@[0],
                forall|j: int| 0 <= j < n && #[trigger] mark@[j] ==> reachable(es0, 0, j),
                forall|k: int|
                    0 <= k < es0.len() && ((#[trigger] es0[k]).from as int) < i && mark@[es0[k].from as int]
                        ==> mark@[es0[k].to as int],
            decreases n - i,
        {
            if mark[i] {
                let mut k: usize = 0;
                while k < self.edges.len()
                    invariant
                        self.nodes@ == ns0,
                        self.edges@ == es0,
                        n == ns0.len(),
                        old(self).wf(),
                        ns0 == old(self).nodes_seq(),
                        es0 == old(self).edges_seq(),
                        i < n,
                        k <= es0.len(),
                        mark@.len() == n,
                        mark@[0],
                        mark@[i as int],
                        forall|j: int| 0 <= j < n && #[trigger] mark@[j] ==> reachable(es0, 0, j),
                        forall|k2: int|
                            0 <= k2 < es0.len() && ((#[trigger] es0[k2]).from as int) < i
                                && mark@[es0[k2].from as int] ==> mark@[es0[k2].to as int],
                        forall|k2: int|
                            0 <= k2 < k && ((#[trigger] es0[k2]).from as int) == i
                                ==> mark@[es0[k2].to as int],
                    decreases es0.len() - k,
                {
                    let e_from = self.edges[k].from;
                    let e_to = self.edges[k].to;
                    if e_from == i {
                        proof {
                            assert(edge_ok(ns0, es0[k as int]));
                            assert(step_to(es0, i as int, e_to as int));
                            lemma_reachable_step(es0, 0, i as int, e_to as int);
                        }
                        mark[e_to] = true;
                    }
                    k += 1;
                }
            }
            i += 1;
        }
        // every mark is now settled: marked means reachable, and the marking
        // is closed under the edges
        proof {
            assert forall|j: int| 0 <= j < n && reachable(es0, 0, j) implies mark@[j] by {
                let p = choose|p: Seq<int>| is_path(es0, p, 0, j);
                assert forall|k: int| 0 <= k < es0.len() implies ((#[trigger] es0[k]).from as int)
                    < mark@.len() && ((es0[k]).to as int) < mark@.len() by {
                    assert(edge_ok(ns0, es0[k]));
                }
                lemma_path_marked(es0, mark@, p, j);
            }
            assert forall|j: int| 0 <= j < n && #[trigger] mark@[j] implies reachable(es0, 0, j) by {}
        }
        // clear the slots that were not marked
        let mut i: usize = 0;
        while i < n
            invariant
                self.edges@ == es0,
                n == ns0.len(),
                old(self).wf(),
                ns0 == old(self).nodes_seq(),
                es0 == old(self).edges_seq(),
                i <= n,
                mark@.len() == n,
                forall|j: int| 0 <= j < n ==> (#[trigger] mark@[j] <==> reachable(es0, 0, j)),
                self.nodes@.len() == n,
                forall|j: int|
                    0 <= j < i ==> #[trigger] self.nodes@[j] == (if mark@[j] {
                        ns0[j]
                    } else {
                        None::<N>
                    }),
                forall|j: int| i <= j < n ==> #[trigger] self.nodes@[j] == ns0[j],
            decreases n - i,
        {
            if !mark[i] {
                self.nodes[i] = None;
            }
            i += 1;
        }
        proof {
            assert(self.nodes@[0] == ns0[0]);
            assert forall|k: int| 0 <= k < es0.len() implies (#[trigger] es0[k]).from < es0[k].to
                && ((es0[k]).to as int) < self.nodes@.len() by {
                assert(edge_ok(ns0, es0[k]));
            }
        }
        self.retain_edges_alive();
        proof {
            assert forall|i2: int| 0 <= i2 < ns0.len() implies #[trigger] self.nodes@[i2] == (
            if reachable(es0, 0, i2) {
                ns0[i2]
            } else {
                None::<N>
            }) by {
                assert(mark@[i2] <==> reachable(es0, 0, i2));
            }
            let ns1 = self.nodes@;
            assert forall|i2: int|
                0 <= i2 < ns1.len() && ns1[i2] is Some implies reachable(self.edges@, 0, i2) by {
                assert(reachable(es0, 0, i2));
                let p = choose|p: Seq<int>| is_path(es0, p, 0, i2);
                assert forall|k: int| 0 <= k < es0.len() implies ((#[trigger] es0[k]).from as int)
                    < ns1.len() && ((es0[k]).to as int) < ns1.len() by {
                    assert(edge_ok(ns0, es0[k]));
                }
                assert forall|k: int|
                    0 <= k < es0.len() && reachable(es0, 0, (#[trigger] es0[k]).from as int) implies ns1[(
                es0[k]).from as int] is Some by {
                    assert(edge_ok(ns0, es0[k]));
                }
                assert forall|k: int|
                    0 <= k < es0.len() && reachable(es0, 0, (#[trigger] es0[k]).to as int) implies ns1[(
                es0[k]).to as int] is Some by {
                    assert(edge_ok(ns0, es0[k]));
                }
                lemma_path_survives(es0, ns1, p, i2);
            }
        }
    }

    /// Removes every direct child of the root whose node value fails the
    /// predicate, then removes every node no longer reachable from the root.
    ///
    /// Afterwards every remaining node is reachable from the root, and a node
    /// is kept exactly when it is reachable through kept children alone.
    pub fn filter_root_dependencies<F: Fn(&N) -> bool>(&mut self, func: F)
        requires
            old(self).wf(),
            forall|v: &N| #[trigger] call_requires(func, (v,)),
        ensures
            final(self).wf(),
            final(self).nodes_seq().len() == old(self).nodes_seq().len(),
            forall|i: int|
                0 <= i < final(self).nodes_seq().len() && final(self).nodes_seq()[i] is Some
                    ==> reachable(final(self).edges_seq(), 0, i),
            exists|keep: Seq<bool>|
                {
                    &&& keep.len() == old(self).nodes_seq().len()
                    &&& (forall|i: int|
                        0 <= i < keep.len() && !step_to(old(self).edges_seq(), 0, i)
                            ==> #[trigger] keep[i])
                    &&& (forall|i: int|
                        0 <= i < keep.len() && #[trigger] step_to(old(self).edges_seq(), 0, i)
                            ==> call_ensures(func, (&old(self).nodes_seq()[i]->Some_0, ), keep[i]))
                    &&& (forall|i: int|
                        0 <= i < keep.len() ==> #[trigger] final(self).nodes_seq()[i] == (if keep[i]
                            && reachable(filter_edges(old(self).edges_seq(), keep), 0, i) {
                            old(self).nodes_seq()[i]
                        } else {
                            None::<N>
                        }))
                    &&& final(self).edges_seq() == filter_edges(
                        filter_edges(old(self).edges_seq(), keep),
                        alive_mask(final(self).nodes_seq()),
                    )
                },
    {
        let ghost ns0 = self.nodes@;
        let ghost es0 = self.edges@;
        let ghost mut keep: Seq<bool> = Seq::new(ns0.len(), |i: int| true);
        let mut k: usize = 0;
        let m = self.edges.len();
        while k < m
            invariant
                forall|v: &N| #[trigger] call_requires(func, (v,)),
                self.edges@ == es0,
                old(self).wf(),
                ns0 == old(self).nodes_seq(),
                es0 == old(self).edges_seq(),
                m == es0.len(),
                k <= m,
                keep.len() == ns0.len(),
                self.nodes@.len() == ns0.len(),
                keep[0],
                forall|i: int|
                    0 <= i < ns0.len() ==> #[trigger] self.nodes@[i] == (if keep[i] {
                        ns0[i]
                    } else {
                        None::<N>
                    }),
                forall|i: int|
                    0 <= i < keep.len() && !decided(es0, k as int, i) ==> #[trigger] keep[i],
                forall|i: int|
                    0 <= i < keep.len() && #[trigger] decided(es0, k as int, i) ==> call_ensures(
                        func,
                        (&ns0[i]->Some_0, ),
                        keep[i],
                    ),
            decreases m - k,
        {
            let from = self.edges[k].from;
            let to = self.edges[k].to;
            if from == 0 {
                proof {
                    assert(edge_ok(ns0, es0[k as int]));
                    assert(!decided(es0, k as int, to as int)) by {
                        if decided(es0, k as int, to as int) {
                            let k2 = choose|k2: int|
                                0 <= k2 < k && (#[trigger] es0[k2]).from == 0 && es0[k2].to == (
                                to as int);
                            assert(es0[k2].to != es0[k as int].to);
                        }
                    }
                    assert(keep[to as int]);
                    assert(self.nodes@[to as int] == ns0[to as int]);
                }
                let b = match &self.nodes[to] {
                    Some(v) => func(v),
                    None => true,
                };
                if !b {
                    self.nodes[to] = None;
                }
                proof {
                    keep = keep.update(to as int, b);
                    assert(es0[k as int].to == to);
                    assert forall|i: int|
                        0 <= i < keep.len() && #[trigger] decided(es0, k + 1, i) implies call_ensures(
                        func,
                        (&ns0[i]->Some_0, ),
                        keep[i],
                    ) by {
                        if i == to as int {
                        } else {
                            assert(decided(es0, k as int, i)) by {
                                let k2 = choose|k2: int|
                                    0 <= k2 < k + 1 && (#[trigger] es0[k2]).from == 0 && es0[k2].to
                                        == i;
                                assert(k2 < k);
                            }
                        }
                    }
                    assert forall|i: int|
                        0 <= i < keep.len() && !decided(es0, k + 1, i) implies #[trigger] keep[i] by {
                        assert(!decided(es0, k as int, i)) by {
                            if decided(es0, k as int, i) {
                                let k2 = choose|k2: int|
                                    0 <= k2 < k && (#[trigger] es0[k2]).from == 0 && es0[k2].to
                                        == i;
                                assert(0 <= k2 < k + 1);
                            }
                        }
                        assert(i != to) by {
                            assert(es0[k as int].from == 0 && es0[k as int].to == to);
                        }
                    }
                }
            } else {
                proof {
                    assert forall|i: int|
                        0 <= i < keep.len() && #[trigger] decided(es0, k + 1, i) implies decided(
                        es0,
                        k as int,
                        i,
                    ) by {
                        let k2 = choose|k2: int|
                            0 <= k2 < k + 1 && (#[trigger] es0[k2]).from == 0 && es0[k2].to == i;
                        assert(k2 != k);
                    }
                }
            }
            k += 1;
        }
        let ghost ns1 = self.nodes@;
        proof {
            assert forall|i: int|
                0 <= i < keep.len() && #[trigger] step_to(es0, 0, i) implies decided(
                es0,
                es0.len() as int,
                i,
            ) by {
                let k2 = choose|k2: int|
                    0 <= k2 < es0.len() && (#[trigger] es0[k2]).from == 0 && es0[k2].to == i;
                assert(0 <= k2 < es0.len());
            }
            assert forall|i: int|
                0 <= i < keep.len() && #[trigger] decided(es0, es0.len() as int, i) implies step_to(
                es0,
                0,
                i,
            ) by {
                let k2 = choose|k2: int|
                    0 <= k2 < es0.len() && (#[trigger] es0[k2]).from == 0 && es0[k2].to == i;
            }
            assert(ns1[0] is Some);
            assert forall|k2: int| 0 <= k2 < es0.len() implies (#[trigger] es0[k2]).from
                < es0[k2].to && ((es0[k2]).to as int) < ns1.len() by {
                assert(edge_ok(ns0, es0[k2]));
            }
        }
        self.retain_edges_alive();
        proof {
            assert forall|k2: int| 0 <= k2 < es0.len() implies ((#[trigger] es0[k2]).from as int)
                < keep.len() && ((es0[k2]).to as int) < keep.len() && keep[es0[k2].from as int]
                == alive_mask(ns1)[es0[k2].from as int] && keep[es0[k2].to as int] == alive_mask(
                ns1,
            )[es0[k2].to as int] by {
                assert(edge_ok(ns0, es0[k2]));
                assert(ns1[es0[k2].from as int] == (if keep[es0[k2].from as int] {
                    ns0[es0[k2].from as int]
                } else {
                    None::<N>
                }));
                assert(ns1[es0[k2].to as int] == (if keep[es0[k2].to as int] {
                    ns0[es0[k2].to as int]
                } else {
                    None::<N>
                }));
            }
            lemma_filter_edges_agree(es0, keep, alive_mask(ns1));
            assert(self.edges@ == filter_edges(es0, keep));
        }
        let ghost es2 = self.edges@;
        self.prune();
        proof {
            assert forall|i: int|
                0 <= i < keep.len() implies #[trigger] self.nodes@[i] == (if keep[i] && reachable(
                filter_edges(es0, keep),
                0,
                i,
            ) {
                ns0[i]
            } else {
                None::<N>
            }) by {
                assert(self.nodes@[i] == (if reachable(es2, 0, i) {
                    ns1[i]
                } else {
                    None::<N>
                }));
                if keep[i] && reachable(es2, 0, i) {
                    assert(ns1[i] == ns0[i]);
                } else if !keep[i] && reachable(es2, 0, i) {
                    assert(ns1[i] is None);
                }
            }
        }
    }

    /// Removes every edge from the root to a direct child whose label fails
    /// the predicate, then removes every node no longer reachable from the
    /// root.
    pub fn filter_root_edges<F: Fn(&E) -> bool>(&mut self, func: F)
        requires
            old(self).wf(),
            forall|v: &E| #[trigger] call_requires(func, (v,)),
        ensures
            final(self).wf(),
            final(self).nodes_seq().len() == old(self).nodes_seq().len(),
            forall|i: int|
                0 <= i < final(self).nodes_seq().len() && final(self).nodes_seq()[i] is Some
                    ==> reachable(final(self).edges_seq(), 0, i),
            exists|keep: Seq<bool>|
                {
                    &&& keep.len() == old(self).edges_seq().len()
                    &&& (forall|k: int|
                        0 <= k < keep.len() && (#[trigger] old(self).edges_seq()[k]).from != 0
                            ==> keep[k])
                    &&& (forall|k: int|
                        0 <= k < keep.len() && (#[trigger] old(self).edges_seq()[k]).from == 0
                            ==> call_ensures(func, (&old(self).edges_seq()[k].label, ), keep[k]))
                    &&& (forall|i: int|
                        0 <= i < old(self).nodes_seq().len()
                            ==> #[trigger] final(self).nodes_seq()[i] == (if reachable(
                            mask_edges(old(self).edges_seq(), keep),
                            0,
                            i,
                        ) {
                            old(self).nodes_seq()[i]
                        } else {
                            None::<N>
                        }))
                    &&& final(self).edges_seq() == filter_edges(
                        mask_edges(old(self).edges_seq(), keep),
                        alive_mask(final(self).nodes_seq()),
                    )
                },
    {
        let ghost ns0 = self.nodes@;
        let ghost es0 = self.edges@;
        let ghost mut keep: Seq<bool> = Seq::empty();
        let mut newv: Vec<GraphEdge<E>> = Vec::new();
        let mut j: usize = 0;
        let m = self.edges.len();
        while self.edges.len() > 0
            invariant
                forall|v: &E| #[trigger] call_requires(func, (v,)),
                self.nodes@ == ns0,
                old(self).wf(),
                ns0 == old(self).nodes_seq(),
                es0 == old(self).edges_seq(),
                m == es0.len(),
                j <= m,
                keep.len() == j,
                self.edges@ == es0.skip(j as int),
                newv@ == mask_edges(es0.take(j as int), keep),
                forall|k: int|
                    0 <= k < j && (#[trigger] es0[k]).from != 0 ==> keep[k],
                forall|k: int|
                    0 <= k < j && (#[trigger] es0[k]).from == 0 ==> call_ensures(
                        func,
                        (&es0[k].label, ),
                        keep[k],
                    ),
                forall|a: int, b: int|
                    0 <= a < b < newv@.len() ==> (#[trigger] newv@[a]).to != (#[trigger] newv@[b]).to,
                forall|a: int, k: int|
                    0 <= a < newv@.len() && 0 <= k < self.edges@.len() ==> (#[trigger] newv@[a]).to
                        != (#[trigger] self.edges@[k]).to,
                forall|a: int|
                    0 <= a < newv@.len() ==> edge_ok(ns0, #[trigger] newv@[a]),
            decreases self.edges.len(),
        {
            proof {
                assert(j < m);
                assert(self.edges@[0] == es0[j as int]);
            }
            let e = self.edges.remove(0);
            let ghost new0 = newv@;
            let b = if e.from == 0 {
                func(&e.label)
            } else {
                true
            };
            if b {
                newv.push(e);
            }
            j += 1;
            proof {
                let keep0 = keep;
                keep = keep.push(b);
                assert(es0.skip(j - 1).remove(0) =~= es0.skip(j as int));
                assert(es0.take(j as int).drop_last() =~= es0.take(j - 1));
                assert(es0.take(j as int).last() == es0[j - 1]);
                assert(keep.drop_last() =~= keep0);
                assert(keep.last() == b);
                assert(es0.take(j as int).len() == keep.len());
                assert(newv@ == mask_edges(es0.take(j as int), keep));
                assert(edge_ok(ns0, es0[j - 1]));
                if b {
                    assert forall|a: int, k: int|
                        0 <= a < newv@.len() && 0 <= k < self.edges@.len() implies (
                    #[trigger] newv@[a]).to != (#[trigger] self.edges@[k]).to by {
                        if a < new0.len() {
                            assert(new0[a].to != es0.skip(j as int)[k].to);
                        } else {
                            assert(newv@[a] == es0[j - 1]);
                            assert(es0.skip(j as int)[k] == es0[j + k]);
                            assert(es0[j - 1].to != es0[j + k].to);
                        }
                    }
                } else {
                    assert forall|a: int, k: int|
                        0 <= a < newv@.len() && 0 <= k < self.edges@.len() implies (
                    #[trigger] newv@[a]).to != (#[trigger] self.edges@[k]).to by {
                        assert(new0[a].to != es0.skip(j as int)[k].to);
                    }
                }
            }
        }
        proof {
            assert(es0.skip(j as int).len() == 0);
            assert(j == m);
            assert(es0.take(j as int) =~= es0);
        }
        self.edges = newv;
        let ghost es2 = self.edges@;
        self.prune();
        proof {
            assert(es2 == mask_edges(es0, keep));
        }
    }

    /// Consumes the graph and hands back every node it still holds, in slot
    /// order.
    pub fn flatten(self) -> (r: Vec<N>)
        ensures
            r@ == present_values(self.nodes_seq()),
            forall|i: int|
                0 <= i < self.nodes_seq().len() ==> (#[trigger] self.nodes_seq()[i] matches Some(v)
                    ==> r@.contains(v)),
    {
        let ghost orig = self.nodes@;
        let mut nodes = self.nodes;
        let total = nodes.len();
        let mut r: Vec<N> = Vec::new();
        let mut j: usize = 0;
        while nodes.len() > 0
            invariant
                orig.len() == total,
                j <= orig.len(),
                nodes@ == orig.skip(j as int),
                r@ == present_values(orig.take(j as int)),
            decreases orig.len() - j,
        {
            proof {
                assert(j < orig.len());
            }
            let x = nodes.remove(0);
            proof {
                assert(orig.skip(j as int).remove(0) =~= orig.skip(j + 1));
                assert(orig.take(j + 1).drop_last() =~= orig.take(j as int));
                assert(orig.take(j + 1).last() == orig[j as int]);
            }
            match x {
                Some(v) => r.push(v),
                None => (),
            }
            j += 1;
        }
        proof {
            assert(orig.skip(j as int).len() == 0);
        }
        proof {
            assert(orig.take(orig.len() as int) =~= orig);
            assert forall|i: int|
                0 <= i < orig.len() && orig[i] is Some implies present_values(orig).contains(
                orig[i]->Some_0,
            ) by {
                lemma_present_values_contains(orig, i);
            }
        }
        r
    }
}

/// Which slots of `nodes` are present.
pub open spec fn alive_mask<N>(nodes: Seq<Option<N>>) -> Seq<bool> {
    Seq::new(nodes.len(), |i: int| nodes[i] is Some)
}

/// The edges of a well-formed graph keep their shape under filtering: each
/// runs from a lower index to a higher one below `n`, and no two share a
/// target.
pub open spec fn edges_shape_ok<E>(n: int, edges: Seq<GraphEdge<E>>) -> bool {
    &&& forall|k: int|
        0 <= k < edges.len() ==> (#[trigger] edges[k]).from < edges[k].to && (edges[k].to as int)
            < n
    &&& forall|k: int, l: int|
        0 <= k < l < edges.len() ==> (#[trigger] edges[k]).to != (#[trigger] edges[l]).to
}

/// Every node reaches itself by the trivial path.
pub proof fn lemma_reachable_refl<E>(edges: Seq<GraphEdge<E>>, a: int)
    ensures
        reachable(edges, a, a),
{
    assert(is_path(edges, seq![a], a, a));
}

/// Reachability extends along one edge.
pub proof fn lemma_reachable_step<E>(edges: Seq<GraphEdge<E>>, a: int, b: int, c: int)
    requires
        reachable(edges, a, b),
        step_to(edges, b, c),
    ensures
        reachable(edges, a, c),
{
    let p = choose|p: Seq<int>| is_path(edges, p, a, b);
    let p2 = p.push(c);
    assert forall|i: int| 0 <= i < p2.len() - 1 implies #[trigger] step_to(edges, p2[i], p2[i + 1])
    by {
        if i < p.len() - 1 {
            assert(step_to(edges, p[i], p[i + 1]));
        } else {
            assert(p2[i] == b && p2[i + 1] == c);
        }
    }
    assert(is_path(edges, p2, a, c));
}

/// Along a marking closed under the edges, a path from a marked start marks
/// its end.
proof fn lemma_path_marked<E>(edges: Seq<GraphEdge<E>>, mark: Seq<bool>, p: Seq<int>, b: int)
    requires
        is_path(edges, p, 0, b),
        mark.len() >= 1,
        mark[0],
        forall|k: int|
            0 <= k < edges.len() ==> ((#[trigger] edges[k]).from as int) < mark.len() && ((
            edges[k]).to as int) < mark.len(),
        forall|k: int|
            0 <= k < edges.len() && mark[(#[trigger] edges[k]).from as int] ==> mark[(
            edges[k]).to as int],
    ensures
        0 <= b < mark.len(),
        mark[b],
    decreases p.len(),
{
    if p.len() == 1 {
        assert(b == 0);
    } else {
        let q = p.drop_last();
        assert forall|i: int| 0 <= i < q.len() - 1 implies #[trigger] step_to(edges, q[i], q[i + 1])
        by {
            assert(step_to(edges, p[i], p[i + 1]));
        }
        assert(is_path(edges, q, 0, p[p.len() - 2]));
        lemma_path_marked(edges, mark, q, p[p.len() - 2]);
        let i0 = p.len() - 2;
        assert(step_to(edges, p[i0], p[i0 + 1]));
        assert(p[i0 + 1] == b);
        let k = choose|k: int|
            0 <= k < edges.len() && (#[trigger] edges[k]).from == p[i0] && edges[k].to == p[i0 + 1];
        assert(mark[edges[k].from as int]);
    }
}

/// Whether some edge among the first `upto` runs from the root to `i`.
pub open spec fn decided<E>(edges: Seq<GraphEdge<E>>, upto: int, i: int) -> bool {
    exists|k: int| 0 <= k < upto && (#[trigger] edges[k]).from == 0 && edges[k].to == i
}

/// Two masks that agree on every edge endpoint filter the same edges.
proof fn lemma_filter_edges_agree<E>(edges: Seq<GraphEdge<E>>, m1: Seq<bool>, m2: Seq<bool>)
    requires
        m1.len() == m2.len(),
        forall|k: int|
            0 <= k < edges.len() ==> ((#[trigger] edges[k]).from as int) < m1.len() && ((
            edges[k]).to as int) < m1.len() && m1[edges[k].from as int] == m2[edges[k].from as int]
                && m1[edges[k].to as int] == m2[edges[k].to as int],
    ensures
        filter_edges(edges, m1) == filter_edges(edges, m2),
    decreases edges.len(),
{
    if edges.len() > 0 {
        assert forall|k: int| 0 <= k < edges.drop_last().len() implies ((
        #[trigger] edges.drop_last()[k]).from as int) < m1.len() && ((edges.drop_last()[k]).to
            as int) < m1.len() && m1[edges.drop_last()[k].from as int] == m2[edges.drop_last()[k].from as int]
            && m1[edges.drop_last()[k].to as int] == m2[edges.drop_last()[k].to as int] by {
            assert(edges.drop_last()[k] == edges[k]);
        }
        lemma_filter_edges_agree(edges.drop_last(), m1, m2);
        assert(edges.last() == edges[edges.len() - 1]);
    }
}

/// A kept edge appears in the filtered edge sequence.
proof fn lemma_filter_edges_contains<E>(es: Seq<GraphEdge<E>>, mask: Seq<bool>, k: int)
    requires
        0 <= k < es.len(),
        edge_kept(es[k], mask),
    ensures
        exists|k2: int|
            0 <= k2 < filter_edges(es, mask).len() && #[trigger] filter_edges(es, mask)[k2] == (
            es[k]),
    decreases es.len(),
{
    if k == es.len() - 1 {
        assert(es.last() == es[k]);
        let f = filter_edges(es, mask);
        assert(f[f.len() - 1] == es[k]);
    } else {
        assert(es.drop_last()[k] == es[k]);
        lemma_filter_edges_contains(es.drop_last(), mask, k);
        let sub = filter_edges(es.drop_last(), mask);
        let k2 = choose|k2: int| 0 <= k2 < sub.len() && #[trigger] sub[k2] == es[k];
        assert(filter_edges(es, mask)[k2] == es[k]);
    }
}

/// A path whose nodes all survive pruning is still a path among the
/// surviving edges.
proof fn lemma_path_survives<N, E>(
    es: Seq<GraphEdge<E>>,
    nodes1: Seq<Option<N>>,
    p: Seq<int>,
    b: int,
)
    requires
        is_path(es, p, 0, b),
        nodes1.len() >= 1,
        nodes1[0] is Some,
        forall|k: int|
            0 <= k < es.len() ==> ((#[trigger] es[k]).from as int) < nodes1.len() && ((
            es[k]).to as int) < nodes1.len(),
        forall|k: int|
            0 <= k < es.len() && reachable(es, 0, (#[trigger] es[k]).from as int) ==> nodes1[(
            es[k]).from as int] is Some,
        forall|k: int|
            0 <= k < es.len() && reachable(es, 0, (#[trigger] es[k]).to as int) ==> nodes1[(
            es[k]).to as int] is Some,
    ensures
        is_path(filter_edges(es, alive_mask(nodes1)), p, 0, b),
    decreases p.len(),
{
    if p.len() == 1 {
    } else {
        let q = p.drop_last();
        let i0 = p.len() - 2;
        assert forall|i: int| 0 <= i < q.len() - 1 implies #[trigger] step_to(es, q[i], q[i + 1])
        by {
            assert(step_to(es, p[i], p[i + 1]));
        }
        assert(is_path(es, q, 0, p[i0]));
        lemma_path_survives(es, nodes1, q, p[i0]);
        assert(step_to(es, p[i0], p[i0 + 1]));
        let k = choose|k: int|
            0 <= k < es.len() && (#[trigger] es[k]).from == p[i0] && es[k].to == p[i0 + 1];
        assert(reachable(es, 0, p[i0])) by {
            assert(is_path(es, q, 0, p[i0]));
        }
        assert(reachable(es, 0, p[i0 + 1])) by {
            lemma_reachable_step(es, 0, p[i0], p[i0 + 1]);
        }
        assert(edge_kept(es[k], alive_mask(nodes1)));
        lemma_filter_edges_contains(es, alive_mask(nodes1), k);
        let f = filter_edges(es, alive_mask(nodes1));
        let k2 = choose|k2: int| 0 <= k2 < f.len() && #[trigger] f[k2] == es[k];
        assert(step_to(f, p[i0], p[i0 + 1]));
        assert forall|i: int| 0 <= i < p.len() - 1 implies #[trigger] step_to(f, p[i], p[i + 1])
        by {
            if i < i0 {
                assert(step_to(f, q[i], q[i + 1]));
            }
        }
    }
}

/// Growing a well-formed graph by one present node and one edge into it
/// keeps every edge allowed and every edge target unique.
proof fn lemma_grown_graph_wf<N, E>(
    ns0: Seq<Option<N>>,
    es0: Seq<GraphEdge<E>>,
    ns1: Seq<Option<N>>,
    es1: Seq<GraphEdge<E>>,
)
    requires
        ns0.len() >= 1,
        ns0[0] is Some,
        forall|k: int| 0 <= k < es0.len() ==> edge_ok(ns0, #[trigger] es0[k]),
        forall|k: int, l: int|
            0 <= k < l < es0.len() ==> (#[trigger] es0[k]).to != (#[trigger] es0[l]).to,
        ns1.len() == ns0.len() + 1,
        forall|i: int| 0 <= i < ns0.len() ==> ns1[i] == ns0[i],
        ns1.last() is Some,
        es1.len() == es0.len() + 1,
        forall|k: int| 0 <= k < es0.len() ==> es1[k] == es0[k],
        es1.last().to == ns0.len(),
        es1.last().from < es1.last().to,
        ns0[es1.last().from as int] is Some,
    ensures
        forall|k: int| 0 <= k < es1.len() ==> edge_ok(ns1, #[trigger] es1[k]),
        forall|k: int, l: int|
            0 <= k < l < es1.len() ==> (#[trigger] es1[k]).to != (#[trigger] es1[l]).to,
{
    assert forall|k: int| 0 <= k < es1.len() implies edge_ok(ns1, #[trigger] es1[k]) by {
        if k < es0.len() {
            assert(edge_ok(ns0, es0[k]));
        } else {
            assert(es1[k] == es1.last());
        }
    }
    assert forall|k: int, l: int| 0 <= k < l < es1.len() implies (#[trigger] es1[k]).to != (
    #[trigger] es1[l]).to by {
        if l < es0.len() {
            assert(es0[k].to != es0[l].to);
        } else {
            assert(edge_ok(ns0, es0[k]));
        }
    }
}

/// A mask-selected edge appears in the masked edge sequence.
proof fn lemma_mask_edges_contains<E>(es: Seq<GraphEdge<E>>, keep: Seq<bool>, k: int)
    requires
        0 <= k < es.len(),
        keep.len() == es.len(),
        keep[k],
    ensures
        exists|k2: int|
            0 <= k2 < mask_edges(es, keep).len() && #[trigger] mask_edges(es, keep)[k2] == es[k],
    decreases es.len(),
{
    if k == es.len() - 1 {
        let f = mask_edges(es, keep);
        assert(f[f.len() - 1] == es[k]);
    } else {
        assert(es.drop_last()[k] == es[k]);
        assert(keep.drop_last()[k] == keep[k]);
        lemma_mask_edges_contains(es.drop_last(), keep.drop_last(), k);
        let sub = mask_edges(es.drop_last(), keep.drop_last());
        let k2 = choose|k2: int| 0 <= k2 < sub.len() && #[trigger] sub[k2] == es[k];
        assert(mask_edges(es, keep)[k2] == es[k]);
    }
}

/// After an insertion, flattening the grown graph hands back a vector that
/// contains the inserted node: `insert` makes the node arena
/// `nodes0.push(Some(n))`, and `flatten` returns exactly the present values
/// of the arena.
pub proof fn lemma_insert_then_flatten_contains<N>(nodes0: Seq<Option<N>>, n: N)
    ensures
        present_values(nodes0.push(Some(n))).contains(n),
{
    let ns1 = nodes0.push(Some(n));
    let f = present_values(ns1);
    assert(ns1.last() == Some(n));
    assert(f[f.len() - 1] == n);
}

/// A node that was reachable before a node-filtering step, along a path
/// every node of which the step kept, is never dropped: its slot still holds
/// the same value afterwards.  `keep` is the decision sequence the filtering
/// step's contract exposes.
pub proof fn lemma_node_filter_keeps_kept_paths<N, E>(
    ns0: Seq<Option<N>>,
    es0: Seq<GraphEdge<E>>,
    ns1: Seq<Option<N>>,
    keep: Seq<bool>,
    p: Seq<int>,
    b: int,
)
    requires
        keep.len() == ns0.len(),
        forall|i: int|
            0 <= i < keep.len() ==> #[trigger] ns1[i] == (if keep[i] && reachable(
                filter_edges(es0, keep),
                0,
                i,
            ) {
                ns0[i]
            } else {
                None::<N>
            }),
        forall|k: int|
            0 <= k < es0.len() ==> ((#[trigger] es0[k]).from as int) < ns0.len() && ((
            es0[k]).to as int) < ns0.len(),
        is_path(es0, p, 0, b),
        forall|i: int| 0 <= i < p.len() ==> 0 <= #[trigger] p[i] < keep.len() && keep[p[i]],
        0 <= b < ns0.len(),
    ensures
        ns1[b] == ns0[b],
{
    let f = filter_edges(es0, keep);
    assert forall|i: int| 0 <= i < p.len() - 1 implies #[trigger] step_to(f, p[i], p[i + 1]) by {
        assert(step_to(es0, p[i], p[i + 1]));
        let k = choose|k: int|
            0 <= k < es0.len() && (#[trigger] es0[k]).from == p[i] && es0[k].to == p[i + 1];
        assert(edge_kept(es0[k], keep));
        lemma_filter_edges_contains(es0, keep, k);
        let k2 = choose|k2: int| 0 <= k2 < f.len() && #[trigger] f[k2] == es0[k];
    }
    assert(is_path(f, p, 0, b));
    assert(keep[b]);
}

/// A node that was reachable before an edge-filtering step, along a path
/// every edge of which the step kept, is never dropped.  `keep` is the
/// per-edge decision sequence the filtering step's contract exposes.
pub proof fn lemma_edge_filter_keeps_kept_paths<N, E>(
    ns0: Seq<Option<N>>,
    es0: Seq<GraphEdge<E>>,
    ns1: Seq<Option<N>>,
    keep: Seq<bool>,
    p: Seq<int>,
    b: int,
)
    requires
        keep.len() == es0.len(),
        forall|i: int|
            0 <= i < ns0.len() ==> #[trigger] ns1[i] == (if reachable(
                mask_edges(es0, keep),
                0,
                i,
            ) {
                ns0[i]
            } else {
                None::<N>
            }),
        is_path(es0, p, 0, b),
        forall|i: int|
            0 <= i < p.len() - 1 ==> exists|k: int|
                0 <= k < es0.len() && keep[k] && (#[trigger] es0[k]).from == #[trigger] p[i]
                    && es0[k].to == p[i + 1],
        0 <= b < ns0.len(),
    ensures
        ns1[b] == ns0[b],
{
    let f = mask_edges(es0, keep);
    assert forall|i: int| 0 <= i < p.len() - 1 implies #[trigger] step_to(f, p[i], p[i + 1]) by {
        let k = choose|k: int|
            0 <= k < es0.len() && keep[k] && (#[trigger] es0[k]).from == p[i] && es0[k].to == p[i
                + 1];
        lemma_mask_edges_contains(es0, keep, k);
        let k2 = choose|k2: int| 0 <= k2 < f.len() && #[trigger] f[k2] == es0[k];
    }
    assert(is_path(f, p, 0, b));
}

/// The vertex lines of the textual export, one per present node, in slot
/// order: the slot number, then the node's label.
pub open spec fn dot_nodes<N: Labeled>(nodes: Seq<Option<N>>) -> Seq<char>
    decreases nodes.len(),
{
    if nodes.len() == 0 {
        Seq::empty()
    } else if nodes.last() is Some {
        dot_nodes(nodes.drop_last()) + "    "@ + dec_digits((nodes.len() - 1) as nat)
            + " [ label = \""@ + nodes.last()->Some_0.label_spec() + "\" ]\n"@
    } else {
        dot_nodes(nodes.drop_last())
    }
}

/// The edge lines of the textual export, one per edge, in edge order.
pub open spec fn dot_edges<E>(edges: Seq<GraphEdge<E>>) -> Seq<char>
    decreases edges.len(),
{
    if edges.len() == 0 {
        Seq::empty()
    } else {
        dot_edges(edges.drop_last()) + "    "@ + dec_digits(edges.last().from as nat) + " -> "@
            + dec_digits(edges.last().to as nat) + "\n"@
    }
}

/// The whole textual export of a graph state.
pub open spec fn dot_spec<N: Labeled, E>(nodes: Seq<Option<N>>, edges: Seq<GraphEdge<E>>) -> Seq<
    char,
> {
    "digraph {\n"@ + dot_nodes(nodes) + dot_edges(edges) + "}\n"@
}

impl<N: Labeled, E> DependencyGraph<N, E> {
    /// Renders the graph as Graphviz-compatible text: one labelled vertex
    /// per node, one unlabelled directed edge per edge.
    pub fn dot(&self) -> (r: String)
        ensures
            r@ == dot_spec(self.nodes_seq(), self.edges_seq()),
    {
        let ghost ns = self.nodes@;
        let ghost es = self.edges@;
        let mut r = String::from_str("digraph {\n");
        let mut i: usize = 0;
        while i < self.nodes.len()
            invariant
                ns == self.nodes@,
                es == self.edges@,
                i <= ns.len(),
                r@ == "digraph {\n"@ + dot_nodes(ns.take(i as int)),
            decreases ns.len() - i,
        {
            match &self.nodes[i] {
                Some(v) => {
                    r.append("    ");
                    let num = u64_to_string(i as u64);
                    r.append(num.as_str());
                    r.append(" [ label = \"");
                    let l = v.label();
                    r.append(l.as_str());
                    r.append("\" ]\n");
                },
                None => (),
            }
            i += 1;
            proof {
                assert(ns.take(i as int).drop_last() =~= ns.take(i - 1));
                assert(ns.take(i as int).last() == ns[i - 1]);
            }
        }
        proof {
            assert(ns.take(ns.len() as int) =~= ns);
        }
        let mut k: usize = 0;
        while k < self.edges.len()
            invariant
                ns == self.nodes@,
                es == self.edges@,
                k <= es.len(),
                r@ == "digraph {\n"@ + dot_nodes(ns) + dot_edges(es.take(k as int)),
            decreases es.len() - k,
        {
            r.append("    ");
            let nf = u64_to_string(self.edges[k].from as u64);
            r.append(nf.as_str());
            r.append(" -> ");
            let nt = u64_to_string(self.edges[k].to as u64);
            r.append(nt.as_str());
            r.append("\n");
            k += 1;
            proof {
                assert(es.take(k as int).drop_last() =~= es.take(k - 1));
                assert(es.take(k as int).last() == es[k - 1]);
            }
        }
        proof {
            assert(es.take(es.len() as int) =~= es);
        }
        r.append("}\n");
        r
    }
}

/// The value of any present slot appears among the present values.
proof fn lemma_present_values_contains<N>(nodes: Seq<Option<N>>, i: int)
    requires
        0 <= i < nodes.len(),
        nodes[i] is Some,
    ensures
        present_values(nodes).contains(nodes[i]->Some_0),
    decreases nodes.len(),
{
    if i == nodes.len() - 1 {
        assert(present_values(nodes).last() == nodes[i]->Some_0);
    } else {
        lemma_present_values_contains(nodes.drop_last(), i);
        let sub = present_values(nodes.drop_last());
        let w = choose|w: int| 0 <= w < sub.len() && sub[w] == nodes[i]->Some_0;
        if nodes.last() is Some {
            assert(present_values(nodes)[w] == nodes[i]->Some_0);
        } else {
            assert(present_values(nodes)[w] == nodes[i]->Some_0);
        }
    }
}

} // verus!
