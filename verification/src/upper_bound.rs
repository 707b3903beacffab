//! Trees on the terminals alone, whose length bounds that of the minimum
//! Steiner tree from above.

use crate::graph::{
    adjacent, degree_sum, is_tree, lemma_reach_edge, lemma_reach_refl, lemma_reach_sym,
    lemma_reach_trans, reaches,
};
use crate::mst::{kruskal_tree, lemma_degree_sum_none, spans, Kruskal, MST};
use crate::point::Point;
use crate::space::MinkowskiSpace;
use crate::steiner_tree::{
    adj_of, edge_list_ok, edges_added, initial_nodes, lemma_edge_added_degree, lemma_edges_added,
    lemma_initial_nodes, listed, one_dimension, same_edge, NodeView, SteinerTree,
};
use vstd::prelude::*;

verus! {

/// The path through the terminals in the order in which they come.
#[derive(Debug)]
pub struct LineTree;

/// The minimum spanning tree of the terminals.
#[derive(Debug)]
pub struct MSTBound;

/// A first tree for the search.
///
/// Which tree that is, is a function of the terminals and the space: the law
/// of the bound.
pub trait UpperBound<P: Point, M: MinkowskiSpace<P>> {
    /// The nodes of the tree that `bound` gives.
    spec fn bound_law(&self) -> spec_fn(Seq<P>, M) -> Seq<NodeView<P::R>>;

    /// A tree on the terminals `t` alone that joins them all.
    fn bound(&self, t: Vec<P>, geo: &M) -> (st: SteinerTree<P>)
        requires
            one_dimension(t@, Seq::<P>::empty()),
        ensures
            st.wf(),
            st@ == (self.bound_law())(t@, *geo),
            spans(st@, t@),
            st.spec_terminal_count() == t@.len(),
            t@.len() > 0 ==> is_tree(adj_of(st@)),
    ;
}

/// The edges of the path through `n` nodes in their order.
pub open spec fn line_edges(n: nat) -> Seq<(usize, usize)> {
    Seq::new(
        if n == 0 {
            0nat
        } else {
            (n - 1) as nat
        },
        |i: int| (i as usize, (i + 1) as usize),
    )
}

/// The path through the terminals `t` in their order.
pub open spec fn line_tree<P: Point>(t: Seq<P>) -> Seq<NodeView<P::R>> {
    edges_added(
        initial_nodes(t, Seq::<P>::empty()),
        line_edges(t.len()),
        line_edges(t.len()).len() as int,
    )
}

impl<P: Point, M: MinkowskiSpace<P>> UpperBound<P, M> for LineTree {
    /// The path of `line_tree`.
    open spec fn bound_law(&self) -> spec_fn(Seq<P>, M) -> Seq<NodeView<P::R>> {
        |t: Seq<P>, geo: M| line_tree(t)
    }

    fn bound(&self, t: Vec<P>, geo: &M) -> (st: SteinerTree<P>)
        ensures
            st@ == line_tree(t@),
    {
        let mut edges: Vec<(usize, usize)> = Vec::new();
        let n = t.len();
        let mut i: usize = 0;
        while i + 1 < n
            invariant
                i <= n,
                n == 0 ==> i == 0,
                n > 0 ==> i <= n - 1,
                edges@.len() == i,
                forall|k: int| 0 <= k < i
                    ==> (#[trigger] edges@[k]) == (k as usize, (k + 1) as usize),
            decreases n - i,
        {
            edges.push((i, i + 1));
            i += 1;
        }
        let none: Vec<P> = Vec::new();
        proof {
            assert(none@ =~= Seq::<P>::empty());
            assert(edges@ =~= line_edges(t@.len()));
            lemma_line_tree(t@);
        }
        SteinerTree::new(t.as_slice(), none.as_slice(), edges.as_slice())
    }
}

impl Default for LineTree {
    fn default() -> (r: Self) {
        LineTree
    }
}

impl<P: Point, M: MinkowskiSpace<P>> UpperBound<P, M> for MSTBound {
    /// The tree of `kruskal_tree`.
    open spec fn bound_law(&self) -> spec_fn(Seq<P>, M) -> Seq<NodeView<P::R>> {
        |t: Seq<P>, geo: M| kruskal_tree::<P, M>(t, &geo)
    }

    fn bound(&self, t: Vec<P>, geo: &M) -> (st: SteinerTree<P>)
        ensures
            st@ == kruskal_tree::<P, M>(t@, geo),
    {
        let mut k = Kruskal::new();
        k.find(t.as_slice(), geo)
    }
}

/// Adding edges adds two ends each.
pub proof fn lemma_edges_added_degree<R>(v: Seq<NodeView<R>>, edges: Seq<(usize, usize)>, k: int)
    requires
        edge_list_ok(edges, v.len()),
        0 <= k <= edges.len(),
    ensures
        edges_added(v, edges, k).len() == v.len(),
        degree_sum(adj_of(edges_added(v, edges, k))) == degree_sum(adj_of(v)) + 2 * k,
    decreases k,
{
    if k > 0 {
        lemma_edges_added_degree(v, edges, k - 1);
        let e = edges[k - 1];
        lemma_edge_added_degree(edges_added(v, edges, k - 1), e.0, e.1);
    }
}

/// In the path every node reaches the first.
proof fn lemma_line_reach(a: Seq<Seq<usize>>, n: nat, i: usize)
    requires
        a.len() == n,
        n <= usize::MAX,
        i < n,
        forall|u: usize, v: usize| adjacent(a, u, v) <==> listed(line_edges(n), n - 1, u, v),
    ensures
        reaches(a, i, 0),
    decreases i,
{
    if i == 0 {
        lemma_reach_refl(a, 0);
    } else {
        let j = (i - 1) as usize;
        lemma_line_reach(a, n, j);
        assert(same_edge(line_edges(n)[j as int], (i, j)));
        assert(listed(line_edges(n), n - 1, i, j));
        lemma_reach_edge(a, i, j);
        lemma_reach_trans(a, i, j, 0);
    }
}

/// The path through the terminals is a tree.
pub proof fn lemma_line_tree<P: Point>(t: Seq<P>)
    requires
        one_dimension(t, Seq::<P>::empty()),
        t.len() <= usize::MAX,
    ensures
        edge_list_ok(line_edges(t.len()), t.len()),
        crate::steiner_tree::view_wf(line_tree(t)),
        spans(line_tree(t), t),
        t.len() > 0 ==> is_tree(adj_of(line_tree(t))),
{
    let n = t.len();
    let v0 = initial_nodes(t, Seq::<P>::empty());
    let es = line_edges(n);
    lemma_initial_nodes(t, Seq::<P>::empty());
    assert(edge_list_ok(es, n));
    lemma_edges_added(v0, es, es.len() as int);
    lemma_edges_added_degree(v0, es, es.len() as int);
    let v = line_tree(t);
    let a = adj_of(v);
    assert forall|i: int| 0 <= i < v.len() implies (#[trigger] v[i]).coords == t[i].coords_spec()
        && v[i].point_id == t[i].id_spec() && v[i].is_terminal by {
        assert(v0[i].is_terminal);
    }
    if n > 0 {
        lemma_degree_sum_none(adj_of(v0));
        assert forall|i: usize, j: usize| i < a.len() && j < a.len() implies #[trigger] reaches(
            a,
            i,
            j,
        ) by {
            lemma_line_reach(a, n, i);
            lemma_line_reach(a, n, j);
            lemma_reach_sym(a, j, 0);
            lemma_reach_trans(a, i, 0, j);
        }
    }
}

} // verus!
