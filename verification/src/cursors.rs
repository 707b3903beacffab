//! Cursors over a Steiner tree: each hands out, call by call, the indices of
//! the nodes or edges that it stands for.

use crate::point::{seq_sub, Point};
use crate::scalar::Real;
use crate::space::MinkowskiSpace;
use crate::steiner_tree::{Node, NodeView, SteinerTree};
use vstd::prelude::*;

verus! {

/// An edge, by the indices of its two ends.
#[derive(Clone, Copy, Debug, PartialEq, Eq, Structural)]
pub struct Edge {
    n1: usize,
    n2: usize,
}

/// The neighbours of a node.
pub struct Neighbours<'a, P> {
    node: &'a Node<P>,
    k: usize,
}

/// The edges at a node, the node being the first end of each.
pub struct IncidentEdges<'a, P> {
    iter: Neighbours<'a, P>,
    node: &'a Node<P>,
}

/// The edges of a tree, each once.
pub struct Edges<'a, P> {
    tree: &'a SteinerTree<P>,
    i: usize,
    k: usize,
}

/// The terminals of a tree.
pub struct Terminals<'a, P> {
    tree: &'a SteinerTree<P>,
    i: usize,
}

/// The Steiner points of a tree. The cursor does not hold the tree, so that
/// the points can be moved while it is in use.
pub struct SteinerPoints {
    i: usize,
    steiner_points: usize,
}

/// The pairs of different nodes, each pair once.
pub struct NodePairs {
    n: usize,
    i1: usize,
    i2: usize,
}

/// The indices from `i` on of the nodes that are terminals (`terminal`) or
/// Steiner points (`!terminal`), in rising order.
pub open spec fn nodes_from<R>(v: Seq<NodeView<R>>, i: int, terminal: bool) -> Seq<usize>
    decreases v.len() - i,
{
    if i < 0 || i >= v.len() {
        Seq::empty()
    } else if v[i].is_terminal == terminal {
        seq![i as usize] + nodes_from(v, i + 1, terminal)
    } else {
        nodes_from(v, i + 1, terminal)
    }
}

/// The edges from node `i` to its neighbours from the `k`-th on, those to a
/// node of higher index only.
pub open spec fn node_edges_from(ns: Seq<usize>, i: usize, k: int) -> Seq<(usize, usize)>
    decreases ns.len() - k,
{
    if k < 0 || k >= ns.len() {
        Seq::empty()
    } else if i < ns[k] {
        seq![(i, ns[k])] + node_edges_from(ns, i, k + 1)
    } else {
        node_edges_from(ns, i, k + 1)
    }
}

/// The edges that are met from neighbour `k` of node `i` on, when the nodes
/// are walked in order and each edge is taken at its lower end.
pub open spec fn edges_from<R>(v: Seq<NodeView<R>>, i: int, k: int) -> Seq<(usize, usize)>
    decreases v.len() - i,
{
    if i < 0 || i >= v.len() {
        Seq::empty()
    } else {
        node_edges_from(v[i].ns, i as usize, k) + edges_from(v, i + 1, 0)
    }
}

/// The edges of the tree, each once, in the order in which `edges` hands them
/// out.
pub open spec fn edge_list<R>(v: Seq<NodeView<R>>) -> Seq<(usize, usize)> {
    edges_from(v, 0, 0)
}

/// The pairs `(i1, i2)`, `i1 < i2 < n`, from the given pair on, in
/// lexicographic order.
pub open spec fn pairs_from(n: int, i1: int, i2: int) -> Seq<(usize, usize)>
    decreases n - i1, n - i2,
{
    if i1 < 0 || i2 <= i1 || i2 >= n {
        Seq::empty()
    } else if i2 + 1 == n {
        seq![(i1 as usize, i2 as usize)] + pairs_from(n, i1 + 1, i1 + 2)
    } else {
        seq![(i1 as usize, i2 as usize)] + pairs_from(n, i1, i2 + 1)
    }
}

/// The sum, from zero, of the lengths in `geo` of the edges `es` between the
/// nodes `v`, taken in order.
pub open spec fn length_of<P: Point, M: MinkowskiSpace<P>>(
    v: Seq<NodeView<P::R>>,
    geo: &M,
    es: Seq<(usize, usize)>,
) -> P::R
    decreases es.len(),
{
    if es.len() == 0 {
        P::R::zero_spec()
    } else {
        length_of::<P, M>(v, geo, es.drop_last()).add_spec(
            geo.norm_spec(seq_sub(v[es.last().0 as int].coords, v[es.last().1 as int].coords)),
        )
    }
}

/// The length of the tree in `geo`: the sum over its edges, in the order of
/// `edge_list`.
pub open spec fn tree_length<P: Point, M: MinkowskiSpace<P>>(
    v: Seq<NodeView<P::R>>,
    geo: &M,
) -> P::R {
    length_of::<P, M>(v, geo, edge_list(v))
}

impl Edge {
    /// The two ends.
    pub closed spec fn ends(&self) -> (usize, usize) {
        (self.n1, self.n2)
    }

    /// The two ends.
    pub fn nodes(&self) -> (e: (usize, usize))
        ensures
            e == self.ends(),
    {
        (self.n1, self.n2)
    }

    /// The distance between the two ends in `tree`.
    pub fn len<P: Point, M: MinkowskiSpace<P>>(&self, tree: &SteinerTree<P>, geo: &M) -> (r: P::R)
        requires
            tree.wf(),
            self.ends().0 < tree@.len(),
            self.ends().1 < tree@.len(),
        ensures
            r == geo.norm_spec(
                seq_sub(tree@[self.ends().0 as int].coords, tree@[self.ends().1 as int].coords),
            ),
    {
        proof {
            assert(tree@[self.n1 as int].coords.len() == tree@[0].coords.len());
            assert(tree@[self.n2 as int].coords.len() == tree@[0].coords.len());
        }
        geo.dist(tree.i(self.n1).p(), tree.i(self.n2).p())
    }
}

impl<'a, P: Point> Neighbours<'a, P> {
    /// The neighbours still to come.
    pub closed spec fn remaining(&self) -> Seq<usize> {
        if self.k <= self.node@.ns.len() {
            self.node@.ns.skip(self.k as int)
        } else {
            Seq::empty()
        }
    }

    /// The neighbours of `node`, from the first on.
    pub(crate) fn new(node: &'a Node<P>) -> (c: Self)
        ensures
            c.remaining() == node@.ns,
    {
        let c = Neighbours { node, k: 0 };
        proof {
            assert(node@.ns.skip(0) =~= node@.ns);
        }
        c
    }

    /// The next neighbour.
    pub fn next(&mut self) -> (r: Option<usize>)
        ensures
            r is None ==> old(self).remaining().len() == 0 && final(self).remaining().len() == 0,
            r is Some ==> old(self).remaining() == seq![r->0] + final(self).remaining(),
    {
        if self.k < self.node.degree() {
            let n = self.node.neighbour(self.k);
            proof {
                assert(self.node@.ns.skip(self.k as int) =~= seq![n] + self.node@.ns.skip(
                    self.k + 1,
                ));
            }
            self.k += 1;
            Some(n)
        } else {
            None
        }
    }

    /// The number of neighbours still to come.
    pub fn len(&self) -> (n: usize)
        ensures
            n == self.remaining().len(),
    {
        if self.k <= self.node.degree() {
            self.node.degree() - self.k
        } else {
            0
        }
    }
}

impl<'a, P: Point> IncidentEdges<'a, P> {
    /// The far ends of the edges still to come.
    pub closed spec fn remaining(&self) -> Seq<usize> {
        self.iter.remaining()
    }

    /// The index of the node whose edges these are.
    pub closed spec fn origin(&self) -> usize {
        self.node@.id
    }

    /// The edges at `node`, from the first on.
    pub(crate) fn new(node: &'a Node<P>) -> (c: Self)
        ensures
            c.remaining() == node@.ns,
            c.origin() == node@.id,
    {
        IncidentEdges { iter: Neighbours::new(node), node }
    }

    /// The next edge.
    pub fn next(&mut self) -> (r: Option<Edge>)
        ensures
            final(self).origin() == old(self).origin(),
            r is None ==> old(self).remaining().len() == 0 && final(self).remaining().len() == 0,
            r is Some ==> old(self).remaining() == seq![r->0.ends().1] + final(self).remaining()
                && r->0.ends().0 == old(self).origin(),
    {
        match self.iter.next() {
            Some(n) => Some(Edge { n1: self.node.id(), n2: n }),
            None => None,
        }
    }
}

impl<'a, P: Point> Edges<'a, P> {
    /// The edges still to come.
    pub closed spec fn remaining(&self) -> Seq<(usize, usize)> {
        edges_from(self.tree@, self.i as int, self.k as int)
    }

    /// The edges of `tree`, from the first on.
    pub(crate) fn new(tree: &'a SteinerTree<P>) -> (c: Self)
        ensures
            c.remaining() == edge_list(tree@),
    {
        Edges { tree, i: 0, k: 0 }
    }

    /// The next edge.
    pub fn next(&mut self) -> (r: Option<Edge>)
        ensures
            r is None ==> old(self).remaining().len() == 0 && final(self).remaining().len() == 0,
            r is Some ==> old(self).remaining() == seq![r->0.ends()] + final(self).remaining(),
    {
        let n = self.tree.node_count();
        while self.i < n
            invariant
                self.tree == old(self).tree,
                n == self.tree@.len(),
                edges_from(self.tree@, self.i as int, self.k as int) == old(self).remaining(),
            decreases n - self.i, self.tree@[self.i as int].ns.len() - self.k,
        {
            let node = self.tree.i(self.i);
            let ghost here = edges_from(self.tree@, self.i as int, self.k as int);
            if self.k >= node.degree() {
                proof {
                    assert(here =~= edges_from(self.tree@, self.i + 1, 0));
                }
                self.i += 1;
                self.k = 0;
            } else {
                let j = node.neighbour(self.k);
                self.k += 1;
                proof {
                    let next = edges_from(self.tree@, self.i as int, self.k as int);
                    if self.i < j {
                        assert(here =~= seq![(self.i, j)] + next);
                    } else {
                        assert(here =~= next);
                    }
                }
                if self.i < j {
                    return Some(Edge { n1: self.i, n2: j });
                }
            }
        }
        None
    }
}

impl<'a, P: Point> Terminals<'a, P> {
    /// The terminals still to come.
    pub closed spec fn remaining(&self) -> Seq<usize> {
        nodes_from(self.tree@, self.i as int, true)
    }

    /// The number of terminals of the tree.
    pub closed spec fn total(&self) -> usize {
        self.tree.spec_terminal_count()
    }

    /// The terminals of `tree`, from the first on.
    pub(crate) fn new(tree: &'a SteinerTree<P>) -> (c: Self)
        ensures
            c.remaining() == nodes_from(tree@, 0, true),
            c.total() == tree.spec_terminal_count(),
    {
        Terminals { tree, i: 0 }
    }

    /// The next terminal.
    pub fn next(&mut self) -> (r: Option<usize>)
        ensures
            final(self).total() == old(self).total(),
            r is None ==> old(self).remaining().len() == 0 && final(self).remaining().len() == 0,
            r is Some ==> old(self).remaining() == seq![r->0] + final(self).remaining(),
    {
        let n = self.tree.node_count();
        while self.i < n
            invariant
                self.tree == old(self).tree,
                n == self.tree@.len(),
                nodes_from(self.tree@, self.i as int, true) == old(self).remaining(),
            decreases n - self.i,
        {
            let j = self.i;
            self.i += 1;
            if self.tree.i(j).is_terminal() {
                return Some(j);
            }
        }
        None
    }

    /// The number of terminals of the tree, whatever has been handed out.
    pub fn len(&self) -> (n: usize)
        ensures
            n == self.total(),
    {
        self.tree.terminal_count()
    }
}

impl SteinerPoints {
    /// Where the cursor stands.
    pub closed spec fn position(&self) -> usize {
        self.i
    }

    /// The number of Steiner points that the tree had when the cursor was made.
    pub closed spec fn total(&self) -> usize {
        self.steiner_points
    }

    /// A cursor before the first node, for a tree with that many Steiner
    /// points.
    pub(crate) fn new(steiner_points: usize) -> (c: Self)
        ensures
            c.position() == 0,
            c.total() == steiner_points,
    {
        SteinerPoints { i: 0, steiner_points }
    }

    /// The next Steiner point of `tree`.
    pub fn next<P: Point>(&mut self, tree: &SteinerTree<P>) -> (r: Option<usize>)
        ensures
            final(self).total() == old(self).total(),
            r is None ==> nodes_from(tree@, old(self).position() as int, false).len() == 0
                && nodes_from(tree@, final(self).position() as int, false).len() == 0,
            r is Some ==> nodes_from(tree@, old(self).position() as int, false) == seq![r->0]
                + nodes_from(tree@, final(self).position() as int, false),
            r is Some ==> old(self).position() <= r->0 < tree@.len()
                && !tree@[r->0 as int].is_terminal
                && final(self).position() == r->0 + 1,
    {
        let n = tree.node_count();
        while self.i < n
            invariant
                n == tree@.len(),
                self.steiner_points == old(self).steiner_points,
                old(self).i <= self.i,
                nodes_from(tree@, self.i as int, false) == nodes_from(
                    tree@,
                    old(self).position() as int,
                    false,
                ),
            decreases n - self.i,
        {
            let j = self.i;
            self.i += 1;
            if !tree.i(j).is_terminal() {
                return Some(j);
            }
        }
        None
    }

    /// The number of Steiner points, whatever has been handed out.
    pub fn len(&self) -> (n: usize)
        ensures
            n == self.total(),
    {
        self.steiner_points
    }
}

impl NodePairs {
    /// The pairs still to come.
    pub closed spec fn remaining(&self) -> Seq<(usize, usize)> {
        pairs_from(self.n as int, self.i1 as int, self.i2 as int)
    }

    /// The pairs of `n` nodes, from the first on.
    pub(crate) fn new(n: usize) -> (c: Self)
        ensures
            c.remaining() == pairs_from(n as int, 0, 1),
    {
        NodePairs { n, i1: 0, i2: 1 }
    }

    /// The next pair.
    pub fn next(&mut self) -> (r: Option<(usize, usize)>)
        ensures
            r is None ==> old(self).remaining().len() == 0 && final(self).remaining().len() == 0,
            r is Some ==> old(self).remaining() == seq![r->0] + final(self).remaining(),
    {
        if self.i2 <= self.i1 || self.i2 >= self.n {
            return None;
        }
        let ret = (self.i1, self.i2);
        if self.i2 + 1 == self.n {
            self.i1 += 1;
            self.i2 = if self.i1 < usize::MAX {
                self.i1 + 1
            } else {
                self.i1
            };
        } else {
            self.i2 += 1;
        }
        Some(ret)
    }
}

/// Every edge from a node joins it to one of its neighbours.
pub proof fn lemma_node_edges(ns: Seq<usize>, i: usize, k: int)
    ensures
        forall|m: int|
            0 <= m < node_edges_from(ns, i, k).len() ==> (#[trigger] node_edges_from(ns, i, k)[m]).0
                == i && ns.contains(node_edges_from(ns, i, k)[m].1),
    decreases ns.len() - k,
{
    if k < 0 || k >= ns.len() {
    } else {
        lemma_node_edges(ns, i, k + 1);
        let rest = node_edges_from(ns, i, k + 1);
        assert forall|m: int| 0 <= m < node_edges_from(ns, i, k).len() implies (
        #[trigger] node_edges_from(ns, i, k)[m]).0 == i && ns.contains(
            node_edges_from(ns, i, k)[m].1,
        ) by {
            if i < ns[k] {
                if m > 0 {
                    assert(node_edges_from(ns, i, k)[m] == rest[m - 1]);
                } else {
                    assert(ns[k] == node_edges_from(ns, i, k)[m].1);
                }
            }
        }
    }
}

/// Every edge that is met joins two nodes of the tree.
pub proof fn lemma_edges_in_range<R>(v: Seq<NodeView<R>>, i: int, k: int)
    requires
        crate::steiner_tree::view_wf(v),
    ensures
        forall|m: int|
            0 <= m < edges_from(v, i, k).len() ==> (#[trigger] edges_from(v, i, k)[m]).0 < v.len()
                && edges_from(v, i, k)[m].1 < v.len(),
    decreases v.len() - i,
{
    if i < 0 || i >= v.len() {
    } else {
        lemma_edges_in_range(v, i + 1, 0);
        lemma_node_edges(v[i].ns, i as usize, k);
        let here = node_edges_from(v[i].ns, i as usize, k);
        let rest = edges_from(v, i + 1, 0);
        assert forall|m: int| 0 <= m < edges_from(v, i, k).len() implies (#[trigger] edges_from(
            v,
            i,
            k,
        )[m]).0 < v.len() && edges_from(v, i, k)[m].1 < v.len() by {
            if m < here.len() {
                assert(edges_from(v, i, k)[m] == here[m]);
                let j = here[m].1;
                assert(v[i].ns.contains(j));
                let w = choose|w: int| 0 <= w < v[i].ns.len() && v[i].ns[w] == j;
                assert(crate::steiner_tree::adj_of(v)[i][w] < v.len());
            } else {
                assert(edges_from(v, i, k)[m] == rest[m - here.len()]);
            }
        }
    }
}

} // verus!
