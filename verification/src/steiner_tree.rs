//! The Steiner tree: nodes in one growing list, each with its point and the
//! indices of its neighbours.

use crate::cursors::{
    edge_list, lemma_edges_in_range, length_of, nodes_from, pairs_from, tree_length, Edges,
    IncidentEdges, Neighbours, NodePairs, SteinerPoints, Terminals,
};
use crate::graph::{
    adj_wf, adjacent, degree_sum, lemma_degree_sum_update, lemma_first_index, lemma_swap_removed,
    swap_removed,
};
use crate::point::{seq_add, seq_div, seq_mul, Point};
use crate::scalar::Real;
use crate::space::MinkowskiSpace;
use vstd::prelude::*;

verus! {

/// What a node is, to contracts: where it lies, which point it came from, its
/// neighbours in the order in which they are listed, whether it is a terminal,
/// and its own index.
pub struct NodeView<R> {
    pub coords: Seq<R>,
    pub point_id: usize,
    pub ns: Seq<usize>,
    pub is_terminal: bool,
    pub id: usize,
}

/// A node of a Steiner tree.
#[derive(Debug)]
pub struct Node<P> {
    p: P,
    ns: Vec<usize>,
    is_terminal: bool,
    id: usize,
}

/// A tree of terminals and Steiner points.
///
/// Nodes are only appended and only the last can leave, so a node's index
/// never changes while it is in the tree.
#[derive(Debug)]
pub struct SteinerTree<P> {
    nodes: Vec<Node<P>>,
    terminal_count: usize,
}

impl<P: Point> View for Node<P> {
    type V = NodeView<P::R>;

    closed spec fn view(&self) -> NodeView<P::R> {
        NodeView {
            coords: self.p.coords_spec(),
            point_id: self.p.id_spec(),
            ns: self.ns@,
            is_terminal: self.is_terminal,
            id: self.id,
        }
    }
}

impl<P: Point> View for SteinerTree<P> {
    type V = Seq<NodeView<P::R>>;

    closed spec fn view(&self) -> Seq<NodeView<P::R>> {
        Seq::new(self.nodes@.len(), |i: int| self.nodes@[i]@)
    }
}

/// The neighbour lists of the nodes.
pub open spec fn adj_of<R>(v: Seq<NodeView<R>>) -> Seq<Seq<usize>> {
    Seq::new(v.len(), |i: int| v[i].ns)
}

/// The number of terminals among the nodes.
pub open spec fn count_terminals<R>(v: Seq<NodeView<R>>) -> nat
    decreases v.len(),
{
    if v.len() == 0 {
        0
    } else {
        count_terminals(v.drop_last()) + if v.last().is_terminal {
            1nat
        } else {
            0nat
        }
    }
}

/// Whether the nodes form a simple undirected graph in which every node
/// carries its own index and all points have one dimension.
pub open spec fn view_wf<R>(v: Seq<NodeView<R>>) -> bool {
    &&& adj_wf(adj_of(v))
    &&& forall|i: int| 0 <= i < v.len() ==> (#[trigger] v[i]).id == i
    &&& forall|i: int| 0 <= i < v.len() ==> (#[trigger] v[i]).coords.len() == v[0].coords.len()
}

/// The centre that a new Steiner point is given: from the zero vector, each
/// neighbour in turn adds its coordinates divided by the number of neighbours.
pub open spec fn init_coords<R: Real>(
    v: Seq<NodeView<R>>,
    zero: Seq<R>,
    ns: Seq<usize>,
    k: int,
) -> Seq<R>
    decreases k,
{
    if k <= 0 {
        zero
    } else {
        seq_add(
            init_coords(v, zero, ns, k - 1),
            seq_div(v[ns[k - 1] as int].coords, R::from_usize_spec(ns.len() as usize)),
        )
    }
}

/// The nodes after `a` and `b` were parted.
pub open spec fn edge_removed<R>(v0: Seq<NodeView<R>>, a: usize, b: usize) -> Seq<NodeView<R>> {
    let va = v0.update(a as int, NodeView { ns: swap_removed(v0[a as int].ns, b), ..v0[a as int] });
    va.update(b as int, NodeView { ns: swap_removed(va[b as int].ns, a), ..va[b as int] })
}

/// The nodes after `a` and `b` were joined.
pub open spec fn edge_added<R>(v0: Seq<NodeView<R>>, a: usize, b: usize) -> Seq<NodeView<R>> {
    v0.update(a as int, NodeView { ns: v0[a as int].ns.push(b), ..v0[a as int] }).update(
        b as int,
        NodeView { ns: v0[b as int].ns.push(a), ..v0[b as int] },
    )
}

/// The nodes after node `i` was moved to the centre of its neighbours.
pub open spec fn node_centred<R: Real>(v: Seq<NodeView<R>>, i: usize) -> Seq<NodeView<R>> {
    v.update(
        i as int,
        NodeView {
            coords: init_coords(
                v,
                seq_mul(v[i as int].coords, R::zero_spec()),
                v[i as int].ns,
                v[i as int].ns.len() as int,
            ),
            ..v[i as int]
        },
    )
}

/// The nodes after a node with the given point, neighbours and kind was
/// appended: each neighbour lists it last, and a Steiner point starts at the
/// centre of its neighbours.
pub open spec fn node_pushed<R: Real>(
    v: Seq<NodeView<R>>,
    coords: Seq<R>,
    point_id: usize,
    ns: Seq<usize>,
    is_terminal: bool,
) -> Seq<NodeView<R>> {
    let id = v.len() as usize;
    let linked = Seq::new(
        v.len(),
        |i: int|
            if ns.contains(i as usize) {
                NodeView { ns: v[i].ns.push(id), ..v[i] }
            } else {
                v[i]
            },
    );
    let c = if is_terminal {
        coords
    } else {
        init_coords(v, seq_mul(coords, R::zero_spec()), ns, ns.len() as int)
    };
    linked.push(NodeView { coords: c, point_id, ns, is_terminal, id })
}

/// The nodes after the last one left: nobody lists it any more.
pub open spec fn node_popped<R>(v: Seq<NodeView<R>>) -> Seq<NodeView<R>> {
    let id = (v.len() - 1) as usize;
    Seq::new((v.len() - 1) as nat, |i: int| NodeView { ns: swap_removed(v[i].ns, id), ..v[i] })
}

/// The nodes that `new` starts from: the terminals, then the Steiner points,
/// none with a neighbour.
pub open spec fn initial_nodes<P: Point>(t: Seq<P>, s: Seq<P>) -> Seq<NodeView<P::R>> {
    Seq::new(
        t.len() + s.len(),
        |i: int|
            {
                let p = if i < t.len() {
                    t[i]
                } else {
                    s[i - t.len()]
                };
                NodeView {
                    coords: p.coords_spec(),
                    point_id: p.id_spec(),
                    ns: Seq::<usize>::empty(),
                    is_terminal: i < t.len(),
                    id: i as usize,
                }
            },
    )
}

/// The nodes after the first `k` of `edges` were added, one by one.
pub open spec fn edges_added<R>(
    v: Seq<NodeView<R>>,
    edges: Seq<(usize, usize)>,
    k: int,
) -> Seq<NodeView<R>>
    decreases k,
{
    if k <= 0 {
        v
    } else {
        edge_added(edges_added(v, edges, k - 1), edges[k - 1].0, edges[k - 1].1)
    }
}

/// Whether `edges` can be the edges of a graph on `n` nodes: each joins two
/// different nodes, and no two join the same pair.
pub open spec fn edge_list_ok(edges: Seq<(usize, usize)>, n: nat) -> bool {
    &&& forall|k: int|
        0 <= k < edges.len() ==> (#[trigger] edges[k]).0 < n && edges[k].1 < n && edges[k].0
            != edges[k].1
    &&& forall|k: int, m: int|
        0 <= k < m < edges.len() ==> !same_edge(#[trigger] edges[k], #[trigger] edges[m])
}

/// Whether two pairs join the same two nodes.
pub open spec fn same_edge(e: (usize, usize), f: (usize, usize)) -> bool {
    (e.0 == f.0 && e.1 == f.1) || (e.0 == f.1 && e.1 == f.0)
}

/// Whether one of the first `k` of `edges` joins `i` and `j`.
pub open spec fn listed(edges: Seq<(usize, usize)>, k: int, i: usize, j: usize) -> bool {
    exists|m: int| 0 <= m < k && m < edges.len() && same_edge(#[trigger] edges[m], (i, j))
}

/// Whether all points of both lists have one dimension.
pub open spec fn one_dimension<P: Point>(t: Seq<P>, s: Seq<P>) -> bool {
    forall|i: int, j: int|
        0 <= i < t.len() + s.len() && 0 <= j < t.len() + s.len()
            ==> (#[trigger] (t + s)[i]).coords_spec().len()
            == (#[trigger] (t + s)[j]).coords_spec().len()
}

/// The nodes with node `i` moved to `coords`.
pub open spec fn node_moved<R>(v: Seq<NodeView<R>>, i: usize, coords: Seq<R>) -> Seq<NodeView<R>> {
    v.update(i as int, NodeView { coords, ..v[i as int] })
}

/// Whether `w` is `v` with Steiner points moved: every node has the
/// neighbours, the kind and the identities that it had, all points have the
/// dimension that they had, and the terminals lie where they lay.
pub open spec fn moved<R>(v: Seq<NodeView<R>>, w: Seq<NodeView<R>>) -> bool {
    &&& v.len() == w.len()
    &&& forall|i: int|
        0 <= i < v.len() ==> (#[trigger] w[i]).ns == v[i].ns && w[i].id == v[i].id
            && w[i].is_terminal == v[i].is_terminal && w[i].point_id == v[i].point_id
            && w[i].coords.len() == v[i].coords.len() && (v[i].is_terminal ==> w[i].coords
            == v[i].coords)
}

/// Whether `w` is the tree `v` with Steiner points moved.
pub open spec fn relaxed<P: Point>(v: SteinerTree<P>, w: SteinerTree<P>) -> bool {
    moved(v@, w@) && w.spec_terminal_count() == v.spec_terminal_count()
}

impl<P: Point> Node<P> {
    /// A node at `p` without neighbours.
    fn new(p: P, is_terminal: bool, id: usize) -> (n: Self)
        ensures
            n@ == (NodeView {
                coords: p.coords_spec(),
                point_id: p.id_spec(),
                ns: Seq::<usize>::empty(),
                is_terminal,
                id,
            }),
    {
        Node { p, ns: Vec::new(), is_terminal, id }
    }

    /// Lists `n` as the last neighbour.
    fn add_neighbour(&mut self, n: usize)
        ensures
            final(self)@ == (NodeView { ns: old(self)@.ns.push(n), ..old(self)@ }),
    {
        self.ns.push(n);
    }

    /// Takes the neighbour `id` off the list, if it is on it: the last
    /// neighbour takes its place.
    fn remove_neighbour(&mut self, id: usize)
        ensures
            final(self)@ == (NodeView { ns: swap_removed(old(self)@.ns, id), ..old(self)@ }),
    {
        let mut i: usize = 0;
        while i < self.ns.len()
            invariant
                i <= self.ns.len(),
                *self == *old(self),
                forall|j: int| 0 <= j < i ==> self.ns@[j] != id,
            decreases self.ns.len() - i,
        {
            if self.ns[i] == id {
                proof {
                    lemma_first_index(self.ns@, id, i as int);
                }
                self.ns.swap_remove(i);
                return ;
            }
            i += 1;
        }
        proof {
            assert(!self.ns@.contains(id));
        }
    }

    /// A node of its own with the same point and neighbours.
    fn duplicate(&self) -> (n: Self)
        ensures
            n@ == self@,
    {
        let mut ns: Vec<usize> = Vec::new();
        let mut k: usize = 0;
        while k < self.ns.len()
            invariant
                k <= self.ns.len(),
                ns@ == self.ns@.take(k as int),
            decreases self.ns.len() - k,
        {
            ns.push(self.ns[k]);
            k += 1;
        }
        proof {
            assert(ns@ =~= self.ns@);
        }
        Node { p: self.p.duplicate(), ns, is_terminal: self.is_terminal, id: self.id }
    }

    /// The point.
    pub fn p(&self) -> (p: &P)
        ensures
            p.coords_spec() == self@.coords,
            p.id_spec() == self@.point_id,
    {
        &self.p
    }

    /// The point, to move it.
    pub fn p_mut(&mut self) -> (p: &mut P)
        ensures
            p.coords_spec() == old(self)@.coords,
            p.id_spec() == old(self)@.point_id,
            final(self)@ == (NodeView {
                coords: final(p).coords_spec(),
                point_id: final(p).id_spec(),
                ..old(self)@
            }),
    {
        &mut self.p
    }

    /// The node's index in its tree.
    pub fn id(&self) -> (id: usize)
        ensures
            id == self@.id,
    {
        self.id
    }

    /// Whether the node is a terminal.
    pub fn is_terminal(&self) -> (b: bool)
        ensures
            b == self@.is_terminal,
    {
        self.is_terminal
    }

    /// The number of neighbours.
    pub fn degree(&self) -> (d: usize)
        ensures
            d == self@.ns.len(),
    {
        self.ns.len()
    }

    /// The neighbours.
    pub fn neighbours(&self) -> (c: Neighbours<'_, P>)
        ensures
            c.remaining() == self@.ns,
    {
        Neighbours::new(self)
    }

    /// The edges at the node.
    pub fn edges(&self) -> (c: IncidentEdges<'_, P>)
        ensures
            c.remaining() == self@.ns,
            c.origin() == self@.id,
    {
        IncidentEdges::new(self)
    }

    /// The index of the `k`-th neighbour.
    pub fn neighbour(&self, k: usize) -> (n: usize)
        requires
            k < self@.ns.len(),
        ensures
            n == self@.ns[k as int],
    {
        self.ns[k]
    }
}

impl<P: Point> SteinerTree<P> {
    /// The number of terminals that the tree records.
    pub closed spec fn spec_terminal_count(&self) -> usize {
        self.terminal_count
    }

    /// Whether the tree is well formed: a simple undirected graph whose nodes
    /// carry their indices, with points of one dimension and a terminal count
    /// that is the number of terminals.
    pub open spec fn wf(&self) -> bool {
        &&& view_wf(self@)
        &&& self.spec_terminal_count() == count_terminals(self@)
    }

    /// The tree without nodes.
    pub fn empty() -> (st: Self)
        ensures
            st@.len() == 0,
            st.wf(),
    {
        let st = SteinerTree { nodes: Vec::new(), terminal_count: 0 };
        proof {
            assert(st@ =~= Seq::empty());
        }
        st
    }

    /// The number of nodes.
    pub fn node_count(&self) -> (n: usize)
        ensures
            n == self@.len(),
    {
        self.nodes.len()
    }

    /// The number of terminals.
    pub fn terminal_count(&self) -> (n: usize)
        ensures
            n == self.spec_terminal_count(),
    {
        self.terminal_count
    }

    /// Node `i`.
    pub fn i(&self, i: usize) -> (n: &Node<P>)
        requires
            i < self@.len(),
        ensures
            n@ == self@[i as int],
    {
        &self.nodes[i]
    }

    /// Node `i`, to move its point.
    pub fn steiner_i(&mut self, i: usize) -> (n: &mut Node<P>)
        requires
            i < old(self)@.len(),
        ensures
            n@ == old(self)@[i as int],
            final(self)@ == old(self)@.update(i as int, final(n)@),
            final(self).spec_terminal_count() == old(self).spec_terminal_count(),
    {
        &mut self.nodes[i]
    }

    /// The last node, if there is any.
    pub fn last_node(&self) -> (n: Option<&Node<P>>)
        ensures
            self@.len() == 0 ==> n is None,
            self@.len() > 0 ==> n is Some && n->0@ == self@.last(),
    {
        if self.nodes.len() == 0 {
            None
        } else {
            Some(&self.nodes[self.nodes.len() - 1])
        }
    }

    /// Joins `a` and `b`.
    pub fn add_edge(&mut self, e: (usize, usize))
        requires
            old(self).wf(),
            e.0 < old(self)@.len(),
            e.1 < old(self)@.len(),
            e.0 != e.1,
            !adjacent(adj_of(old(self)@), e.0, e.1),
        ensures
            final(self).wf(),
            final(self).spec_terminal_count() == old(self).spec_terminal_count(),
            final(self)@ == edge_added(old(self)@, e.0, e.1),
    {
        let (a, b) = e;
        let ghost v0 = self@;
        self.nodes[a].add_neighbour(b);
        self.nodes[b].add_neighbour(a);
        proof {
            let v1 = v0.update(a as int, NodeView { ns: v0[a as int].ns.push(b), ..v0[a as int] })
                .update(b as int, NodeView { ns: v0[b as int].ns.push(a), ..v0[b as int] });
            assert(self@ =~= v1);
            lemma_add_edge_wf(v0, a, b);
            lemma_count_terminals_same(v0, v1);
        }
    }

    /// Parts `a` and `b`, if they are joined.
    pub fn remove_edge(&mut self, e: (usize, usize))
        requires
            old(self).wf(),
            e.0 < old(self)@.len(),
            e.1 < old(self)@.len(),
        ensures
            final(self).wf(),
            final(self).spec_terminal_count() == old(self).spec_terminal_count(),
            final(self)@ == edge_removed(old(self)@, e.0, e.1),
    {
        let (a, b) = e;
        let ghost v0 = self@;
        self.nodes[a].remove_neighbour(b);
        let ghost vm = self@;
        self.nodes[b].remove_neighbour(a);
        proof {
            let va = v0.update(a as int, NodeView { ns: swap_removed(v0[a as int].ns, b), ..v0[a as int] });
            assert(vm =~= va);
            let v1 = va.update(b as int, NodeView { ns: swap_removed(va[b as int].ns, a), ..va[b as int] });
            assert(self@ =~= v1);
            lemma_remove_edge_wf(v0, a, b);
            lemma_count_terminals_same(v0, v1);
        }
    }

    /// Moves node `i` to the centre of its neighbours.
    pub fn init_node(&mut self, i: usize)
        requires
            old(self).wf(),
            i < old(self)@.len(),
        ensures
            final(self).wf(),
            final(self).spec_terminal_count() == old(self).spec_terminal_count(),
            final(self)@ == node_centred(old(self)@, i),
    {
        let ghost v0 = self@;
        let mut p = self.nodes[i].p.duplicate();
        p.mul(P::R::zero());
        let ghost zero = p.coords_spec();
        let d = self.nodes[i].ns.len();
        let num = P::R::from_usize(d);
        let mut k: usize = 0;
        while k < d
            invariant
                k <= d,
                i < self.nodes@.len(),
                d == self.nodes@[i as int].ns@.len(),
                self@ == v0,
                view_wf(v0),
                num == P::R::from_usize_spec(d),
                zero.len() == v0[i as int].coords.len(),
                p.id_spec() == v0[i as int].point_id,
                p.coords_spec() == init_coords(v0, zero, v0[i as int].ns, k as int),
            decreases d - k,
        {
            let n = self.nodes[i].ns[k];
            proof {
                assert(adj_of(v0)[i as int][k as int] < v0.len());
                assert(v0[n as int].coords.len() == v0[0].coords.len());
                assert(v0[i as int].coords.len() == v0[0].coords.len());
                lemma_init_coords_len(v0, zero, v0[i as int].ns, k as int);
            }
            let mut q = self.nodes[n].p.duplicate();
            q.div(num);
            p.add(&q);
            k += 1;
        }
        self.nodes[i].p = p;
        proof {
            let v1 = node_centred(v0, i);
            assert(self@ =~= v1);
            lemma_init_coords_len(v0, zero, v0[i as int].ns, d as int);
            lemma_moved_wf(v0, v1);
            lemma_count_terminals_same(v0, v1);
        }
    }

    /// Appends a node at `p` with the neighbours `ns` and hands it out. A
    /// Steiner point is moved to the centre of its neighbours.
    pub fn push_node(&mut self, p: P, ns: &[usize], is_terminal: bool) -> (n: &Node<P>)
        requires
            old(self).wf(),
            ns@.no_duplicates(),
            forall|k: int| 0 <= k < ns@.len() ==> (#[trigger] ns@[k]) < old(self)@.len(),
            old(self)@.len() > 0 ==> p.coords_spec().len() == old(self)@[0].coords.len(),
        ensures
            final(self).wf(),
            final(self)@ == node_pushed(old(self)@, p.coords_spec(), p.id_spec(), ns@, is_terminal),
            final(self).spec_terminal_count() == old(self).spec_terminal_count() + if is_terminal {
                1int
            } else {
                0int
            },
            n@ == final(self)@.last(),
    {
        let ghost v0 = self@;
        let ghost coords = p.coords_spec();
        let ghost point_id = p.id_spec();
        let id = self.nodes.len();
        let mut node = Node::new(p, is_terminal, id);
        let mut k: usize = 0;
        proof {
            assert(ns@.take(0) =~= Seq::empty());
        }
        while k < ns.len()
            invariant
                k <= ns.len(),
                node@ == (NodeView { coords, point_id, ns: ns@.take(k as int), is_terminal, id }),
            decreases ns.len() - k,
        {
            node.add_neighbour(ns[k]);
            proof {
                assert(ns@.take(k as int).push(ns@[k as int]) =~= ns@.take(k + 1));
            }
            k += 1;
        }
        proof {
            assert(ns@.take(ns@.len() as int) =~= ns@);
        }
        self.nodes.push(node);
        let count = self.nodes.len();
        let ghost plain = NodeView { coords, point_id, ns: ns@, is_terminal, id };
        proof {
            assert(ns@.take(0) =~= Seq::empty());
        }
        k = 0;
        while k < ns.len()
            invariant
                k <= ns.len(),
                id == v0.len(),
                v0.len() < usize::MAX,
                self.nodes@.len() == v0.len() + 1,
                self.terminal_count == old(self).terminal_count,
                ns@.no_duplicates(),
                forall|m: int| 0 <= m < ns@.len() ==> (#[trigger] ns@[m]) < v0.len(),
                self@.last() == plain,
                forall|i: int|
                    0 <= i < v0.len() ==> (#[trigger] self@[i]) == if ns@.take(k as int).contains(
                        i as usize,
                    ) {
                        NodeView { ns: v0[i].ns.push(id), ..v0[i] }
                    } else {
                        v0[i]
                    },
            decreases ns.len() - k,
        {
            let m = ns[k];
            let ghost before = self@;
            proof {
                assert(!ns@.take(k as int).contains(m)) by {
                    if ns@.take(k as int).contains(m) {
                        let j = choose|j: int| 0 <= j < k && ns@.take(k as int)[j] == m;
                        assert(ns@[j] == ns@[k as int]);
                    }
                }
                assert(before[m as int] == v0[m as int]);
            }
            self.nodes[m].add_neighbour(id);
            proof {
                assert(self@ =~= before.update(
                    m as int,
                    NodeView { ns: v0[m as int].ns.push(id), ..v0[m as int] },
                ));
                assert forall|i: int| 0 <= i < v0.len() implies (#[trigger] self@[i])
                    == if ns@.take(
                    k + 1,
                ).contains(i as usize) {
                    NodeView { ns: v0[i].ns.push(id), ..v0[i] }
                } else {
                    v0[i]
                } by {
                    assert(ns@.take(k + 1) =~= ns@.take(k as int).push(m));
                    if ns@.take(k as int).contains(i as usize) {
                        let j = choose|j: int| 0 <= j < k && ns@.take(k as int)[j] == i as usize;
                        assert(ns@.take(k + 1)[j] == i as usize);
                    }
                    if i == m {
                        assert(ns@.take(k + 1)[k as int] == m);
                    }
                    let t1 = ns@.take(k + 1);
                    if t1.contains(i as usize) && i != m {
                        let j = choose|j: int| 0 <= j < t1.len() && t1[j] == i as usize;
                        assert(ns@.take(k as int)[j] == i as usize);
                    }
                }
            }
            k += 1;
        }
        let ghost linked = self@;
        proof {
            assert(ns@.take(ns@.len() as int) =~= ns@);
            assert(linked =~= node_pushed(v0, coords, point_id, ns@, true).update(id as int, plain));
            lemma_push_wf(v0, coords, point_id, ns@, is_terminal);
            lemma_count_terminals_bound(v0);
        }
        if is_terminal {
            self.terminal_count += 1;
            proof {
                assert(self@ =~= node_pushed(v0, coords, point_id, ns@, true));
                lemma_count_pushed(v0, self@);
            }
        } else {
            proof {
                let t = node_pushed(v0, coords, point_id, ns@, true);
                let w = t.update(id as int, plain);
                assert(linked =~= w);
                lemma_moved_wf(node_pushed(v0, coords, point_id, ns@, is_terminal), w);
                lemma_count_pushed(v0, w);
            }
            self.init_node(id);
            proof {
                let u = node_pushed(v0, coords, point_id, ns@, false);
                lemma_init_coords_same(linked, v0, seq_mul(coords, P::R::zero_spec()), ns@, ns@.len() as int);
                assert(self@ =~= u);
            }
        }
        &self.nodes[id]
    }

    /// Takes the last node away and hands out its point.
    pub fn pop_node(&mut self) -> (r: Option<P>)
        requires
            old(self).wf(),
        ensures
            final(self).wf(),
            old(self)@.len() == 0 ==> r is None && final(self)@ == old(self)@
                && final(self).spec_terminal_count() == old(self).spec_terminal_count(),
            old(self)@.len() > 0 ==> r is Some && r->0.coords_spec() == old(self)@.last().coords
                && r->0.id_spec() == old(self)@.last().point_id && final(self)@ == node_popped(
                old(self)@,
            ) && final(self).spec_terminal_count() + if old(self)@.last().is_terminal {
                1int
            } else {
                0int
            } == old(self).spec_terminal_count(),
    {
        let n = self.nodes.len();
        if n == 0 {
            return None;
        }
        let ghost v0 = self@;
        let id = n - 1;
        proof {
            lemma_count_terminals_bound(v0);
            assert(v0.last() == v0[id as int]);
        }
        if self.nodes[id].is_terminal {
            self.terminal_count -= 1;
        }
        let d = self.nodes[id].ns.len();
        let ghost last_ns = v0[id as int].ns;
        let mut k: usize = 0;
        proof {
            assert(last_ns.take(0) =~= Seq::empty());
        }
        while k < d
            invariant
                k <= d,
                n == v0.len(),
                id == n - 1,
                view_wf(v0),
                self.nodes@.len() == n,
                self@[id as int] == v0[id as int],
                last_ns == v0[id as int].ns,
                d == last_ns.len(),
                self.terminal_count + if v0[id as int].is_terminal {
                    1int
                } else {
                    0int
                } == old(self).terminal_count,
                forall|i: int|
                    0 <= i < id ==> (#[trigger] self@[i]) == if last_ns.take(k as int).contains(
                        i as usize,
                    ) {
                        NodeView { ns: swap_removed(v0[i].ns, id), ..v0[i] }
                    } else {
                        v0[i]
                    },
            decreases d - k,
        {
            let m = self.nodes[id].ns[k];
            let ghost before = self@;
            proof {
                assert(adj_of(v0)[id as int][k as int] < v0.len());
                assert(adj_of(v0)[id as int].no_duplicates());
                assert(m != id);
                assert(!last_ns.take(k as int).contains(m)) by {
                    if last_ns.take(k as int).contains(m) {
                        let j = choose|j: int| 0 <= j < k && last_ns.take(k as int)[j] == m;
                        assert(last_ns[j] == last_ns[k as int]);
                    }
                }
                assert(before[m as int] == v0[m as int]);
            }
            self.nodes[m].remove_neighbour(id);
            proof {
                assert(self@ =~= before.update(
                    m as int,
                    NodeView { ns: swap_removed(v0[m as int].ns, id), ..v0[m as int] },
                ));
                let t0 = last_ns.take(k as int);
                let t1 = last_ns.take(k + 1);
                assert(t1 =~= t0.push(m));
                assert forall|i: int| 0 <= i < id implies (#[trigger] self@[i]) == if t1.contains(
                    i as usize,
                ) {
                    NodeView { ns: swap_removed(v0[i].ns, id), ..v0[i] }
                } else {
                    v0[i]
                } by {
                    if t0.contains(i as usize) {
                        let j = choose|j: int| 0 <= j < t0.len() && t0[j] == i as usize;
                        assert(t1[j] == i as usize);
                    }
                    if i == m {
                        assert(t1[k as int] == m);
                    }
                    if t1.contains(i as usize) && i != m {
                        let j = choose|j: int| 0 <= j < t1.len() && t1[j] == i as usize;
                        assert(t0[j] == i as usize);
                    }
                }
            }
            k += 1;
        }
        let ghost linked = self@;
        let node = self.nodes.pop().unwrap();
        proof {
            assert(last_ns.take(d as int) =~= last_ns);
            let v1 = node_popped(v0);
            assert forall|i: int| 0 <= i < id implies self@[i] == v1[i] by {
                assert(self@[i] == linked[i]);
                if !last_ns.contains(i as usize) {
                    // Who is not listed by the last node does not list it.
                    assert(!adjacent(adj_of(v0), id, i as usize));
                    assert(!adjacent(adj_of(v0), i as usize, id));
                    assert(adj_of(v0)[i].no_duplicates());
                    lemma_swap_removed(v0[i].ns, id);
                }
            }
            assert(self@ =~= v1);
            lemma_pop_wf(v0);
            assert(v0.drop_last().len() == v1.len());
            lemma_count_terminals_same(v0.drop_last(), v1);
        }
        Some(node.p)
    }

    /// The tree with the terminals `t`, the Steiner points `s` and the edges
    /// `edges`, which name nodes by their place in `t` followed by `s`.
    pub fn new(t: &[P], s: &[P], edges: &[(usize, usize)]) -> (st: Self)
        requires
            one_dimension(t@, s@),
            edge_list_ok(edges@, t@.len() + s@.len()),
        ensures
            st.wf(),
            st@ == edges_added(initial_nodes(t@, s@), edges@, edges@.len() as int),
            st.spec_terminal_count() == t@.len(),
    {
        let mut st = SteinerTree { nodes: Vec::new(), terminal_count: 0 };
        let ghost v = initial_nodes(t@, s@);
        let mut i: usize = 0;
        while i < t.len()
            invariant
                i <= t.len(),
                st.nodes@.len() == i,
                st.terminal_count == 0,
                forall|j: int| 0 <= j < i ==> (#[trigger] st@[j]) == initial_nodes(t@, s@)[j],
            decreases t.len() - i,
        {
            let ghost before = st@;
            st.nodes.push(Node::new(t[i].duplicate(), true, i));
            proof {
                assert(st@ =~= before.push(initial_nodes(t@, s@)[i as int]));
            }
            i += 1;
        }
        i = 0;
        while i < s.len()
            invariant
                i <= s.len(),
                st.nodes@.len() == t.len() + i,
                st.terminal_count == 0,
                forall|j: int| 0 <= j < t.len() + i
                    ==> (#[trigger] st@[j]) == initial_nodes(t@, s@)[j],
            decreases s.len() - i,
        {
            let ghost before = st@;
            let id = st.nodes.len();
            st.nodes.push(Node::new(s[i].duplicate(), false, id));
            proof {
                assert(st@ =~= before.push(initial_nodes(t@, s@)[t.len() + i]));
            }
            i += 1;
        }
        let ghost filled = st@;
        let total = st.nodes.len();
        st.terminal_count = t.len();
        proof {
            assert(st@ =~= filled);
            assert(filled =~= v);
            lemma_initial_nodes(t@, s@);
            lemma_edges_added(v, edges@, 0);
        }
        let mut k: usize = 0;
        while k < edges.len()
            invariant
                k <= edges.len(),
                v == initial_nodes(t@, s@),
                view_wf(v),
                forall|i: usize, j: usize| !adjacent(adj_of(v), i, j),
                edge_list_ok(edges@, v.len()),
                st.wf(),
                st.terminal_count == t.len(),
                st@ == edges_added(v, edges@, k as int),
            decreases edges.len() - k,
        {
            proof {
                lemma_edges_added(v, edges@, k as int);
                let e = edges@[k as int];
                if listed(edges@, k as int, e.0, e.1) {
                    let m = choose|m: int|
                        0 <= m < k && m < edges@.len()
                            && same_edge(#[trigger] edges@[m], (e.0, e.1));
                    assert(same_edge(edges@[m], edges@[k as int]));
                }
            }
            st.add_edge(edges[k]);
            k += 1;
        }
        st
    }

    /// The edges, each once.
    pub fn edges(&self) -> (c: Edges<'_, P>)
        ensures
            c.remaining() == edge_list(self@),
    {
        Edges::new(self)
    }

    /// The pairs of different nodes.
    pub fn node_pairs(&self) -> (c: NodePairs)
        ensures
            c.remaining() == pairs_from(self@.len() as int, 0, 1),
    {
        NodePairs::new(self.nodes.len())
    }

    /// The nodes.
    pub fn nodes(&self) -> (ns: &[Node<P>])
        ensures
            ns@.len() == self@.len(),
            forall|i: int| 0 <= i < ns@.len() ==> (#[trigger] ns@[i])@ == self@[i],
    {
        self.nodes.as_slice()
    }

    /// The terminals.
    pub fn terminals(&self) -> (c: Terminals<'_, P>)
        ensures
            c.remaining() == nodes_from(self@, 0, true),
            c.total() == self.spec_terminal_count(),
    {
        Terminals::new(self)
    }

    /// The Steiner points.
    pub fn steiner_points(&self) -> (c: SteinerPoints)
        requires
            self.wf(),
        ensures
            c.position() == 0,
            c.total() == self@.len() - self.spec_terminal_count(),
    {
        proof {
            lemma_count_terminals_bound(self@);
        }
        SteinerPoints::new(self.nodes.len() - self.terminal_count)
    }

    /// Keeps the tree as it is.
    pub fn non_degenerate(&mut self)
        ensures
            final(self)@ == old(self)@,
            final(self).spec_terminal_count() == old(self).spec_terminal_count(),
    {
    }

    /// The length of the tree in `geo`.
    pub fn len<M: MinkowskiSpace<P>>(&self, geo: &M) -> (r: P::R)
        requires
            self.wf(),
        ensures
            r == tree_length::<P, M>(self@, geo),
    {
        let mut c = self.edges();
        let mut acc = P::R::zero();
        let ghost all = edge_list(self@);
        let ghost mut done: Seq<(usize, usize)> = Seq::empty();
        proof {
            lemma_edges_in_range(self@, 0, 0);
            assert(done + c.remaining() =~= all);
        }
        let mut e = c.next();
        while e.is_some()
            invariant
                self.wf(),
                all == edge_list(self@),
                forall|m: int| 0 <= m < all.len()
                    ==> (#[trigger] all[m]).0 < self@.len() && all[m].1 < self@.len(),
                acc == length_of::<P, M>(self@, geo, done),
                e is Some ==> done + seq![e->0.ends()] + c.remaining() == all,
                e is None ==> done == all,
            decreases c.remaining().len() + if e is Some { 1int } else { 0int },
        {
            let edge = e.unwrap();
            proof {
                let m = done.len() as int;
                assert((done + seq![edge.ends()] + c.remaining())[m] == edge.ends());
                assert(all[m] == edge.ends());
                assert(done.push(edge.ends()).drop_last() =~= done);
            }
            acc = acc.add(edge.len(self, geo));
            proof {
                done = done.push(edge.ends());
            }
            let ghost rest = c.remaining();
            e = c.next();
            proof {
                if e is Some {
                    assert(done + seq![e->0.ends()] + c.remaining() =~= done + rest);
                } else {
                    assert(done =~= done + rest);
                }
                assert(done + rest =~= done.drop_last() + seq![edge.ends()] + rest);
            }
        }
        acc
    }

    /// Moves node `i` to where `x` lies.
    pub fn move_node(&mut self, i: usize, x: &P)
        requires
            old(self).wf(),
            i < old(self)@.len(),
            x.coords_spec().len() == old(self)@[i as int].coords.len(),
        ensures
            final(self).wf(),
            final(self).spec_terminal_count() == old(self).spec_terminal_count(),
            final(self)@ == node_moved(old(self)@, i, x.coords_spec()),
    {
        let ghost v0 = self@;
        self.nodes[i].p.copy(x);
        proof {
            let v1 = node_moved(v0, i, x.coords_spec());
            assert(self@ =~= v1);
            lemma_moved_wf(v0, v1);
            lemma_count_terminals_same(v0, v1);
        }
    }
}

impl<P: Point> Clone for SteinerTree<P> {
    /// A tree of its own with the same nodes.
    fn clone(&self) -> (st: Self)
        ensures
            st@ == self@,
            st.spec_terminal_count() == self.spec_terminal_count(),
    {
        let mut nodes: Vec<Node<P>> = Vec::new();
        let mut i: usize = 0;
        while i < self.nodes.len()
            invariant
                i <= self.nodes.len(),
                nodes@.len() == i,
                forall|j: int| 0 <= j < i ==> (#[trigger] nodes@[j])@ == self.nodes@[j]@,
            decreases self.nodes.len() - i,
        {
            nodes.push(self.nodes[i].duplicate());
            i += 1;
        }
        let st = SteinerTree { nodes, terminal_count: self.terminal_count };
        proof {
            assert(st@ =~= self@);
        }
        st
    }
}

/// Changing only neighbour lists keeps the number of terminals.
pub proof fn lemma_count_terminals_same<R>(v0: Seq<NodeView<R>>, v1: Seq<NodeView<R>>)
    requires
        v0.len() == v1.len(),
        forall|i: int| 0 <= i < v0.len() ==> (#[trigger] v0[i]).is_terminal == v1[i].is_terminal,
    ensures
        count_terminals(v0) == count_terminals(v1),
    decreases v0.len(),
{
    if v0.len() > 0 {
        lemma_count_terminals_same(v0.drop_last(), v1.drop_last());
    }
}

/// Joining two nodes that are not joined keeps the graph well formed.
pub proof fn lemma_add_edge_wf<R>(v0: Seq<NodeView<R>>, a: usize, b: usize)
    requires
        view_wf(v0),
        a < v0.len(),
        b < v0.len(),
        a != b,
        !adjacent(adj_of(v0), a, b),
    ensures
        view_wf(edge_added(v0, a, b)),
        forall|i: usize, j: usize|
            adjacent(adj_of(edge_added(v0, a, b)), i, j) <==> (adjacent(adj_of(v0), i, j) || (i == a
                && j == b) || (i == b && j == a)),
{
    let v1 = edge_added(v0, a, b);
    let a0 = adj_of(v0);
    let a1 = adj_of(v1);
    assert(adjacent(a0, b, a) ==> adjacent(a0, a, b));
    assert forall|i: usize, j: usize|
        adjacent(a1, i, j) <==> (adjacent(a0, i, j) || (i == a && j == b) || (i == b
            && j == a)) by {
        if i < v0.len() && j < v0.len() {
            let ii = i as int;
            if i == a {
                assert(a1[ii] == a0[ii].push(b));
                if a0[ii].contains(j) {
                    let k = choose|k: int| 0 <= k < a0[ii].len() && a0[ii][k] == j;
                    assert(a1[ii][k] == j);
                }
                if j == b {
                    assert(a1[ii][a0[ii].len() as int] == b);
                }
            } else if i == b {
                assert(a1[ii] == a0[ii].push(a));
                if a0[ii].contains(j) {
                    let k = choose|k: int| 0 <= k < a0[ii].len() && a0[ii][k] == j;
                    assert(a1[ii][k] == j);
                }
                if j == a {
                    assert(a1[ii][a0[ii].len() as int] == a);
                }
            } else {
                assert(a1[ii] == a0[ii]);
            }
        }
    }
    assert forall|i: int, k: int| 0 <= i < a1.len()
        && 0 <= k < a1[i].len() implies (#[trigger] a1[i][k])
        < a1.len() && a1[i][k] != i by {
        if i == a {
            if k < a0[i].len() {
                assert(a1[i][k] == a0[i][k]);
            }
        } else if i == b {
            if k < a0[i].len() {
                assert(a1[i][k] == a0[i][k]);
            }
        } else {
            assert(a1[i][k] == a0[i][k]);
        }
    }
    assert forall|i: int| 0 <= i < a1.len() implies (#[trigger] a1[i]).no_duplicates() by {
        assert(a0[i].no_duplicates());
        if i == a {
            assert(!a0[i].contains(b));
        } else if i == b {
            assert(!a0[i].contains(a));
        } else {
            assert(a1[i] == a0[i]);
        }
    }
    assert forall|i: usize, j: usize| #[trigger] adjacent(a1, i, j) implies adjacent(a1, j, i) by {
        if adjacent(a0, i, j) {
            assert(adjacent(a0, j, i));
        }
    }
    assert forall|i: int| 0 <= i < v1.len() implies (#[trigger] v1[i]).coords.len()
        == v1[0].coords.len() by {
        assert(v1[i].coords == v0[i].coords);
        assert(v1[0].coords == v0[0].coords);
    }
}

/// Parting two nodes keeps the graph well formed.
pub proof fn lemma_remove_edge_wf<R>(v0: Seq<NodeView<R>>, a: usize, b: usize)
    requires
        view_wf(v0),
        a < v0.len(),
        b < v0.len(),
    ensures
        view_wf(edge_removed(v0, a, b)),
        forall|i: usize, j: usize|
            adjacent(adj_of(edge_removed(v0, a, b)), i, j) <==> (adjacent(adj_of(v0), i, j) && !(i
                == a && j == b) && !(i == b && j == a)),
{
    let va = v0.update(a as int, NodeView { ns: swap_removed(v0[a as int].ns, b), ..v0[a as int] });
    let v1 = edge_removed(v0, a, b);
    let a0 = adj_of(v0);
    let a1 = adj_of(v1);
    assert(a0[a as int].no_duplicates());
    assert(a0[b as int].no_duplicates());
    lemma_swap_removed(v0[a as int].ns, b);
    lemma_swap_removed(va[b as int].ns, a);
    assert(a != b ==> va[b as int].ns == v0[b as int].ns);
    if a == b {
        // No node lists itself, so nothing is removed.
        assert(!v0[a as int].ns.contains(a)) by {
            if v0[a as int].ns.contains(a) {
                let k = choose|k: int| 0 <= k < a0[a as int].len() && a0[a as int][k] == a;
                assert(a0[a as int][k] != a as int);
            }
        }
        assert(v1 =~= v0);
    }
    assert forall|i: usize, j: usize|
        adjacent(a1, i, j) <==> (adjacent(a0, i, j) && !(i == a && j == b) && !(i == b && j
            == a)) by {
        if i < v0.len() && j < v0.len() {
            if i == a || i == b {
            } else {
                assert(a1[i as int] == a0[i as int]);
            }
        }
    }
    assert forall|i: int, k: int| 0 <= i < a1.len()
        && 0 <= k < a1[i].len() implies (#[trigger] a1[i][k])
        < a1.len() && a1[i][k] != i by {
        assert(a1[i].contains(a1[i][k]));
        if i == a || i == b {
            assert(a0[i].contains(a1[i][k]));
            let m = choose|m: int| 0 <= m < a0[i].len() && a0[i][m] == a1[i][k];
            assert(a0[i][m] < a0.len() && a0[i][m] != i);
        } else {
            assert(a1[i][k] == a0[i][k]);
        }
    }
    assert forall|i: int| 0 <= i < a1.len() implies (#[trigger] a1[i]).no_duplicates() by {
        assert(a0[i].no_duplicates());
    }
    assert forall|i: usize, j: usize| #[trigger] adjacent(a1, i, j) implies adjacent(a1, j, i) by {
        assert(adjacent(a0, i, j));
        assert(adjacent(a0, j, i));
    }
    assert forall|i: int| 0 <= i < v1.len() implies (#[trigger] v1[i]).coords.len()
        == v1[0].coords.len() by {
        assert(v1[i].coords == v0[i].coords);
        assert(v1[0].coords == v0[0].coords);
    }
}

/// No more terminals than nodes.
pub proof fn lemma_count_terminals_bound<R>(v: Seq<NodeView<R>>)
    ensures
        count_terminals(v) <= v.len(),
        v.len() > 0 && v.last().is_terminal ==> count_terminals(v) >= 1,
    decreases v.len(),
{
    if v.len() > 0 {
        lemma_count_terminals_bound(v.drop_last());
    }
}

/// Moving points about, in one dimension, keeps a graph well formed.
pub proof fn lemma_moved_wf<R>(v0: Seq<NodeView<R>>, v1: Seq<NodeView<R>>)
    requires
        view_wf(v0),
        v0.len() == v1.len(),
        forall|i: int|
            0 <= i < v0.len() ==> (#[trigger] v1[i]).ns == v0[i].ns && v1[i].id == v0[i].id
                && v1[i].coords.len() == v0[i].coords.len(),
    ensures
        view_wf(v1),
        adj_of(v1) == adj_of(v0),
{
    assert(adj_of(v1) =~= adj_of(v0));
    assert forall|i: int| 0 <= i < v1.len() implies (#[trigger] v1[i]).coords.len()
        == v1[0].coords.len() by {
        assert(v0[i].coords.len() == v0[0].coords.len());
    }
}

/// The centre of a node's neighbours has the dimension of the tree.
pub proof fn lemma_init_coords_len<R: Real>(
    v: Seq<NodeView<R>>,
    zero: Seq<R>,
    ns: Seq<usize>,
    k: int,
)
    requires
        0 <= k <= ns.len(),
    ensures
        init_coords(v, zero, ns, k).len() == zero.len(),
    decreases k,
{
    if k > 0 {
        lemma_init_coords_len(v, zero, ns, k - 1);
    }
}

/// The centre depends only on where the neighbours lie.
pub proof fn lemma_init_coords_same<R: Real>(
    v: Seq<NodeView<R>>,
    w: Seq<NodeView<R>>,
    zero: Seq<R>,
    ns: Seq<usize>,
    k: int,
)
    requires
        0 <= k <= ns.len(),
        forall|m: int| 0 <= m < ns.len() ==> (#[trigger] ns[m]) < v.len() && ns[m] < w.len(),
        forall|i: int| 0 <= i < v.len() && i < w.len() ==> (#[trigger] v[i]).coords == w[i].coords,
    ensures
        init_coords(v, zero, ns, k) == init_coords(w, zero, ns, k),
    decreases k,
{
    if k > 0 {
        lemma_init_coords_same(v, w, zero, ns, k - 1);
        assert(ns[k - 1] < v.len());
        assert(v[ns[k - 1] as int].coords == w[ns[k - 1] as int].coords);
    }
}

/// One more node, one more terminal if it is one.
pub proof fn lemma_count_pushed<R>(v0: Seq<NodeView<R>>, v1: Seq<NodeView<R>>)
    requires
        v1.len() == v0.len() + 1,
        forall|i: int| 0 <= i < v0.len() ==> (#[trigger] v1[i]).is_terminal == v0[i].is_terminal,
    ensures
        count_terminals(v1) == count_terminals(v0) + if v1.last().is_terminal {
            1nat
        } else {
            0nat
        },
{
    lemma_count_terminals_same(v0, v1.drop_last());
}

/// Appending a node keeps the graph well formed.
pub proof fn lemma_push_wf<R: Real>(
    v0: Seq<NodeView<R>>,
    coords: Seq<R>,
    point_id: usize,
    ns: Seq<usize>,
    is_terminal: bool,
)
    requires
        view_wf(v0),
        v0.len() < usize::MAX,
        ns.no_duplicates(),
        forall|k: int| 0 <= k < ns.len() ==> (#[trigger] ns[k]) < v0.len(),
        v0.len() > 0 ==> coords.len() == v0[0].coords.len(),
    ensures
        view_wf(node_pushed(v0, coords, point_id, ns, is_terminal)),
        forall|i: usize, j: usize|
            adjacent(adj_of(node_pushed(v0, coords, point_id, ns, is_terminal)), i, j) <==> (
            adjacent(adj_of(v0), i, j) || (i == v0.len() && ns.contains(j)) || (j == v0.len()
                && ns.contains(i))),
{
    let v1 = node_pushed(v0, coords, point_id, ns, is_terminal);
    let a0 = adj_of(v0);
    let a1 = adj_of(v1);
    let id = v0.len() as usize;
    lemma_init_coords_len(v0, seq_mul(coords, R::zero_spec()), ns, ns.len() as int);
    assert forall|i: int, k: int| 0 <= i < a1.len()
        && 0 <= k < a1[i].len() implies (#[trigger] a1[i][k])
        < a1.len() && a1[i][k] != i by {
        if i < v0.len() {
            if k < a0[i].len() {
                assert(a1[i][k] == a0[i][k]);
            }
        }
    }
    assert forall|i: int| 0 <= i < a1.len() implies (#[trigger] a1[i]).no_duplicates() by {
        if i < v0.len() {
            assert(a0[i].no_duplicates());
            assert(!a0[i].contains(id)) by {
                if a0[i].contains(id) {
                    let k = choose|k: int| 0 <= k < a0[i].len() && a0[i][k] == id;
                    assert(a0[i][k] < a0.len());
                }
            }
        }
    }
    assert forall|i: usize, j: usize|
        adjacent(a1, i, j) <==> (adjacent(a0, i, j) || (i == v0.len() && ns.contains(j)) || (j
            == v0.len() && ns.contains(i))) by {
        if i < v1.len() && j < v1.len() {
            let ii = i as int;
            if i < v0.len() {
                if a0[ii].contains(j) {
                    let k = choose|k: int| 0 <= k < a0[ii].len() && a0[ii][k] == j;
                    assert(a0[ii][k] < a0.len());
                    assert(a1[ii][k] == j);
                }
                if ns.contains(i) {
                    assert(a1[ii] == a0[ii].push(id));
                    assert(a1[ii][a0[ii].len() as int] == id);
                    if a1[ii].contains(j) && j != id {
                        let k = choose|k: int| 0 <= k < a1[ii].len() && a1[ii][k] == j;
                        assert(a0[ii][k] == j);
                    }
                } else {
                    assert(a1[ii] == a0[ii]);
                    if j == id {
                        assert(!a0[ii].contains(id)) by {
                            if a0[ii].contains(id) {
                                let k = choose|k: int| 0 <= k < a0[ii].len() && a0[ii][k] == id;
                                assert(a0[ii][k] < a0.len());
                            }
                        }
                    }
                }
            } else {
                assert(a1[ii] == ns);
                if ns.contains(j) {
                    let k = choose|k: int| 0 <= k < ns.len() && ns[k] == j;
                    assert(ns[k] < v0.len());
                }
            }
        } else {
            if ns.contains(j) {
                let k = choose|k: int| 0 <= k < ns.len() && ns[k] == j;
                assert(ns[k] < v0.len());
            }
            if ns.contains(i) {
                let k = choose|k: int| 0 <= k < ns.len() && ns[k] == i;
                assert(ns[k] < v0.len());
            }
        }
    }
    assert forall|i: usize, j: usize| #[trigger] adjacent(a1, i, j) implies adjacent(a1, j, i) by {
        if adjacent(a0, i, j) {
            assert(adjacent(a0, j, i));
        }
    }
    assert forall|i: int| 0 <= i < v1.len() implies (#[trigger] v1[i]).coords.len()
        == v1[0].coords.len() by {
        if i < v0.len() {
            assert(v0[i].coords.len() == v0[0].coords.len());
        }
    }
}

/// Taking the last node away keeps the graph well formed.
pub proof fn lemma_pop_wf<R>(v0: Seq<NodeView<R>>)
    requires
        view_wf(v0),
        0 < v0.len() <= usize::MAX,
    ensures
        view_wf(node_popped(v0)),
        forall|i: usize, j: usize|
            adjacent(adj_of(node_popped(v0)), i, j) <==> (adjacent(adj_of(v0), i, j) && i
                != v0.len() - 1 && j != v0.len() - 1),
{
    let v1 = node_popped(v0);
    let a0 = adj_of(v0);
    let a1 = adj_of(v1);
    let id = (v0.len() - 1) as usize;
    assert forall|i: int| 0 <= i < a1.len() implies (#[trigger] a1[i]).no_duplicates() && (forall|
        y: usize,
    |
        a1[i].contains(y) <==> (a0[i].contains(y) && y != id)) by {
        assert(a0[i].no_duplicates());
        lemma_swap_removed(v0[i].ns, id);
    }
    assert forall|i: usize, j: usize|
        adjacent(a1, i, j) <==> (adjacent(a0, i, j) && i != v0.len() - 1 && j != v0.len() - 1) by {
        if i < v1.len() {
            assert(a1[i as int].no_duplicates());
            if a0[i as int].contains(j) {
                let k = choose|k: int| 0 <= k < a0[i as int].len() && a0[i as int][k] == j;
                assert(a0[i as int][k] < a0.len());
            }
        }
    }
    assert forall|i: int, k: int| 0 <= i < a1.len()
        && 0 <= k < a1[i].len() implies (#[trigger] a1[i][k])
        < a1.len() && a1[i][k] != i by {
        assert(a1[i].no_duplicates());
        assert(a1[i].contains(a1[i][k]));
        assert(a0[i].contains(a1[i][k]));
        let m = choose|m: int| 0 <= m < a0[i].len() && a0[i][m] == a1[i][k];
        assert(a0[i][m] < a0.len() && a0[i][m] != i);
    }
    assert forall|i: usize, j: usize| #[trigger] adjacent(a1, i, j) implies adjacent(a1, j, i) by {
        assert(adjacent(a0, i, j));
        assert(adjacent(a0, j, i));
    }
    assert forall|i: int| 0 <= i < v1.len() implies (#[trigger] v1[i]).coords.len()
        == v1[0].coords.len() by {
        assert(v0[i].coords.len() == v0[0].coords.len());
    }
}

/// Adding a list of edges to a graph without edges gives a well-formed graph
/// in which exactly the listed pairs are neighbours.
pub proof fn lemma_edges_added<R>(v: Seq<NodeView<R>>, edges: Seq<(usize, usize)>, k: int)
    requires
        view_wf(v),
        forall|i: usize, j: usize| !adjacent(adj_of(v), i, j),
        edge_list_ok(edges, v.len()),
        0 <= k <= edges.len(),
    ensures
        view_wf(edges_added(v, edges, k)),
        edges_added(v, edges, k).len() == v.len(),
        forall|i: usize, j: usize|
            adjacent(adj_of(edges_added(v, edges, k)), i, j) <==> listed(edges, k, i, j),
        forall|i: int|
            0 <= i < v.len() ==> (#[trigger] edges_added(v, edges, k)[i]).is_terminal
                == v[i].is_terminal && edges_added(v, edges, k)[i].coords == v[i].coords
                && edges_added(v, edges, k)[i].point_id == v[i].point_id,
    decreases k,
{
    if k > 0 {
        lemma_edges_added(v, edges, k - 1);
        let w = edges_added(v, edges, k - 1);
        let e = edges[k - 1];
        assert(!adjacent(adj_of(w), e.0, e.1)) by {
            if listed(edges, k - 1, e.0, e.1) {
                let m = choose|m: int|
                    0 <= m < k - 1 && m < edges.len() && same_edge(#[trigger] edges[m], (e.0, e.1));
                assert(same_edge(edges[m], edges[k - 1]));
            }
        }
        lemma_add_edge_wf(w, e.0, e.1);
        let x = edges_added(v, edges, k);
        assert forall|i: usize, j: usize| adjacent(adj_of(x), i, j) <==> listed(edges, k, i, j) by {
            if listed(edges, k - 1, i, j) {
                let m = choose|m: int|
                    0 <= m < k - 1 && m < edges.len() && same_edge(#[trigger] edges[m], (i, j));
                assert(same_edge(edges[m], (i, j)));
            }
            if (i == e.0 && j == e.1) || (i == e.1 && j == e.0) {
                assert(same_edge(edges[k - 1], (i, j)));
            }
            if listed(edges, k, i, j) {
                let m = choose|m: int|
                    0 <= m < k && m < edges.len() && same_edge(#[trigger] edges[m], (i, j));
                if m < k - 1 {
                    assert(listed(edges, k - 1, i, j));
                }
            }
        }
    }
}

/// The nodes that `new` starts from form a graph without edges, with as many
/// terminals as were given.
pub proof fn lemma_initial_nodes<P: Point>(t: Seq<P>, s: Seq<P>)
    requires
        one_dimension(t, s),
        t.len() + s.len() <= usize::MAX,
    ensures
        view_wf(initial_nodes(t, s)),
        count_terminals(initial_nodes(t, s)) == t.len(),
        forall|i: usize, j: usize| !adjacent(adj_of(initial_nodes(t, s)), i, j),
{
    let v = initial_nodes(t, s);
    assert forall|i: int| 0 <= i < v.len() implies (#[trigger] v[i]).coords.len()
        == v[0].coords.len() by {
        assert(v[i].coords == (t + s)[i].coords_spec());
        assert(v[0].coords == (t + s)[0].coords_spec());
    }
    lemma_count_initial(v, t.len() as int, v.len() as int);
}

/// Where the first `t` nodes are the terminals, the first `n >= t` nodes hold
/// `t` terminals.
pub proof fn lemma_count_initial<R>(v: Seq<NodeView<R>>, t: int, n: int)
    requires
        0 <= t <= v.len(),
        0 <= n <= v.len(),
        forall|i: int| 0 <= i < v.len() ==> (#[trigger] v[i]).is_terminal == (i < t),
    ensures
        count_terminals(v.take(n)) == if n <= t {
            n
        } else {
            t
        },
        n == v.len() ==> count_terminals(v) == if n <= t {
            n
        } else {
            t
        },
    decreases n,
{
    if n > 0 {
        lemma_count_initial(v, t, n - 1);
        assert(v.take(n).drop_last() =~= v.take(n - 1));
    }
    if n == v.len() {
        assert(v.take(n) =~= v);
    }
}

/// One more edge, two more ends.
pub proof fn lemma_edge_added_degree<R>(v: Seq<NodeView<R>>, a: usize, b: usize)
    requires
        a < v.len(),
        b < v.len(),
        a != b,
    ensures
        degree_sum(adj_of(edge_added(v, a, b))) == degree_sum(adj_of(v)) + 2,
{
    let a0 = adj_of(v);
    let va = v.update(a as int, NodeView { ns: v[a as int].ns.push(b), ..v[a as int] });
    assert(adj_of(va) =~= a0.update(a as int, a0[a as int].push(b)));
    assert(adj_of(edge_added(v, a, b)) =~= adj_of(va).update(
        b as int,
        adj_of(va)[b as int].push(a),
    ));
    lemma_degree_sum_update(a0, a as int, a0[a as int].push(b));
    lemma_degree_sum_update(adj_of(va), b as int, adj_of(va)[b as int].push(a));
}

/// Moving a Steiner point within the dimension relaxes the tree.
pub proof fn lemma_node_moved<R>(v: Seq<NodeView<R>>, i: usize, coords: Seq<R>)
    requires
        i < v.len(),
        !v[i as int].is_terminal,
        coords.len() == v[i as int].coords.len(),
    ensures
        moved(v, node_moved(v, i, coords)),
{
}

/// Relaxing twice is relaxing.
pub proof fn lemma_moved_trans<R>(u: Seq<NodeView<R>>, v: Seq<NodeView<R>>, w: Seq<NodeView<R>>)
    requires
        moved(u, v),
        moved(v, w),
    ensures
        moved(u, w),
{
    assert forall|i: int| 0 <= i < u.len() implies (#[trigger] w[i]).ns == u[i].ns && w[i].id
        == u[i].id && w[i].is_terminal == u[i].is_terminal && w[i].point_id == u[i].point_id
        && w[i].coords.len() == u[i].coords.len() && (u[i].is_terminal ==> w[i].coords
        == u[i].coords) by {
        assert(v[i].ns == u[i].ns);
    }
}

/// A well-formed tree stays one when Steiner points are moved.
pub proof fn lemma_relaxed_wf<P: Point>(v: SteinerTree<P>, w: SteinerTree<P>)
    requires
        v.wf(),
        relaxed(v, w),
    ensures
        w.wf(),
        adj_of(w@) == adj_of(v@),
{
    lemma_moved_wf(v@, w@);
    lemma_count_terminals_same(v@, w@);
}

} // verus!
