//! The enumeration of the full Steiner topologies, after Gilbert and Pollak:
//! depth first, one edge split for each terminal after the three of the
//! seed, with a cursor per level that says which edge comes next.

use crate::bottleneck::{
    bottleneck_distances, bottleneck_steiner_distances, rows, smallest_spheres, sphere_radii,
};
use crate::clock::{no_time, now, since};
use crate::enumerator_data::{capped, levels, EnumeratorData, GPEnumerationData};
use crate::graph::{adjacent, is_tree, lemma_reach_edge, lemma_reach_refl};
use crate::point::Point;
use crate::pruning::{prune_paths_check, prune_verdict, Bounds, Verdict};

use crate::search::{
    counted, exhausted, judged, lemma_searched_step, popped, put_in, searched, stepped, tallied,
    unwound, waiting, Setting, Stand,
};
use crate::sorter::{
    in_order, is_permutation, lemma_rearranged_dim, rearranged, same_dim, FurthestSiteOrdering,
    Order, TerminalSorter,
};
use crate::space::MinkowskiSpace;
use crate::steiner_tree::{
    adj_of, count_terminals, edge_added, edges_added, initial_nodes, lemma_add_edge_wf,
    lemma_count_terminals_bound, lemma_edge_added_degree, lemma_edges_added, lemma_initial_nodes,
    lemma_relaxed_wf, moved, relaxed, NodeView, SteinerTree,
};
use crate::mst::lemma_degree_sum_none;
use crate::topology::{
    cursors_ok, dfs_ok, frames_ok, full_topology, is_terminal_at, kinds_ok, leaf_cursors, leaves,
    lemma_dfs_cursors, lemma_dfs_tree, lemma_split_dfs, lemma_split_steps, lemma_split_view,
    lemma_steps_left, lemma_unsplit_dfs, lemma_unsplit_steps, passed, radix, seed_edges,
    split_edges, split_view, steps_left, unsplit_edges, unsplit_view,
};

use vstd::prelude::*;

verus! {

/// Where the enumeration stands.
#[derive(Clone, Copy, Debug, PartialEq, Eq, Structural)]
pub enum GPState {
    /// Nothing is left, or nothing was set up.
    Done,
    /// Set up, and nothing handed out yet.
    Start,
    /// In the middle.
    Running,
}

/// The Gilbert-Pollak enumeration with bottleneck and sphere pruning.
pub struct GPEnumeration<P: Point, S: TerminalSorter> {
    tree: SteinerTree<P>,
    edges: Vec<(usize, usize)>,
    top: Vec<usize>,
    t: Vec<P>,
    bsd: Vec<Vec<P::R>>,
    ss: Vec<P::R>,
    t_len: usize,
    sorter: S,
    e_bsd: bool,
    e_ss: bool,
    state: GPState,
    data: GPEnumerationData,
    history: Ghost<Seq<SteinerTree<P>>>,
}

/// A source of Steiner topologies for the branch and bound.
pub trait Enumerator<P: Point> {
    type D: EnumeratorData;

    /// Whether the enumerator is in order.
    spec fn inv(&self) -> bool;

    /// The tree that the enumerator works on.
    spec fn spec_tree(&self) -> SteinerTree<P>;

    /// The number of terminals that it was set up with.
    spec fn spec_terminals(&self) -> nat;

    /// A bound on the number of topologies still to come.
    spec fn remaining(&self) -> nat;

    /// Where the terminals lie that the enumerator was set up with, in the
    /// order in which it works on them.
    spec fn spec_given(&self) -> Seq<Seq<P::R>>;

    /// The topologies handed out since the enumerator was set up, each as it
    /// was when it was handed out.
    spec fn handed_out(&self) -> Seq<SteinerTree<P>>;

    /// Sets the enumeration up for the terminals `terms`.
    fn init<M: MinkowskiSpace<P>>(&mut self, terms: Vec<P>, geo: &M)
        requires
            same_dim(terms@),
            terms@.len() <= usize::MAX / 8,
        ensures
            final(self).inv(),
            final(self).spec_terminals() == terms@.len(),
            rearranged(coords_of(terms@), final(self).spec_given()),
            final(self).handed_out() == Seq::<SteinerTree<P>>::empty(),
    ;

    /// Goes on to the next topology. When none is left the answer is `false`.
    fn next<M: MinkowskiSpace<P>>(&mut self, geo: &M) -> (r: bool)
        requires
            old(self).inv(),
        ensures
            final(self).inv(),
            final(self).spec_terminals() == old(self).spec_terminals(),
            final(self).spec_given() == old(self).spec_given(),
            final(self).handed_out() == if r {
                old(self).handed_out().push(final(self).spec_tree())
            } else {
                old(self).handed_out()
            },
            !r ==> final(self).remaining() == 0,
            r ==> final(self).remaining() < old(self).remaining(),
            r ==> yields(final(self).spec_tree(), final(self).spec_terminals()),
            r ==> carries(final(self).spec_tree()@, final(self).spec_given()),
    ;

    /// The tree of the present topology.
    fn tree(&self) -> (t: &SteinerTree<P>)
        ensures
            *t == self.spec_tree(),
            self.inv() ==> t.wf(),
    ;

    /// The tree of the present topology, for its Steiner points to be moved.
    /// The enumerator stays in order if nothing else is done to the tree.
    fn tree_mut(&mut self) -> (t: &mut SteinerTree<P>)
        ensures
            *t == old(self).spec_tree(),
            final(self).spec_tree() == *final(t),
            final(self).spec_terminals() == old(self).spec_terminals(),
            final(self).handed_out() == old(self).handed_out(),
            old(self).inv() && relaxed(old(self).spec_tree(), *final(t)) ==> final(self).inv()
                && final(self).remaining() == old(self).remaining() && final(self).spec_given()
                == old(self).spec_given(),
    ;

    /// The figures of the enumeration.
    fn data(&self) -> (d: &Self::D);
}

/// Whether `tree` is what an enumerator hands out for `k` terminals: a full
/// Steiner topology on them or, for fewer than three, the terminals alone,
/// joined where there are two.
pub open spec fn yields<P: Point>(tree: SteinerTree<P>, k: nat) -> bool {
    &&& tree.wf()
    &&& tree.spec_terminal_count() == k
    &&& if k >= 3 {
        full_topology(tree@, k)
    } else {
        tree@.len() == k && (k >= 1 ==> is_tree(adj_of(tree@)))
    }
}

/// Where the points lie, one after the other.
pub open spec fn coords_of<P: Point>(t: Seq<P>) -> Seq<Seq<P::R>> {
    Seq::new(t.len(), |i: int| t[i].coords_spec())
}

/// Whether the terminals of `v` lie where points of `given` lie, each at a
/// point of its own: the terminal at node `i` at the point `src[i]`.
pub open spec fn carried<R>(v: Seq<NodeView<R>>, given: Seq<Seq<R>>, src: Seq<int>) -> bool {
    &&& src.len() == v.len()
    &&& forall|i: int|
        0 <= i < v.len() && (#[trigger] v[i]).is_terminal ==> 0 <= src[i] < given.len()
            && v[i].coords == given[src[i]]
    &&& forall|i: int, j: int|
        0 <= i < j < v.len() && (#[trigger] v[i]).is_terminal && (#[trigger] v[j]).is_terminal
            ==> src[i] != src[j]
}

/// Whether the terminals of `v` lie where points of `given` lie, each at a
/// point of its own.
pub open spec fn carries<R>(v: Seq<NodeView<R>>, given: Seq<Seq<R>>) -> bool {
    exists|src: Seq<int>| carried(v, given, src)
}

/// Terminals that lie at the points of a list lie at the points of every
/// list that holds the same points in another order.
pub proof fn lemma_carries_rearranged<R>(v: Seq<NodeView<R>>, a: Seq<Seq<R>>, b: Seq<Seq<R>>)
    requires
        carries(v, b),
        rearranged(a, b),
    ensures
        carries(v, a),
{
    reveal(rearranged);
    let src = choose|src: Seq<int>| carried(v, b, src);
    let pi = choose|pi: Seq<int>| #[trigger]
        is_permutation(pi, a.len()) && b.len() == a.len() && forall|i: int|
            0 <= i < b.len() ==> #[trigger] b[i] == a[pi[i]];
    let to = Seq::new(v.len(), |i: int| pi[src[i]]);
    assert(carried(v, a, to));
}

/// Moving Steiner points leaves the terminals where they lie.
pub proof fn lemma_carries_moved<R>(v: Seq<NodeView<R>>, w: Seq<NodeView<R>>, given: Seq<Seq<R>>)
    requires
        carries(v, given),
        moved(v, w),
    ensures
        carries(w, given),
{
    let src = choose|src: Seq<int>| carried(v, given, src);
    assert(carried(w, given, src)) by {
        assert forall|i: int| 0 <= i < w.len() && (#[trigger] w[i]).is_terminal implies 0
            <= src[i] < given.len() && w[i].coords == given[src[i]] by {
            assert(v[i].is_terminal);
        }
        assert forall|i: int, j: int|
            0 <= i < j < w.len() && (#[trigger] w[i]).is_terminal && (
            #[trigger] w[j]).is_terminal implies src[i] != src[j] by {
            assert(v[i].is_terminal && v[j].is_terminal);
        }
    }
}

/// The terminal that node `i` of a growing topology holds, `m` being the
/// number of levels: the seed holds the last three, and each level the one
/// before those of the levels below it.
pub open spec fn terminal_of_node(i: int, m: int) -> int {
    if i < 3 {
        m + i
    } else {
        m - 1 - (i - 4) / 2
    }
}

/// The node that holds terminal `l` once it is in the tree.
pub open spec fn node_of_terminal(l: int, m: int) -> int {
    if l >= m {
        l - m
    } else {
        4 + 2 * (m - 1 - l)
    }
}

/// Whether `sorted` holds the points of `terms` in the order `pi`, each with
/// its place as its identity.
pub open spec fn sorted_as<P: Point>(sorted: Seq<P>, pi: Seq<int>, terms: Seq<P>) -> bool {
    &&& is_permutation(pi, terms.len())
    &&& sorted.len() == terms.len()
    &&& forall|l: int|
        0 <= l < sorted.len() ==> (#[trigger] sorted[l]).coords_spec() == terms[pi[l]].coords_spec()
            && sorted[l].id_spec() == l
}

/// Whether `sorted` holds the points of `ordered`, each with its place as its
/// identity.
pub open spec fn placed<P: Point>(sorted: Seq<P>, ordered: Seq<P>) -> bool {
    &&& sorted.len() == ordered.len()
    &&& forall|l: int|
        0 <= l < sorted.len() ==> (#[trigger] sorted[l]).coords_spec() == ordered[l].coords_spec()
            && sorted[l].id_spec() == l
}

impl<P: Point> Default for GPEnumeration<P, FurthestSiteOrdering> {
    /// Both tests on, the terminals in the order of the farthest sites.
    fn default() -> (e: Self)
        ensures
            e.inv(),
            e.spec_terminals() == 0,
            e.spec_state() == GPState::Done,
            e.spec_sorter().order() == Order::FurthestSites,
            e.bounds().e_bsd,
            e.bounds().e_ss,
    {
        GPEnumeration::new(true, true, FurthestSiteOrdering)
    }
}

impl<P: Point, S: TerminalSorter> GPEnumeration<P, S> {
    /// The order for the terminals.
    pub closed spec fn spec_sorter(&self) -> S {
        self.sorter
    }

    /// The topologies handed out since the enumeration was set up.
    pub closed spec fn handed(&self) -> Seq<SteinerTree<P>> {
        self.history@
    }

    /// The tree.
    pub closed spec fn tree_view(&self) -> Seq<NodeView<P::R>> {
        self.tree@
    }

    /// The edge list.
    pub closed spec fn spec_edges(&self) -> Seq<(usize, usize)> {
        self.edges@
    }

    /// The cursors, one per level reached.
    pub closed spec fn spec_top(&self) -> Seq<usize> {
        self.top@
    }

    /// The terminals still to come; the last is the next.
    pub closed spec fn spec_waiting(&self) -> Seq<P> {
        self.t@
    }

    /// The number of terminals.
    pub closed spec fn spec_t_len(&self) -> usize {
        self.t_len
    }

    /// Where the enumeration stands.
    pub closed spec fn spec_state(&self) -> GPState {
        self.state
    }

    /// The figures.
    pub closed spec fn spec_data(&self) -> GPEnumerationData {
        self.data
    }

    /// The bounds that the tests work with at present.
    pub closed spec fn bounds(&self) -> Bounds<P::R> {
        Bounds {
            bsd: rows(self.bsd@),
            ss: self.ss@,
            e_bsd: self.e_bsd,
            e_ss: self.e_ss,
            j: self.t@.len() as usize,
        }
    }

    /// Where terminal `l` lies, be it still to come or in the tree, at the
    /// node that `node_of_terminal` names.
    pub open spec fn terminal_coords(&self, l: int) -> Seq<P::R> {
        if l < self.spec_waiting().len() {
            self.spec_waiting()[l].coords_spec()
        } else {
            self.tree_view()[node_of_terminal(l, levels(self.spec_t_len()) as int)].coords
        }
    }

    /// What holds of the bounds and figures whatever the search does.
    pub closed spec fn base_ok(&self) -> bool {
        let m = levels(self.t_len);
        &&& self.t_len <= usize::MAX / 8
        &&& self.data.spec_bsd_pruned().len() == m
        &&& self.data.spec_ss_pruned().len() == m
        &&& self.data.spec_timed_levels() == m
        &&& (self.e_bsd || self.e_ss) ==> rows(self.bsd@).len() == self.t_len && forall|i: int|
            0 <= i < self.t_len ==> (#[trigger] rows(self.bsd@)[i]).len() == self.t_len
        &&& self.e_ss ==> self.ss@.len() == self.t_len
        &&& self.tree.wf()
    }

    /// What holds in the middle of the search, for three terminals or more:
    /// the tree is a growing topology, and every terminal is in it or waits,
    /// in the order of its identity.
    pub closed spec fn grown_ok(&self) -> bool {
        let m = levels(self.t_len) as int;
        &&& self.t_len >= 3
        &&& dfs_ok(self.tree@, self.edges@, self.top@)
        &&& self.t@.len() + self.top@.len() + 2 == self.t_len
        &&& forall|l: int|
            0 <= l < self.t@.len() ==> (#[trigger] self.t@[l]).id_spec() == l
                && self.t@[l].coords_spec().len() == self.tree@[0].coords.len()
        &&& forall|i: int|
            0 <= i < self.tree@.len() && (#[trigger] self.tree@[i]).is_terminal
                ==> self.tree@[i].point_id == terminal_of_node(i, m)
    }

    /// What holds for fewer than three terminals: the tree holds them alone.
    pub closed spec fn small_ok(&self) -> bool {
        &&& self.t_len < 3
        &&& self.top@.len() == 0
        &&& self.t@.len() == 0
        &&& self.state != GPState::Running
        &&& yields(self.tree, self.t_len as nat)
    }

    /// The steps that the search still takes.
    pub closed spec fn steps(&self) -> int {
        steps_left(self.top@, levels(self.t_len) as int)
    }

    /// The number of full topologies that the search has behind it, those of
    /// pruned branches included.
    pub closed spec fn rank(&self) -> int {
        passed(self.top@, levels(self.t_len) as int)
    }

    /// The number of full topologies of the terminals.
    pub closed spec fn total(&self) -> int {
        leaves(0, levels(self.t_len) as int)
    }

    /// Where the search stands.
    pub open spec fn stand(&self) -> Stand<P::R> {
        Stand { v: self.tree_view(), edges: self.spec_edges(), top: self.spec_top() }
    }

    /// What the search works with: the terminals, be they in the tree or
    /// still to come, and the bounds.
    pub open spec fn setting(&self) -> Setting<P::R> {
        Setting {
            terminals: Seq::new(self.spec_t_len() as nat, |l: int| self.terminal_coords(l)),
            bounds: Bounds { j: 0, ..self.bounds() },
        }
    }

    /// Where `backtrack` starts to look: at a full topology, below it.
    pub open spec fn backtrack_start(&self) -> Stand<P::R> {
        if self.spec_waiting().len() == 0 {
            popped(self.stand())
        } else {
            self.stand()
        }
    }

    /// The verdict of the tests on the present topology, its last terminal
    /// being at `ti` and the Steiner point of that at `si`. With both tests
    /// off every topology is kept.
    pub open spec fn verdict<M: MinkowskiSpace<P>>(
        &self,
        geo: &M,
        ti: usize,
        si: usize,
    ) -> Verdict {
        if self.bounds().e_bsd || self.bounds().e_ss {
            prune_verdict::<P, M>(self.tree_view(), geo, self.bounds(), si, ti)
        } else {
            Verdict::Keep
        }
    }

    /// Whether the bounds and the terminals are those of `sorted`.
    pub open spec fn works_on<M: MinkowskiSpace<P>>(&self, sorted: Seq<P>, geo: &M) -> bool {
        &&& forall|l: int|
            0 <= l < sorted.len()
                ==> self.terminal_coords(l) == (#[trigger] sorted[l]).coords_spec()
        &&& self.bounds().e_bsd || self.bounds().e_ss
            ==> self.bounds().bsd == bottleneck_distances::<
            P,
            M,
        >(sorted, geo)
        &&& self.bounds().e_ss ==> self.bounds().ss == sphere_radii::<P, M>(sorted, geo)
    }

    /// Whether the enumeration was set up for `terms` in the order `o`: it
    /// works on them in that order - in some order, if that is `Unnamed` -,
    /// each with its place in the order as its identity.
    pub open spec fn set_up_for<M: MinkowskiSpace<P>>(
        &self,
        o: Order,
        terms: Seq<P>,
        geo: &M,
    ) -> bool {
        exists|sorted: Seq<P>, pi: Seq<int>| #[trigger]
            sorted_as(sorted, pi, terms) && (o != Order::Unnamed ==> placed(
                sorted,
                in_order::<P, M>(o, terms, geo),
            )) && self.works_on(sorted, geo)
    }

    /// What holds between two calls, besides `base_ok`.
    pub closed spec fn search_ok(&self) -> bool {
        if self.t_len < 3 {
            self.small_ok()
        } else {
            &&& self.grown_ok()
            &&& self.state == GPState::Start ==> self.top@ == seq![0usize]
            &&& self.state == GPState::Running ==> self.t@.len() == 0 && self.top@.last() == 0
                && self.t_len > 3
        }
    }

    /// Whether the two enumerations differ in their trees at most.
    pub closed spec fn same_but_tree(self, o: Self) -> bool {
        &&& self.edges == o.edges
        &&& self.top == o.top
        &&& self.t == o.t
        &&& self.bsd == o.bsd
        &&& self.ss == o.ss
        &&& self.t_len == o.t_len
        &&& self.sorter == o.sorter
        &&& self.e_bsd == o.e_bsd
        &&& self.e_ss == o.e_ss
        &&& self.state == o.state
        &&& self.data == o.data
        &&& self.history == o.history
    }

    /// An enumeration that has yet to be set up, with the given tests on and
    /// the given order for the terminals.
    pub fn new(e_bsd: bool, e_ss: bool, sorter: S) -> (e: Self)
        ensures
            e.base_ok(),
            e.small_ok(),
            e.spec_t_len() == 0,
            e.spec_state() == GPState::Done,
            e.spec_sorter() == sorter,
            e.bounds().e_bsd == e_bsd,
            e.bounds().e_ss == e_ss,
    {
        let e = GPEnumeration {
            e_bsd,
            e_ss,
            state: GPState::Done,
            tree: SteinerTree::empty(),
            edges: Vec::new(),
            top: Vec::new(),
            t: Vec::new(),
            sorter,
            bsd: Vec::new(),
            ss: Vec::new(),
            t_len: 0,
            data: GPEnumerationData::new(0),
            history: Ghost(Seq::empty()),
        };
        proof {
            assert(rows(e.bsd@) =~= Seq::<Seq<P::R>>::empty());
            crate::steiner_tree::lemma_count_terminals_bound(e.tree@);
        }
        e
    }

    /// An enumeration with both tests on.
    pub fn default_with_sorter(sorter: S) -> (e: Self)
        ensures
            e.base_ok(),
            e.small_ok(),
            e.spec_t_len() == 0,
            e.spec_state() == GPState::Done,
            e.spec_sorter() == sorter,
            e.bounds().e_bsd,
            e.bounds().e_ss,
    {
        Self::new(true, true, sorter)
    }

    /// The bottleneck Steiner distance between two terminals.
    pub fn get_bottleneck(&self, p1: &P, p2: &P) -> (b: P::R)
        requires
            p1.id_spec() < self.bounds().bsd.len(),
            p2.id_spec() < self.bounds().bsd[p1.id_spec() as int].len(),
        ensures
            b == self.bounds().bsd[p1.id_spec() as int][p2.id_spec() as int],
    {
        self.bsd[p1.id()][p2.id()]
    }

    /// The radius of the smallest sphere of a terminal.
    pub fn get_ss(&self, p: &P) -> (r: P::R)
        requires
            p.id_spec() < self.bounds().ss.len(),
        ensures
            r == self.bounds().ss[p.id_spec() as int],
    {
        self.ss[p.id()]
    }

    /// Puts the next terminal in: splits the edge `ei` under the cursor on
    /// top, moves that cursor on and sets a new one on top of it. The answer
    /// is where the terminal and its Steiner point are in the tree.
    pub fn insert_on_edge(&mut self, ei: usize) -> (r: (usize, usize))
        requires
            old(self).base_ok(),
            old(self).grown_ok(),
            old(self).spec_waiting().len() > 0,
            ei == old(self).spec_top().last(),
            ei < old(self).spec_edges().len(),
        ensures
            final(self).base_ok(),
            final(self).grown_ok(),
            r.0 == old(self).tree_view().len(),
            r.1 == old(self).tree_view().len() + 1,
            final(self).tree_view() == split_view(
                old(self).tree_view(),
                old(self).spec_edges()[ei as int].0,
                old(self).spec_edges()[ei as int].1,
                old(self).spec_waiting().last().coords_spec(),
                old(self).spec_waiting().last().id_spec(),
            ),
            final(self).spec_edges() == split_edges(old(self).spec_edges(), ei as int, r.1),
            final(self).spec_top() == old(self).spec_top().update(
                old(self).spec_top().len() - 1,
                (ei + 1) as usize,
            ).push(0),
            final(self).spec_waiting() == old(self).spec_waiting().drop_last(),
            final(self).spec_t_len() == old(self).spec_t_len(),
            final(self).spec_state() == old(self).spec_state(),
            final(self).stand() == put_in::<P>(old(self).stand(), old(self).setting()),
            final(self).setting() == old(self).setting(),
            final(self).spec_data() == old(self).spec_data(),
            final(self).handed() == old(self).handed(),
            final(self).bounds() == (Bounds {
                j: final(self).spec_waiting().len() as usize,
                ..old(self).bounds()
            }),
            final(self).steps() + 1 == old(self).steps(),
            final(self).rank() == old(self).rank(),
            forall|l: int|
                0 <= l < old(self).spec_t_len()
                    ==> final(self).terminal_coords(l) == old(self).terminal_coords(l),
    {
        let ghost v0 = self.tree@;
        let ghost e0 = self.edges@;
        let ghost top0 = self.top@;
        let ghost t0 = self.t@;
        let ghost m = levels(self.t_len) as int;
        let p = self.t.pop().unwrap();
        let (a, b) = self.edges[ei];
        proof {
            assert(t0.last() == p);
            assert(p.coords_spec().len() == v0[0].coords.len());
            lemma_split_dfs(v0, e0, top0, p.coords_spec(), p.id_spec());
            lemma_split_view(v0, a, b, p.coords_spec(), p.id_spec());
            lemma_split_steps(top0, m);
        }
        self.tree.remove_edge((a, b));
        let steiner = p.duplicate();
        let none: [usize; 0] = [];
        let ghost cut = self.tree@;
        proof {
            assert(none@ =~= Seq::<usize>::empty());
            assert(cut[0].coords == v0[0].coords);
        }
        let ti = self.tree.push_node(p, none.as_slice(), true).id();
        let ns = [a, b, ti];
        proof {
            assert(ns@ =~= seq![a, b, ti]);
            assert(ns@.no_duplicates());
            assert(self.tree@[0].coords == v0[0].coords);
        }
        let si = self.tree.push_node(steiner, ns.as_slice(), false).id();
        self.edges[ei] = (a, si);
        self.edges.push((ti, si));
        self.edges.push((b, si));
        let d = self.top.len() - 1;
        self.top[d] = ei + 1;
        self.top.push(0);
        proof {
            let v1 = self.tree@;
            assert(self.edges@ =~= split_edges(e0, ei as int, si));
            assert(self.t@ =~= t0.drop_last());
            assert forall|l: int| 0 <= l < self.t@.len() implies (#[trigger] self.t@[l]).id_spec()
                == l && self.t@[l].coords_spec().len() == v1[0].coords.len() by {
                assert(self.t@[l] == t0[l]);
                assert(v1[0].coords == v0[0].coords);
            }
            assert forall|i: int| 0 <= i < v1.len()
                && (#[trigger] v1[i]).is_terminal implies v1[i].point_id
                == terminal_of_node(i, m) by {
                if i < v0.len() {
                    assert(v0[i].is_terminal);
                }
            }
            assert forall|l: int| 0 <= l < self.t_len implies self.terminal_coords(l)
                == old(self).terminal_coords(l) by {
                if l < self.t@.len() {
                    assert(self.t@[l] == t0[l]);
                } else if l >= t0.len() {
                    let i = node_of_terminal(l, m);
                    assert(0 <= i < v0.len());
                    assert(v1[i].coords == v0[i].coords);
                }
            }
            self.lemma_setting(*old(self));
        }
        (ti, si)
    }

    /// Takes the last terminal out again: undoes the split on top.
    pub fn pop(&mut self)
        requires
            old(self).base_ok(),
            old(self).grown_ok(),
            old(self).spec_top().len() >= 2,
        ensures
            final(self).base_ok(),
            final(self).grown_ok(),
            final(self).tree_view() == unsplit_view(
                old(self).tree_view(),
                old(self).spec_edges()[old(self).spec_top()[old(self).spec_top().len() - 2] - 1].0,
                old(self).spec_edges().last().0,
            ),
            final(self).spec_edges() == unsplit_edges(
                old(self).spec_edges(),
                old(self).spec_top()[old(self).spec_top().len() - 2] - 1,
            ),
            final(self).spec_top() == old(self).spec_top().drop_last(),
            final(self).spec_waiting().len() == old(self).spec_waiting().len() + 1,
            final(self).spec_waiting().drop_last() == old(self).spec_waiting(),
            final(self).spec_t_len() == old(self).spec_t_len(),
            final(self).spec_state() == old(self).spec_state(),
            final(self).stand() == popped(old(self).stand()),
            final(self).setting() == old(self).setting(),
            final(self).spec_data() == old(self).spec_data(),
            final(self).handed() == old(self).handed(),
            final(self).bounds() == (Bounds {
                j: final(self).spec_waiting().len() as usize,
                ..old(self).bounds()
            }),
            final(self).steps() < old(self).steps(),
            old(self).spec_waiting().len() > 0 ==> final(self).rank() == old(self).rank() + (radix(
                old(self).spec_top().len() - 1,
            ) - old(self).spec_top().last()) * leaves(
                old(self).spec_top().len() as int,
                levels(old(self).spec_t_len()) as int,
            ),
            old(self).spec_waiting().len() == 0
                ==> final(self).rank() == old(self).rank() + 1 - old(self).spec_top().last(),
            forall|l: int|
                0 <= l < old(self).spec_t_len()
                    ==> final(self).terminal_coords(l) == old(self).terminal_coords(l),
    {
        let ghost v0 = self.tree@;
        let ghost e0 = self.edges@;
        let ghost top0 = self.top@;
        let ghost t0 = self.t@;
        let ghost m = levels(self.t_len) as int;
        proof {
            lemma_unsplit_dfs(v0, e0, top0);
            lemma_unsplit_steps(top0, m);
        }
        self.top.pop();
        let ei = self.top[self.top.len() - 1] - 1;
        let (b, si) = self.edges.pop().unwrap();
        let (ti, _) = self.edges.pop().unwrap();
        let a = self.edges[ei].0;
        self.edges[ei] = (a, b);
        proof {
            assert(self.edges@ =~= unsplit_edges(e0, ei as int));
        }
        self.tree.add_edge((a, b));
        self.tree.pop_node();
        let popped = self.tree.pop_node();
        let tp = popped.unwrap();
        self.t.push(tp);
        proof {
            let v1 = self.tree@;
            let n = v0.len() as int;
            assert(self.t@.drop_last() =~= t0);
            assert(v0[n - 2].is_terminal);
            assert(tp.coords_spec() == v0[n - 2].coords);
            assert(tp.id_spec() == v0[n - 2].point_id);
            assert(v0[n - 2].coords.len() == v0[0].coords.len());
            assert forall|l: int| 0 <= l < self.t@.len() implies (#[trigger] self.t@[l]).id_spec()
                == l && self.t@[l].coords_spec().len() == v1[0].coords.len() by {
                assert(v1[0].coords == v0[0].coords);
                if l < t0.len() {
                    assert(self.t@[l] == t0[l]);
                }
            }
            assert forall|i: int| 0 <= i < v1.len()
                && (#[trigger] v1[i]).is_terminal implies v1[i].point_id
                == terminal_of_node(i, m) by {
                assert(v0[i].is_terminal);
            }
            assert forall|l: int| 0 <= l < self.t_len implies self.terminal_coords(l)
                == old(self).terminal_coords(l) by {
                if l < t0.len() {
                    assert(self.t@[l] == t0[l]);
                } else if l == t0.len() {
                    assert(node_of_terminal(l, m) == n - 2);
                } else {
                    let i = node_of_terminal(l, m);
                    assert(0 <= i < v1.len());
                    assert(v1[i].coords == v0[i].coords);
                }
            }
            self.lemma_setting(*old(self));
        }
    }

    /// Goes back to the last level that has an edge left to split: a full
    /// topology is undone first, and then every level whose cursor stands
    /// behind the last edge. The answer is `false` when no level has an edge
    /// left: the enumeration is done.
    pub fn backtrack(&mut self) -> (r: bool)
        requires
            old(self).base_ok(),
            old(self).grown_ok(),
            old(self).spec_waiting().len() == 0 ==> old(self).spec_top().len() >= 2,
        ensures
            final(self).base_ok(),
            final(self).grown_ok(),
            final(self).stand() == unwound(old(self).backtrack_start()),
            r == !exhausted(final(self).stand()),
            final(self).setting() == old(self).setting(),
            r ==> final(self).spec_state() == old(self).spec_state(),
            !r ==> final(self).spec_state() == GPState::Done,
            final(self).spec_waiting().len() > 0,
            final(self).spec_t_len() == old(self).spec_t_len(),
            final(self).spec_data() == old(self).spec_data(),
            final(self).handed() == old(self).handed(),
            final(self).bounds() == (Bounds {
                j: final(self).spec_waiting().len() as usize,
                ..old(self).bounds()
            }),
            final(self).steps() <= old(self).steps(),
            r ==> final(self).spec_top().last() < final(self).spec_edges().len(),
            old(self).spec_waiting().len() > 0 ==> final(self).rank() == old(self).rank(),
            old(self).spec_waiting().len() == 0 && old(self).spec_top().last() == 0
                ==> final(self).rank() == old(self).rank() + 1,
            !r && old(self).spec_t_len() > 3 ==> final(self).rank() == final(self).total(),
            forall|l: int|
                0 <= l < old(self).spec_t_len()
                    ==> final(self).terminal_coords(l) == old(self).terminal_coords(l),
    {
        let ghost m = levels(self.t_len) as int;
        let ghost start = self.backtrack_start();
        if self.t.len() == 0 {
            self.pop();
        }
        loop
            invariant
                self.base_ok(),
                self.grown_ok(),
                m == levels(self.t_len) as int,
                self.t_len == old(self).t_len,
                self.data == old(self).data,
                self.history == old(self).history,
                self.state == old(self).state,
                self.t@.len() > 0,
                start == old(self).backtrack_start(),
                unwound(self.stand()) == unwound(start),
                self.setting() == old(self).setting(),
                self.steps() <= old(self).steps(),
                self.bounds() == (Bounds { j: self.t@.len() as usize, ..old(self).bounds() }),
                old(self).spec_waiting().len() > 0 ==> self.rank() == old(self).rank(),
                old(self).spec_waiting().len() == 0 && old(self).spec_top().last() == 0
                    ==> self.rank() == old(self).rank() + 1,
                forall|l: int|
                    0 <= l < old(self).spec_t_len()
                        ==> self.terminal_coords(l) == old(self).terminal_coords(l),
            decreases self.top@.len(),
        {
            proof {
                lemma_dfs_cursors(self.tree@, self.edges@, self.top@);
            }
            if self.top[self.top.len() - 1] != self.edges.len() {
                return true;
            }
            if self.top.len() == 1 {
                let ghost at_seed = *self;
                self.state = GPState::Done;
                proof {
                    if self.t_len > 3 {
                        assert(self.top@.last() == 3);
                        assert(leaves(0, m) == radix(0) * leaves(1, m));
                    }
                    self.lemma_setting(at_seed);
                }
                return false;
            }
            proof {
                let x = self.top@.last() as int;
                let d = self.top@.len() - 1;
                assert(x == radix(d));
                assert((radix(d) - x) * leaves(d + 1, m) == 0) by (nonlinear_arith)
                    requires
                        radix(d) - x == 0,
                ;
            }
            self.pop();
        }
    }

    /// The bottleneck Steiner distances of the terminals, for the tests.
    pub fn calc_bsd<M: MinkowskiSpace<P>>(&mut self, terms: &[P], geo: &M)
        requires
            same_dim(terms@),
        ensures
            final(self).bounds() == (Bounds {
                bsd: bottleneck_distances::<P, M>(terms@, geo),
                ..old(self).bounds()
            }),
            final(self).bounds().bsd.len() == terms@.len(),
            forall|i: int|
                0 <= i < terms@.len() ==> (#[trigger] final(self).bounds().bsd[i]).len()
                    == terms@.len(),
            final(self).spec_tree() == old(self).spec_tree(),
            final(self).spec_edges() == old(self).spec_edges(),
            final(self).spec_top() == old(self).spec_top(),
            final(self).spec_waiting() == old(self).spec_waiting(),
            final(self).spec_t_len() == old(self).spec_t_len(),
            final(self).spec_state() == old(self).spec_state(),
            final(self).spec_data() == old(self).spec_data(),
            final(self).spec_sorter() == old(self).spec_sorter(),
            final(self).handed() == old(self).handed(),
    {
        self.bsd = bottleneck_steiner_distances(terms, geo);
    }

    /// The radii of the smallest spheres of the terminals, for the tests.
    pub fn calc_ss<M: MinkowskiSpace<P>>(&mut self, terms: &[P], geo: &M)
        requires
            same_dim(terms@),
        ensures
            final(self).bounds() == (Bounds {
                ss: sphere_radii::<P, M>(terms@, geo),
                ..old(self).bounds()
            }),
            final(self).bounds().ss.len() == terms@.len(),
            final(self).spec_tree() == old(self).spec_tree(),
            final(self).spec_edges() == old(self).spec_edges(),
            final(self).spec_top() == old(self).spec_top(),
            final(self).spec_waiting() == old(self).spec_waiting(),
            final(self).spec_t_len() == old(self).spec_t_len(),
            final(self).spec_state() == old(self).spec_state(),
            final(self).spec_data() == old(self).spec_data(),
            final(self).spec_sorter() == old(self).spec_sorter(),
            final(self).handed() == old(self).handed(),
    {
        self.ss = smallest_spheres(terms, geo);
    }

    /// Tests the topology that the terminal at `ti` and the Steiner point at
    /// `si` were just put into, and counts it where it is given up.
    pub fn prune_check<M: MinkowskiSpace<P>>(&mut self, ti: usize, si: usize, geo: &M) -> (r: bool)
        requires
            old(self).base_ok(),
            old(self).grown_ok(),
            old(self).spec_top().len() >= 2,
            ti == old(self).tree_view().len() - 2,
            si == old(self).tree_view().len() - 1,
        ensures
            final(self).base_ok(),
            final(self).grown_ok(),
            r == (old(self).verdict(geo, ti, si) != Verdict::Keep),
            old(self).verdict(geo, ti, si) == judged::<P, M>(old(self).stand(), old(self).setting(), geo),
            final(self).setting() == old(self).setting(),
            final(self).tree_view() == old(self).tree_view(),
            final(self).spec_edges() == old(self).spec_edges(),
            final(self).spec_top() == old(self).spec_top(),
            final(self).spec_waiting() == old(self).spec_waiting(),
            final(self).spec_t_len() == old(self).spec_t_len(),
            final(self).spec_state() == old(self).spec_state(),
            final(self).bounds() == old(self).bounds(),
            final(self).handed() == old(self).handed(),
            final(self).spec_data().spec_nodes() == old(self).spec_data().spec_nodes(),
            old(self).verdict(geo, ti, si) == Verdict::Keep
                ==> final(self).spec_data().spec_bsd_pruned()
                == old(self).spec_data().spec_bsd_pruned()
                    && final(self).spec_data().spec_ss_pruned()
                        == old(self).spec_data().spec_ss_pruned(),
            old(self).verdict(geo, ti, si) == Verdict::Bsd
                ==> final(self).spec_data().spec_ss_pruned()
                == old(self).spec_data().spec_ss_pruned()
                    && final(self).spec_data().spec_bsd_pruned()
                        == old(self).spec_data().spec_bsd_pruned().update(
                old(self).spec_top().len() - 2,
                capped(
                    old(self).spec_data().spec_bsd_pruned()[old(self).spec_top().len() - 2] + 1,
                ),
            ),
            old(self).verdict(geo, ti, si) == Verdict::Ss
                ==> final(self).spec_data().spec_bsd_pruned()
                == old(self).spec_data().spec_bsd_pruned()
                    && final(self).spec_data().spec_ss_pruned()
                        == old(self).spec_data().spec_ss_pruned().update(
                old(self).spec_top().len() - 2,
                capped(old(self).spec_data().spec_ss_pruned()[old(self).spec_top().len() - 2] + 1),
            ),
    {
        let start = now();
        let depth = self.t_len - self.t.len() - 4;
        let ghost m = levels(self.t_len) as int;
        let mut prune = false;
        if self.e_bsd || self.e_ss {
            proof {
                let v = self.tree@;
                let c = self.bounds();
                assert forall|i: int| 0 <= i < v.len()
                    && (#[trigger] v[i]).is_terminal implies v[i].point_id
                    < c.bsd.len() && (c.e_ss ==> v[i].point_id < c.ss.len()) by {
                    assert(v[i].point_id == terminal_of_node(i, m));
                }
                assert(v[si as int].ns.len() == 3);
                assert(v[ti as int].is_terminal);
            }
            let h = prune_paths_check(
                &self.tree,
                geo,
                &self.bsd,
                &self.ss,
                self.e_bsd,
                self.e_ss,
                self.t.len(),
                si,
                ti,
            );
            match h {
                Verdict::Keep => {},
                Verdict::Bsd => {
                    self.data.count_pruned(depth, true);
                    prune = true;
                },
                Verdict::Ss => {
                    self.data.count_pruned(depth, false);
                    prune = true;
                },
            }
        }
        self.data.add_prune_time(depth, since(&start));
        proof {
            self.lemma_setting(*old(self));
        }
        prune
    }

    /// The seed: the last three terminals round a Steiner point at their
    /// centre.
    fn seed(&mut self, terms: Vec<P>)
        requires
            old(self).base_ok(),
            terms@.len() == old(self).t_len,
            terms@.len() >= 3,
            old(self).top@.len() == 0,
            old(self).edges@.len() == 0,
            same_dim(terms@),
            forall|l: int| 0 <= l < terms@.len() ==> (#[trigger] terms@[l]).id_spec() == l,
        ensures
            final(self).base_ok(),
            final(self).grown_ok(),
            final(self).top@ == seq![0usize],
            final(self).t_len == old(self).t_len,
            final(self).state == old(self).state,
            final(self).data == old(self).data,
            final(self).sorter == old(self).sorter,
            final(self).history == old(self).history,
            final(self).bounds() == (Bounds {
                j: final(self).t@.len() as usize,
                ..old(self).bounds()
            }),
            forall|l: int|
                0 <= l < terms@.len() ==> final(self).terminal_coords(l) == (
                #[trigger] terms@[l]).coords_spec(),
    {
        let mut terms = terms;
        let n = terms.len();
        let ghost all = terms@;
        let ghost m = levels(self.t_len) as int;
        let p = terms[0].duplicate();
        let sp = [p];
        let se: [(usize, usize); 3] = [(0, 3), (1, 3), (2, 3)];
        let last3 = vstd::slice::slice_subrange(terms.as_slice(), n - 3, n);
        let ghost v0 = initial_nodes(last3@, sp@);
        proof {
            assert(se@ =~= seed_edges());
            assert forall|i: int, j: int|
                0 <= i < last3@.len() + sp@.len() && 0 <= j < last3@.len() + sp@.len() implies (
            #[trigger] (last3@ + sp@)[i]).coords_spec().len() == (#[trigger] (last3@
                + sp@)[j]).coords_spec().len() by {
                let a = if i < 3 {
                    n - 3 + i
                } else {
                    0
                };
                let b = if j < 3 {
                    n - 3 + j
                } else {
                    0
                };
                assert((last3@ + sp@)[i].coords_spec() == all[a].coords_spec());
                assert((last3@ + sp@)[j].coords_spec() == all[b].coords_spec());
            }
            lemma_initial_nodes(last3@, sp@);
            lemma_edges_added(v0, seed_edges(), 3);
            let w1 = edge_added(v0, 0, 3);
            let w2 = edge_added(w1, 1, 3);
            let w3 = edge_added(w2, 2, 3);
            assert(edges_added(v0, seed_edges(), 0) == v0);
            assert(edges_added(v0, seed_edges(), 1) == w1);
            assert(edges_added(v0, seed_edges(), 2) == w2);
            assert(edges_added(v0, seed_edges(), 3) == w3);
            assert(w3[0].ns.len() == 1);
            assert(w3[1].ns.len() == 1);
            assert(w3[2].ns.len() == 1);
            assert(w3[3].ns.len() == 3);
        }
        self.tree = SteinerTree::new(last3, sp.as_slice(), se.as_slice());
        let ghost w = self.tree@;
        self.tree.init_node(3);
        terms.truncate(n - 3);
        self.edges.push((0, 3));
        self.edges.push((1, 3));
        self.edges.push((2, 3));
        self.top.push(0);
        self.t = terms;
        proof {
            let v = self.tree@;
            assert(self.edges@ =~= seed_edges());
            assert(self.top@ =~= seq![0usize]);
            assert(self.top@.drop_last() =~= Seq::<usize>::empty());
            assert(adj_of(v) =~= adj_of(w));
            assert(frames_ok(self.edges@, self.top@.drop_last()));
            assert forall|i: int| 0 <= i < v.len() implies (#[trigger] v[i]).is_terminal
                == is_terminal_at(i) && v[i].ns.len() == if is_terminal_at(i) {
                1nat
            } else {
                3nat
            } by {
                assert(v[i].ns == w[i].ns);
                assert(w[i].is_terminal == v0[i].is_terminal);
            }
            assert forall|l: int| 0 <= l < self.t@.len() implies (#[trigger] self.t@[l]).id_spec()
                == l && self.t@[l].coords_spec().len() == v[0].coords.len() by {
                assert(self.t@[l] == all[l]);
                assert(v[0].coords == w[0].coords);
                assert(w[0].coords == v0[0].coords);
                assert(v0[0].coords == all[n - 3].coords_spec());
            }
            assert forall|i: int| 0 <= i < v.len()
                && (#[trigger] v[i]).is_terminal implies v[i].point_id
                == terminal_of_node(i, m) by {
                assert(w[i].point_id == v0[i].point_id);
                assert(v0[i].point_id == all[n - 3 + i].id_spec());
            }
            assert forall|l: int| 0 <= l < all.len() implies self.terminal_coords(l) == (
            #[trigger] all[l]).coords_spec() by {
                if l < self.t@.len() {
                    assert(self.t@[l] == all[l]);
                } else {
                    let i = l - m;
                    assert(v[i].coords == w[i].coords);
                    assert(w[i].coords == v0[i].coords);
                }
            }
        }
    }

    /// For fewer than three terminals: the terminals alone, joined where
    /// there are two.
    fn trivial(&mut self, terms: Vec<P>)
        requires
            old(self).base_ok(),
            terms@.len() == old(self).t_len,
            terms@.len() < 3,
            old(self).top@.len() == 0,
            old(self).edges@.len() == 0,
            old(self).t@.len() == 0,
            old(self).state != GPState::Running,
            same_dim(terms@),
        ensures
            final(self).base_ok(),
            final(self).small_ok(),
            final(self).t_len == old(self).t_len,
            final(self).state == old(self).state,
            final(self).data == old(self).data,
            final(self).sorter == old(self).sorter,
            final(self).history == old(self).history,
            final(self).bounds() == old(self).bounds(),
            forall|l: int|
                0 <= l < terms@.len() ==> final(self).terminal_coords(l) == (
                #[trigger] terms@[l]).coords_spec(),
    {
        let n = terms.len();
        let none: Vec<P> = Vec::new();
        let no_edges: Vec<(usize, usize)> = Vec::new();
        let ghost v0 = initial_nodes(terms@, none@);
        proof {
            assert(none@ =~= Seq::<P>::empty());
            assert(terms@ + none@ =~= terms@);
            lemma_initial_nodes(terms@, none@);
            lemma_degree_sum_none(adj_of(v0));
        }
        self.tree = SteinerTree::new(terms.as_slice(), none.as_slice(), no_edges.as_slice());
        proof {
            assert(edges_added(v0, no_edges@, 0) == v0);
            assert(self.tree@ == v0);
            assert forall|l: int| 0 <= l < n implies #[trigger] v0[l].coords
                == terms@[l].coords_spec() by {}
        }
        if n == 2 {
            proof {
                lemma_add_edge_wf(v0, 0, 1);
                lemma_edge_added_degree(v0, 0, 1);
            }
            self.tree.add_edge((0, 1));
            self.edges.push((0, 1));
            proof {
                let a = adj_of(self.tree@);
                assert(self.tree@ == edge_added(v0, 0, 1));
                assert(a[0] == v0[0].ns.push(1usize));
                assert(a[0][0] == 1);
                assert(a[1] == v0[1].ns.push(0usize));
                assert(a[1][0] == 0);
                assert(adjacent(a, 0, 1));
                assert(adjacent(a, 1, 0));
                lemma_reach_edge(a, 0, 1);
                lemma_reach_edge(a, 1, 0);
                lemma_reach_refl(a, 0);
                lemma_reach_refl(a, 1);
            }
        } else if n == 1 {
            proof {
                lemma_reach_refl(adj_of(self.tree@), 0);
            }
        }
    }

    /// One step of the search: puts the next terminal in and tests the
    /// topology. A topology that passes is counted and stays. One that is
    /// given up is undone, and the search goes back to the next edge that is
    /// left. The answer is `Some(true)` where a full topology stands,
    /// `Some(false)` where nothing is left, and `None` where the search goes
    /// on.
    pub fn advance<M: MinkowskiSpace<P>>(&mut self, geo: &M) -> (r: Option<bool>)
        requires
            old(self).base_ok(),
            old(self).grown_ok(),
            old(self).spec_t_len() > 3,
            old(self).spec_state() == GPState::Running,
            old(self).spec_waiting().len() > 0,
            old(self).spec_top().last() < old(self).spec_edges().len(),
        ensures
            final(self).base_ok(),
            final(self).grown_ok(),
            (final(self).stand(), r) == stepped::<P, M>(old(self).stand(), old(self).setting(), geo),
            final(self).spec_data().tally() == counted::<P, M>(
                old(self).stand(),
                old(self).setting(),
                geo,
                old(self).spec_data().tally(),
            ),
            final(self).setting() == old(self).setting(),
            final(self).handed() == old(self).handed(),
            final(self).spec_data().spec_nodes() == if judged::<P, M>(
                put_in::<P>(old(self).stand(), old(self).setting()),
                old(self).setting(),
                geo,
            ) == Verdict::Keep {
                capped(old(self).spec_data().spec_nodes() + 1)
            } else {
                old(self).spec_data().spec_nodes()
            },
            final(self).spec_t_len() == old(self).spec_t_len(),
            r == Some(false) ==> final(self).spec_state() == GPState::Done,
            r != Some(false) ==> final(self).spec_state() == GPState::Running,
            r == Some(true) ==> final(self).spec_waiting().len() == 0
                && final(self).spec_top().last()
                == 0,
            r is None ==> final(self).spec_waiting().len() > 0 && final(self).spec_top().last()
                < final(self).spec_edges().len(),
            final(self).steps() < old(self).steps(),
            final(self).bounds().bsd == old(self).bounds().bsd,
            final(self).bounds().ss == old(self).bounds().ss,
            final(self).bounds().e_bsd == old(self).bounds().e_bsd,
            final(self).bounds().e_ss == old(self).bounds().e_ss,
            final(self).rank() >= old(self).rank(),
            !old(self).bounds().e_bsd && !old(self).bounds().e_ss
                ==> final(self).rank() == old(self).rank() && r != Some(false),
            forall|l: int|
                0 <= l < old(self).spec_t_len()
                    ==> final(self).terminal_coords(l) == old(self).terminal_coords(l),
    {
        let ghost m = levels(self.t_len) as int;
        let edge = self.top[self.top.len() - 1];
        let (ti, si) = self.insert_on_edge(edge);
        if self.prune_check(ti, si, geo) {
            proof {
                let d = self.top@.len() - 1;
                let w = leaves(d + 1, m);
                crate::topology::lemma_steps_positive(d + 1, m);
                assert((radix(d) - 0) * w >= 1) by (nonlinear_arith)
                    requires
                        radix(d) >= 1,
                        w >= 1,
                ;
            }
            self.pop();
            if !self.backtrack() {
                return Some(false);
            }
            None
        } else {
            let ghost kept = *self;
            self.data.count_node();
            proof {
                self.lemma_setting(kept);
            }
            if self.t.len() == 0 {
                return Some(true);
            }
            proof {
                lemma_dfs_cursors(self.tree@, self.edges@, self.top@);
            }
            None
        }
    }

    /// What `next` does, but for keeping the topology that it hands out.
    fn go_on<M: MinkowskiSpace<P>>(&mut self, geo: &M) -> (r: bool)
        requires
            old(self).inv(),
        ensures
            final(self).inv(),
            final(self).spec_terminals() == old(self).spec_terminals(),
            final(self).handed() == old(self).handed(),
            !r ==> final(self).remaining() == 0,
            r ==> final(self).remaining() < old(self).remaining(),
            r ==> yields(final(self).spec_tree(), final(self).spec_terminals()),
            r ==> carries(final(self).spec_tree()@, final(self).spec_given()),
            final(self).setting() == old(self).setting(),
            old(self).spec_state() == GPState::Done ==> !r
                && final(self).stand() == old(self).stand()
                && final(self).spec_waiting() == old(self).spec_waiting(),
            old(self).spec_state() == GPState::Start && old(self).spec_t_len() <= 3 ==> r
                && final(self).stand() == old(self).stand(),
            old(self).spec_state() == GPState::Start && old(self).spec_t_len() > 3 ==> exists|
                fuel: nat,
            |
                #[trigger] searched::<P, M>(old(self).stand(), old(self).setting(), geo, fuel)
                    == Some((final(self).stand(), r)) && final(self).spec_data().tally()
                    == tallied::<P, M>(
                    old(self).stand(),
                    old(self).setting(),
                    geo,
                    old(self).spec_data().tally(),
                    fuel,
                ),
            old(self).spec_state() == GPState::Running && exhausted(
                unwound(popped(old(self).stand())),
            ) ==> !r && final(self).stand() == unwound(popped(old(self).stand())),
            old(self).spec_state() == GPState::Running && !exhausted(
                unwound(popped(old(self).stand())),
            ) ==> exists|fuel: nat|
                #[trigger] searched::<P, M>(
                    unwound(popped(old(self).stand())),
                    old(self).setting(),
                    geo,
                    fuel,
                ) == Some((final(self).stand(), r)) && final(self).spec_data().tally()
                    == tallied::<P, M>(
                    unwound(popped(old(self).stand())),
                    old(self).setting(),
                    geo,
                    old(self).spec_data().tally(),
                    fuel,
                ),
            old(self).spec_state() == GPState::Done || (old(self).spec_state() == GPState::Start
                && old(self).spec_t_len() <= 3) || (old(self).spec_state() == GPState::Running
                && exhausted(unwound(popped(old(self).stand()))))
                ==> final(self).spec_data().tally() == old(self).spec_data().tally(),
            final(self).spec_state() == if !r {
                GPState::Done
            } else if old(self).spec_t_len() <= 3 {
                GPState::Done
            } else {
                GPState::Running
            },
            r && old(self).spec_t_len() >= 3 ==> final(self).spec_waiting().len() == 0,
            old(self).spec_state() == GPState::Running && r
                ==> final(self).rank() > old(self).rank(),
            !old(self).bounds().e_bsd && !old(self).bounds().e_ss ==> (old(self).spec_state()
                == GPState::Start ==> r && (old(self).spec_t_len() >= 3
                    ==> final(self).rank() == 0))
                && (old(self).spec_state() == GPState::Running ==> (r
                    ==> final(self).rank() == old(self).rank() + 1) && (!r
                        ==> old(self).rank() + 1 == old(self).total())),
    {
        let start = now();
        let ghost m = levels(self.t_len) as int;
        let ghost c = self.setting();
        if self.state == GPState::Start {
            if self.t.len() == 0 {
                let ghost before = *self;
                self.state = GPState::Done;
                self.data.set_time(since(&start));
                proof {
                    if self.t_len >= 3 {
                        lemma_dfs_tree(self.tree@, self.edges@, self.top@);
                        lemma_dfs_cursors(self.tree@, self.edges@, self.top@);
                        lemma_steps_left(self.top@, m);
                        assert(self.top@.drop_last() =~= Seq::<usize>::empty());
                        assert(passed(self.top@, m) == 0 * leaves(1, m));
                    }
                    self.lemma_setting(before);
                    self.lemma_carries();
                }
                return true;
            }
            let ghost before = *self;
            self.state = GPState::Running;
            proof {
                assert(self.top@.drop_last() =~= Seq::<usize>::empty());
                assert(passed(self.top@, m) == 0 * leaves(1, m));
                self.lemma_setting(before);
            }
        } else {
            if self.state == GPState::Done {
                let ghost before = *self;
                self.data.set_time(since(&start));
                proof {
                    self.lemma_setting(before);
                }
                return false;
            }
            if !self.backtrack() {
                let ghost before = *self;
                self.data.set_time(since(&start));
                proof {
                    self.lemma_setting(before);
                }
                return false;
            }
        }
        let ghost first = self.rank();
        let ghost begin = self.stand();
        let ghost mut used: nat = 0;
        loop
            invariant
                self.base_ok(),
                self.grown_ok(),
                m == levels(self.t_len) as int,
                self.t_len == old(self).t_len,
                self.t_len > 3,
                self.history == old(self).history,
                self.state == GPState::Running,
                self.t@.len() > 0,
                self.top@.last() < self.edges@.len(),
                self.steps() <= old(self).steps(),
                c == old(self).setting(),
                self.setting() == c,
                old(self).state == GPState::Start ==> begin == old(self).stand(),
                old(self).state == GPState::Running ==> begin == unwound(popped(old(self).stand()))
                    && !exhausted(begin),
                forall|f: nat|
                    searched::<P, M>(begin, c, geo, used + f) == #[trigger] searched::<P, M>(
                        self.stand(),
                        c,
                        geo,
                        f,
                    ),
                forall|f: nat|
                    tallied::<P, M>(begin, c, geo, old(self).data.tally(), used + f)
                        == #[trigger] tallied::<P, M>(self.stand(), c, geo, self.data.tally(), f),
                old(self).state == GPState::Running ==> first == old(self).rank() + 1,
                old(self).state == GPState::Start ==> first == 0,
                old(self).state != GPState::Done,
                old(self).base_ok(),
                old(self).grown_ok(),
                self.rank() >= first,
                !self.e_bsd && !self.e_ss ==> self.rank() == first,
            decreases self.steps(),
        {
            proof {
                self.lemma_steps();
            }
            let ghost here = self.stand();
            let ghost tally = self.data.tally();
            match self.advance(geo) {
                Some(b) => {
                    let ghost before = *self;
                    self.data.set_time(since(&start));
                    proof {
                        self.lemma_steps();
                        old(self).lemma_steps();
                        if b {
                            lemma_dfs_tree(self.tree@, self.edges@, self.top@);
                        }
                        self.lemma_setting(before);
                        if b {
                            self.lemma_carries();
                        }
                        assert(searched::<P, M>(here, c, geo, 1) == Some((self.stand(), b)));
                        assert(searched::<P, M>(begin, c, geo, used + 1) == Some((self.stand(), b)));
                        assert(tallied::<P, M>(here, c, geo, tally, 1) == self.data.tally());
                        assert(tallied::<P, M>(begin, c, geo, old(self).data.tally(), used + 1)
                            == self.data.tally());
                    }
                    return b;
                },
                None => {
                    proof {
                        self.lemma_steps();
                        assert forall|f: nat|
                            searched::<P, M>(begin, c, geo, (used + 1) + f) == #[trigger] searched::<
                                P,
                                M,
                            >(self.stand(), c, geo, f) by {
                            lemma_searched_step::<P, M>(here, c, geo, f);
                            assert(searched::<P, M>(begin, c, geo, used + (f + 1)) == searched::<
                                P,
                                M,
                            >(here, c, geo, (f + 1) as nat));
                        }
                        assert forall|f: nat|
                            tallied::<P, M>(begin, c, geo, old(self).data.tally(), (used + 1) + f)
                                == #[trigger] tallied::<P, M>(
                                self.stand(),
                                c,
                                geo,
                                self.data.tally(),
                                f,
                            ) by {
                            lemma_searched_step::<P, M>(here, c, geo, f);
                            assert(tallied::<P, M>(begin, c, geo, old(self).data.tally(), used + (f + 1))
                                == tallied::<P, M>(here, c, geo, tally, (f + 1) as nat));
                        }
                        used = used + 1;
                    }
                },
            }
        }
    }

    /// What was handed out has no part in where the enumeration stands.
    proof fn lemma_history(self, that: Self)
        requires
            self.tree == that.tree,
            self.edges == that.edges,
            self.top == that.top,
            self.t == that.t,
            self.bsd == that.bsd,
            self.ss == that.ss,
            self.t_len == that.t_len,
            self.sorter == that.sorter,
            self.e_bsd == that.e_bsd,
            self.e_ss == that.e_ss,
            self.state == that.state,
            self.data == that.data,
        ensures
            that.inv() == self.inv(),
            that.spec_terminals() == self.spec_terminals(),
            that.remaining() == self.remaining(),
            that.spec_tree() == self.spec_tree(),
            that.spec_given() == self.spec_given(),
            that.setting() == self.setting(),
            that.stand() == self.stand(),
            that.spec_state() == self.spec_state(),
            that.spec_waiting() == self.spec_waiting(),
            that.spec_t_len() == self.spec_t_len(),
            that.rank() == self.rank(),
            that.total() == self.total(),
            that.bounds() == self.bounds(),
            that.spec_data() == self.spec_data(),
    {
        assert(that.setting().terminals =~= self.setting().terminals);
    }

    /// The setting depends on the terminals and the bounds alone.
    pub proof fn lemma_setting(self, o: Self)
        requires
            self.spec_t_len() == o.spec_t_len(),
            forall|l: int| 0 <= l < self.spec_t_len() ==> self.terminal_coords(l) == o.terminal_coords(l),
            self.bounds().bsd == o.bounds().bsd,
            self.bounds().ss == o.bounds().ss,
            self.bounds().e_bsd == o.bounds().e_bsd,
            self.bounds().e_ss == o.bounds().e_ss,
        ensures
            self.setting() == o.setting(),
    {
        assert(self.setting().terminals =~= o.setting().terminals);
    }

    /// The number of full topologies is that of the levels: at each level
    /// the next terminal goes to one of the edges that there are.
    pub proof fn lemma_total(self)
        ensures
            self.total() == leaves(0, levels(self.spec_t_len()) as int),
            self.spec_terminals() == self.spec_t_len(),
    {
    }

    /// What an enumerator in order holds for three terminals or more: a
    /// growing topology with the edges of the list, which level by level is
    /// the seed split at the edge before the cursor; and its rank is that of
    /// the cursors.
    pub proof fn lemma_shape(self)
        requires
            self.inv(),
            self.spec_t_len() >= 3,
        ensures
            dfs_ok(self.tree_view(), self.spec_edges(), self.spec_top()),
            self.tree_view() == self.spec_tree()@,
            self.spec_waiting().len() + self.spec_top().len() + 2 == self.spec_t_len(),
            self.rank() == passed(self.spec_top(), levels(self.spec_t_len()) as int),
            self.spec_state() != GPState::Done ==> cursors_ok(
                self.spec_top(),
                levels(self.spec_t_len()) as int,
            ),
            self.spec_state() == GPState::Running ==> leaf_cursors(
                self.spec_top(),
                levels(self.spec_t_len()) as int,
            ),
    {
        lemma_dfs_cursors(self.tree@, self.edges@, self.top@);
        crate::topology::lemma_frames_edges(self.edges@, self.top@.drop_last());
        assert forall|l: int| 0 <= l < self.top@.len() - 1 implies 1 <= #[trigger] self.top@[l]
            <= radix(l) by {
            assert(self.top@.drop_last()[l] == self.top@[l]);
        }
    }

    /// In the middle of the search no step count is negative.
    pub proof fn lemma_steps(self)
        requires
            self.base_ok(),
            self.grown_ok(),
        ensures
            self.steps() >= 1,
            self.spec_top().len() >= 1,
    {
        lemma_dfs_cursors(self.tree@, self.edges@, self.top@);
        lemma_steps_left(self.top@, levels(self.t_len) as int);
    }

    /// Moving Steiner points leaves the enumeration in order, and where it
    /// was.
    pub proof fn lemma_moved(self, that: Self)
        requires
            self.inv(),
            relaxed(self.spec_tree(), that.spec_tree()),
            that.same_but_tree(self),
        ensures
            that.inv(),
            that.remaining() == self.remaining(),
            that.rank() == self.rank(),
            that.bounds() == self.bounds(),
            forall|l: int|
                0 <= l < self.spec_t_len() ==> that.terminal_coords(l) == self.terminal_coords(l),
            that.setting() == self.setting(),
    {
        let w = that.tree;
        lemma_relaxed_wf(self.tree, w);
        let v0 = self.tree@;
        let v1 = w@;
        let m = levels(self.t_len) as int;
        if self.t_len >= 3 {
            assert(kinds_ok(v1)) by {
                assert forall|i: int| 0 <= i < v1.len() implies (#[trigger] v1[i]).is_terminal
                    == is_terminal_at(i) && v1[i].ns.len() == if is_terminal_at(i) {
                    1nat
                } else {
                    3nat
                } by {
                    assert(v0[i].is_terminal == is_terminal_at(i));
                }
            }
            assert forall|l: int| 0 <= l < that.t@.len() implies (#[trigger] that.t@[l]).id_spec()
                == l && that.t@[l].coords_spec().len() == v1[0].coords.len() by {
                assert(self.t@[l].coords_spec().len() == v0[0].coords.len());
            }
            assert forall|i: int| 0 <= i < v1.len()
                && (#[trigger] v1[i]).is_terminal implies v1[i].point_id
                == terminal_of_node(i, m) by {
                assert(v0[i].is_terminal);
            }
            assert forall|l: int| 0 <= l < self.t_len implies that.terminal_coords(l)
                == self.terminal_coords(l) by {
                if l >= self.t@.len() {
                    let i = node_of_terminal(l, m);
                    assert(0 <= i < v0.len());
                    assert(v0[i].is_terminal == is_terminal_at(i));
                    assert(v1[i].coords == v0[i].coords);
                }
            }
        } else {
            lemma_moved_small(v0, v1);
            assert forall|l: int| 0 <= l < self.t_len implies that.terminal_coords(l)
                == self.terminal_coords(l) by {
                assert(v0[l].is_terminal) by {
                    lemma_all_terminals(v0, l);
                }
                assert(v1[l].coords == v0[l].coords);
            }
        }
        that.lemma_setting(self);
    }

    /// In the middle of the search the tree is a growing topology with the
    /// edges of the list, and every terminal is in the tree or waits.
    pub proof fn lemma_grown(self)
        requires
            self.base_ok(),
            self.grown_ok(),
        ensures
            dfs_ok(self.tree_view(), self.spec_edges(), self.spec_top()),
            self.spec_waiting().len() + self.spec_top().len() + 2 == self.spec_t_len(),
            self.spec_t_len() >= 3,
            forall|l: int|
                0 <= l < self.spec_waiting().len() ==> (#[trigger] self.spec_waiting()[l]).id_spec()
                    == l,
            forall|i: int|
                0 <= i < self.tree_view().len() && (#[trigger] self.tree_view()[i]).is_terminal
                    ==> self.tree_view()[i].point_id == terminal_of_node(
                    i,
                    levels(self.spec_t_len()) as int,
                ),
    {
    }

    /// The terminals of a topology that is handed out lie where the
    /// terminals lie that the enumeration works on: the terminal `l` at the
    /// node that `node_of_terminal` names.
    pub proof fn lemma_carries(self)
        requires
            self.inv(),
            self.spec_t_len() < 3 || self.spec_waiting().len() == 0,
        ensures
            carries(self.tree_view(), self.setting().terminals),
            forall|i: int|
                0 <= i < self.tree_view().len() && (#[trigger] self.tree_view()[i]).is_terminal
                    ==> self.tree_view()[i].coords == self.setting().terminals[if self.spec_t_len()
                    >= 3 {
                    terminal_of_node(i, levels(self.spec_t_len()) as int)
                } else {
                    i
                }],
    {
        let v = self.tree@;
        let m = levels(self.t_len) as int;
        let given = self.setting().terminals;
        if self.t_len >= 3 {
            let src = Seq::new(v.len(), |i: int| terminal_of_node(i, m));
            assert forall|i: int| 0 <= i < v.len() && (#[trigger] v[i]).is_terminal implies 0
                <= src[i] < given.len() && v[i].coords == given[src[i]] by {
                assert(v[i].is_terminal == is_terminal_at(i));
                let l = terminal_of_node(i, m);
                assert(node_of_terminal(l, m) == i);
                assert(given[l] == self.terminal_coords(l));
            }
            assert forall|i: int, j: int|
                0 <= i < j < v.len() && (#[trigger] v[i]).is_terminal && (
                #[trigger] v[j]).is_terminal implies src[i] != src[j] by {
                assert(v[i].is_terminal == is_terminal_at(i));
                assert(v[j].is_terminal == is_terminal_at(j));
            }
            assert(carried(v, given, src));
        } else {
            let src = Seq::new(v.len(), |i: int| i);
            assert forall|i: int| 0 <= i < v.len() && (#[trigger] v[i]).is_terminal implies 0
                <= src[i] < given.len() && v[i].coords == given[src[i]] by {
                assert(given[i] == self.terminal_coords(i));
            }
            assert(carried(v, given, src));
        }
    }
}

impl<P: Point, S: TerminalSorter> Enumerator<P> for GPEnumeration<P, S> {
    type D = GPEnumerationData;

    closed spec fn inv(&self) -> bool {
        self.base_ok() && self.search_ok()
    }

    closed spec fn spec_tree(&self) -> SteinerTree<P> {
        self.tree
    }

    closed spec fn spec_terminals(&self) -> nat {
        self.t_len as nat
    }

    /// The terminals of the setting.
    open spec fn spec_given(&self) -> Seq<Seq<P::R>> {
        self.setting().terminals
    }

    open spec fn handed_out(&self) -> Seq<SteinerTree<P>> {
        self.handed()
    }

    closed spec fn remaining(&self) -> nat {
        if self.state == GPState::Done {
            0
        } else if self.t_len < 3 {
            1
        } else if self.state == GPState::Start {
            (self.steps() + 2) as nat
        } else {
            (self.steps() + 1) as nat
        }
    }

    /// Sorts the terminals, gives each its place as its identity, works the
    /// bounds out and builds the seed.
    fn init<M: MinkowskiSpace<P>>(&mut self, terms: Vec<P>, geo: &M)
        ensures
            final(self).spec_state() == GPState::Start,
            final(self).spec_data().is_clear(terms@.len() as usize),
            final(self).set_up_for(old(self).spec_sorter().order(), terms@, geo),
            final(self).spec_sorter().order() == old(self).spec_sorter().order(),
            final(self).spec_t_len() == terms@.len(),
            terms@.len() >= 3 ==> final(self).spec_top() == seq![0usize]
                && final(self).spec_edges() == seed_edges()
                && final(self).spec_waiting().len() == terms@.len() - 3,
            forall|l: int|
                0 <= l < final(self).spec_waiting().len() ==> (
                #[trigger] final(self).spec_waiting()[l]).id_spec() == l,
            final(self).bounds().e_bsd == old(self).bounds().e_bsd,
            final(self).bounds().e_ss == old(self).bounds().e_ss,
    {
        let mut terms = terms;
        let n = terms.len();
        let ghost given = terms@;
        self.history = Ghost(Seq::empty());
        self.data.clear(n);
        let start = now();
        self.sorter.sort(&mut terms, geo);
        let sort_time = since(&start);
        let ghost arranged = terms@;
        self.top.clear();
        self.t.clear();
        self.edges.clear();
        self.t_len = n;
        self.state = GPState::Start;
        self.tree = SteinerTree::empty();
        proof {
            lemma_rearranged_dim(given, arranged);
        }
        let mut i: usize = 0;
        while i < n
            invariant
                i <= n,
                n == terms@.len(),
                n == arranged.len(),
                forall|l: int|
                    0 <= l < n ==> (#[trigger] terms@[l]).coords_spec()
                        == arranged[l].coords_spec(),
                forall|l: int| 0 <= l < i ==> (#[trigger] terms@[l]).id_spec() == l,
            decreases n - i,
        {
            terms[i].set_id(i);
            i += 1;
        }
        let ghost sorted = terms@;
        proof {
            assert forall|a: int, b: int| 0 <= a < sorted.len() && 0 <= b < sorted.len() implies (
            #[trigger] sorted[a]).coords_spec().len()
                == (#[trigger] sorted[b]).coords_spec().len() by {
                assert(sorted[a].coords_spec() == arranged[a].coords_spec());
                assert(sorted[b].coords_spec() == arranged[b].coords_spec());
            }
        }
        let mut bsd_time = no_time();
        if self.e_bsd || self.e_ss {
            let s = now();
            self.calc_bsd(terms.as_slice(), geo);
            bsd_time = since(&s);
        }
        let mut ss_time = no_time();
        if self.e_ss {
            let s = now();
            self.calc_ss(terms.as_slice(), geo);
            ss_time = since(&s);
        }
        proof {
            lemma_count_terminals_bound(self.tree@);
        }
        if n < 3 {
            self.trivial(terms);
        } else {
            self.seed(terms);
        }
        self.data.set_init_times(sort_time, bsd_time, ss_time, since(&start));
        proof {
            reveal(rearranged);
            let pi = choose|pi: Seq<int>| #[trigger]
                is_permutation(pi, given.len()) && arranged.len() == given.len() && forall|i: int|
                    0 <= i < arranged.len() ==> #[trigger] arranged[i] == given[pi[i]];
            assert forall|l: int| 0 <= l < sorted.len() implies (#[trigger] sorted[l]).coords_spec()
                == given[pi[l]].coords_spec() && sorted[l].id_spec() == l by {
                assert(arranged[l] == given[pi[l]]);
            }
            assert(sorted_as(sorted, pi, given) && (old(self).spec_sorter().order()
                != Order::Unnamed ==> placed(
                sorted,
                in_order::<P, M>(old(self).spec_sorter().order(), given, geo),
            )) && self.works_on(sorted, geo));
            assert(rearranged(coords_of(given), self.setting().terminals)) by {
                reveal(rearranged);
                assert(is_permutation(pi, coords_of(given).len()));
                assert forall|l: int| 0 <= l < self.setting().terminals.len() implies (
                #[trigger] self.setting().terminals[l]) == coords_of(given)[pi[l]] by {
                    assert(self.terminal_coords(l) == sorted[l].coords_spec());
                }
            }
        }
    }

    /// Goes on, depth first, to the next full topology that the tests let
    /// pass: from where the search stands after the topology handed out last
    /// was undone, step by step until a full topology stands or nothing is
    /// left. With both tests off the full topologies come in the order of
    /// their rank, none left out.
    fn next<M: MinkowskiSpace<P>>(&mut self, geo: &M) -> (r: bool)
        ensures
            final(self).setting() == old(self).setting(),
            old(self).spec_state() == GPState::Done ==> !r
                && final(self).stand() == old(self).stand()
                && final(self).spec_waiting() == old(self).spec_waiting(),
            old(self).spec_state() == GPState::Start && old(self).spec_t_len() <= 3 ==> r
                && final(self).stand() == old(self).stand(),
            old(self).spec_state() == GPState::Start && old(self).spec_t_len() > 3 ==> exists|
                fuel: nat,
            |
                #[trigger] searched::<P, M>(old(self).stand(), old(self).setting(), geo, fuel)
                    == Some((final(self).stand(), r)) && final(self).spec_data().tally()
                    == tallied::<P, M>(
                    old(self).stand(),
                    old(self).setting(),
                    geo,
                    old(self).spec_data().tally(),
                    fuel,
                ),
            old(self).spec_state() == GPState::Running && exhausted(
                unwound(popped(old(self).stand())),
            ) ==> !r && final(self).stand() == unwound(popped(old(self).stand())),
            old(self).spec_state() == GPState::Running && !exhausted(
                unwound(popped(old(self).stand())),
            ) ==> exists|fuel: nat|
                #[trigger] searched::<P, M>(
                    unwound(popped(old(self).stand())),
                    old(self).setting(),
                    geo,
                    fuel,
                ) == Some((final(self).stand(), r)) && final(self).spec_data().tally()
                    == tallied::<P, M>(
                    unwound(popped(old(self).stand())),
                    old(self).setting(),
                    geo,
                    old(self).spec_data().tally(),
                    fuel,
                ),
            old(self).spec_state() == GPState::Done || (old(self).spec_state() == GPState::Start
                && old(self).spec_t_len() <= 3) || (old(self).spec_state() == GPState::Running
                && exhausted(unwound(popped(old(self).stand()))))
                ==> final(self).spec_data().tally() == old(self).spec_data().tally(),
            final(self).spec_state() == if !r {
                GPState::Done
            } else if old(self).spec_t_len() <= 3 {
                GPState::Done
            } else {
                GPState::Running
            },
            r && old(self).spec_t_len() >= 3 ==> final(self).spec_waiting().len() == 0,
            old(self).spec_state() == GPState::Running && r
                ==> final(self).rank() > old(self).rank(),
            !old(self).bounds().e_bsd && !old(self).bounds().e_ss ==> (old(self).spec_state()
                == GPState::Start ==> r && (old(self).spec_t_len() >= 3
                    ==> final(self).rank() == 0))
                && (old(self).spec_state() == GPState::Running ==> (r
                    ==> final(self).rank() == old(self).rank() + 1) && (!r
                        ==> old(self).rank() + 1 == old(self).total())),
    {
        let r = self.go_on(geo);
        let ghost before = *self;
        if r {
            self.history = Ghost(self.history@.push(self.tree));
        }
        proof {
            before.lemma_history(*self);
        }
        r
    }

    fn tree(&self) -> (t: &SteinerTree<P>) {
        &self.tree
    }

    fn tree_mut(&mut self) -> (t: &mut SteinerTree<P>) {
        proof {
            let this = *self;
            assert forall|that: Self|
                this.inv() && relaxed(this.tree, that.tree) && that.same_but_tree(
                    this,
                ) implies #[trigger] that.inv() && that.remaining() == this.remaining()
                && that.spec_given() == this.spec_given() by {
                this.lemma_moved(that);
            }
        }
        &mut self.tree
    }

    fn data(&self) -> (d: &GPEnumerationData)
        ensures
            *d == self.spec_data(),
    {
        &self.data
    }
}

/// Where all nodes are terminals, each is one.
pub proof fn lemma_all_terminals<R>(v: Seq<NodeView<R>>, i: int)
    requires
        count_terminals(v) == v.len(),
        0 <= i < v.len(),
    ensures
        v[i].is_terminal,
    decreases v.len(),
{
    lemma_count_terminals_bound(v.drop_last());
    if i < v.len() - 1 {
        lemma_all_terminals(v.drop_last(), i);
    }
}

/// Moving Steiner points keeps a tree a tree.
pub proof fn lemma_moved_small<R>(v0: Seq<NodeView<R>>, v1: Seq<NodeView<R>>)
    requires
        moved(v0, v1),
    ensures
        adj_of(v1) == adj_of(v0),
{
    assert(adj_of(v1) =~= adj_of(v0));
}

} // verus!
