//! The geometric median in a hyper-ellipsoid space: the point and its
//! neighbours are scaled so that the unit ball becomes a sphere, a Euclidean
//! method finds the median, and the median is scaled back.

use crate::clock::{minus, no_time, now, plus, since, span_nanos};
use crate::geo_median::{can_place, lemma_neighbour, GeoMedian, GeoMedianData};
use crate::hyper_ellipsoid::HyperEllipsoid;
use crate::point::Point;
use crate::scalar::Real;
use crate::space::EuclideanSpace;
use crate::steiner_tree::{
    edge_added, edge_list_ok, edges_added, initial_nodes, lemma_node_moved, same_edge, NodeView,
    SteinerTree,
};
use crate::uteshev::Uteshev;
use std::marker::PhantomData;
use std::time::Duration;
use vstd::prelude::*;

verus! {

/// What the method for ellipsoids times: all its work, and that part of it
/// that the Euclidean method did not do.
#[derive(Debug)]
pub struct GeoMedianEllipsoidData {
    time: Duration,
    selftime: Duration,
}

/// A geometric median for hyper-ellipsoid spaces, by the Euclidean method
/// `E`.
#[verifier::reject_recursive_types(P)]
pub struct GeoMedianEllipsoid<P: Point, E: GeoMedian<P, EuclideanSpace>> {
    eucl_median: E,
    data: GeoMedianEllipsoidData,
    _m: PhantomData<P>,
}

/// The coordinates `c_k / a_k`, as far as there are `a_k`.
pub open spec fn scaled<R: Real>(c: Seq<R>, a: Seq<R>) -> Seq<R> {
    Seq::new(
        c.len(),
        |k: int|
            if k < a.len() {
                c[k].div_spec(a[k])
            } else {
                c[k]
            },
    )
}

/// The coordinates `c_k a_k`, as far as there are `a_k`.
pub open spec fn unscaled<R: Real>(c: Seq<R>, a: Seq<R>) -> Seq<R> {
    Seq::new(
        c.len(),
        |k: int|
            if k < a.len() {
                c[k].mul_spec(a[k])
            } else {
                c[k]
            },
    )
}

/// The edges of the star with `d` rays: each of the nodes before `d` is
/// joined to `d`.
pub open spec fn star_edges(d: usize) -> Seq<(usize, usize)> {
    Seq::new(d as nat, |k: int| (k as usize, d))
}

/// The star of `node` in `v`, scaled by `a`: the neighbours of `node`, in
/// their order, as terminals, each where it lies scaled, round a Steiner
/// point where `node` lies scaled.
pub open spec fn star_of<R: Real>(v: Seq<NodeView<R>>, node: usize, a: Seq<R>) -> Seq<
    NodeView<R>,
> {
    let d = v[node as int].ns.len();
    Seq::new(
        d + 1,
        |k: int|
            if k < d {
                NodeView {
                    coords: scaled(v[v[node as int].ns[k] as int].coords, a),
                    point_id: v[v[node as int].ns[k] as int].point_id,
                    ns: seq![d as usize],
                    is_terminal: true,
                    id: k as usize,
                }
            } else {
                NodeView {
                    coords: scaled(v[node as int].coords, a),
                    point_id: v[node as int].point_id,
                    ns: Seq::new(d, |j: int| j as usize),
                    is_terminal: false,
                    id: d as usize,
                }
            },
    )
}

impl GeoMedianEllipsoidData {
    /// The time spent so far.
    pub closed spec fn spec_time(&self) -> Duration {
        self.time
    }

    /// The time spent outside the Euclidean method.
    pub closed spec fn spec_selftime(&self) -> Duration {
        self.selftime
    }

    /// No time spent yet.
    pub fn new() -> (d: Self)
        ensures
            span_nanos(d.spec_time()) == 0,
            span_nanos(d.spec_selftime()) == 0,
    {
        GeoMedianEllipsoidData { time: no_time(), selftime: no_time() }
    }

    /// The time spent outside the Euclidean method.
    pub fn selftime(&self) -> (t: &Duration)
        ensures
            *t == self.spec_selftime(),
    {
        &self.selftime
    }
}

impl Clone for GeoMedianEllipsoidData {
    fn clone(&self) -> (r: Self) {
        GeoMedianEllipsoidData { time: self.time, selftime: self.selftime }
    }
}

impl GeoMedianData for GeoMedianEllipsoidData {
    fn time(&self) -> (t: &Duration)
        ensures
            *t == self.spec_time(),
    {
        &self.time
    }
}

impl<P: Point, E: GeoMedian<P, EuclideanSpace>> GeoMedianEllipsoid<P, E> {
    /// The Euclidean method.
    pub closed spec fn spec_median(&self) -> E {
        self.eucl_median
    }

    /// The figures.
    pub closed spec fn spec_data(&self) -> GeoMedianEllipsoidData {
        self.data
    }

    /// The method that works by `eucl_median`.
    pub fn new(eucl_median: E) -> (g: Self)
        ensures
            g.spec_median() == eucl_median,
    {
        GeoMedianEllipsoid { eucl_median, data: GeoMedianEllipsoidData::new(), _m: PhantomData }
    }

    /// The Euclidean method.
    pub fn geo_median_alg(&mut self) -> (e: &mut E)
        ensures
            *e == old(self).spec_median(),
            final(self).spec_median() == *final(e),
    {
        &mut self.eucl_median
    }
}

impl<P: Point> Default for GeoMedianEllipsoid<P, Uteshev> {
    fn default() -> (g: Self) {
        GeoMedianEllipsoid::new(Uteshev::default())
    }
}

impl<P: Point, S: HyperEllipsoid<P>, E: GeoMedian<P, EuclideanSpace>> GeoMedian<P, S> for GeoMedianEllipsoid<
    P,
    E,
> {
    type D = GeoMedianEllipsoidData;

    /// Where the Euclidean method puts the centre of the scaled star, scaled
    /// back.
    open spec fn find_law(&self) -> spec_fn(Seq<NodeView<P::R>>, usize, S) -> Seq<P::R> {
        |v: Seq<NodeView<P::R>>, node: usize, geo: S|
            unscaled(
                (self.spec_median().find_law())(
                    star_of(v, node, geo.comps_spec()),
                    v[node as int].ns.len() as usize,
                    EuclideanSpace,
                ),
                geo.comps_spec(),
            )
    }

    /// Where the Euclidean method puts the node, in Euclidean space.
    open spec fn init_law(&self) -> spec_fn(Seq<NodeView<P::R>>, usize, S) -> Seq<P::R> {
        |v: Seq<NodeView<P::R>>, node: usize, geo: S|
            (self.spec_median().init_law())(v, node, EuclideanSpace)
    }

    /// The method is worn out when the Euclidean method is.
    open spec fn worn_out(&self) -> bool {
        self.spec_median().worn_out()
    }

    /// Lets the Euclidean method make the point ready, in Euclidean space.
    fn init(&mut self, tree: &mut SteinerTree<P>, node: usize, geo: &S) {
        self.eucl_median.init(tree, node, &EuclideanSpace);
    }

    /// Hands the scaled star of `node` to the Euclidean method and moves
    /// `node` to where that puts the centre, scaled back.
    fn find(&mut self, tree: &mut SteinerTree<P>, node: usize, geo: &S) {
        let start = now();
        let a = geo.comps();
        let d = tree.i(node).degree();
        let mut star = scaled_star(tree, node, a);
        let ghost before = star@;
        self.eucl_median.find(&mut star, d, &EuclideanSpace);
        let mut p = star.i(d).p().duplicate();
        scale_up(&mut p, a);
        proof {
            assert(star@[d as int].coords.len() == before[d as int].coords.len());
        }
        tree.move_node(node, &p);
        proof {
            lemma_node_moved(old(tree)@, node, p.coords_spec());
        }
        self.data.time = plus(self.data.time, since(&start));
        self.data.selftime = minus(self.data.time, *self.eucl_median.data().time());
    }

    /// The figures, as `data` hands them out.
    open spec fn figures(&self) -> GeoMedianEllipsoidData {
        self.spec_data()
    }

    fn data(&self) -> (d: &GeoMedianEllipsoidData) {
        &self.data
    }
}

/// Divides the coordinates of `p` by the `a_k`.
pub fn scale_down<P: Point>(p: &mut P, a: &[P::R])
    ensures
        final(p).coords_spec() == scaled(old(p).coords_spec(), a@),
        final(p).id_spec() == old(p).id_spec(),
{
    let n = if a.len() < p.dim() {
        a.len()
    } else {
        p.dim()
    };
    let mut k: usize = 0;
    while k < n
        invariant
            k <= n,
            n <= a@.len(),
            n <= p.coords_spec().len(),
            n == a@.len() || n == p.coords_spec().len(),
            p.coords_spec().len() == old(p).coords_spec().len(),
            p.id_spec() == old(p).id_spec(),
            forall|j: int|
                0 <= j < k ==> #[trigger] p.coords_spec()[j] == old(p).coords_spec()[j].div_spec(
                    a@[j],
                ),
            forall|j: int|
                k <= j < p.coords_spec().len()
                    ==> #[trigger] p.coords_spec()[j] == old(p).coords_spec()[j],
        decreases n - k,
    {
        let c = p.coord(k).div(a[k]);
        p.set_coord(k, c);
        k += 1;
    }
    proof {
        assert(p.coords_spec() =~= scaled(old(p).coords_spec(), a@));
    }
}

/// Multiplies the coordinates of `p` by the `a_k`.
pub fn scale_up<P: Point>(p: &mut P, a: &[P::R])
    ensures
        final(p).coords_spec() == unscaled(old(p).coords_spec(), a@),
        final(p).id_spec() == old(p).id_spec(),
{
    let n = if a.len() < p.dim() {
        a.len()
    } else {
        p.dim()
    };
    let mut k: usize = 0;
    while k < n
        invariant
            k <= n,
            n <= a@.len(),
            n <= p.coords_spec().len(),
            n == a@.len() || n == p.coords_spec().len(),
            p.coords_spec().len() == old(p).coords_spec().len(),
            p.id_spec() == old(p).id_spec(),
            forall|j: int|
                0 <= j < k ==> #[trigger] p.coords_spec()[j] == old(p).coords_spec()[j].mul_spec(
                    a@[j],
                ),
            forall|j: int|
                k <= j < p.coords_spec().len()
                    ==> #[trigger] p.coords_spec()[j] == old(p).coords_spec()[j],
        decreases n - k,
    {
        let c = p.coord(k).mul(a[k]);
        p.set_coord(k, c);
        k += 1;
    }
    proof {
        assert(p.coords_spec() =~= unscaled(old(p).coords_spec(), a@));
    }
}

/// The star of `node`, scaled by `a`.
pub fn scaled_star<P: Point>(tree: &SteinerTree<P>, node: usize, a: &[P::R]) -> (st: SteinerTree<P>)
    requires
        can_place(*tree, node),
    ensures
        st.wf(),
        st@ == star_of(tree@, node, a@),
        can_place(st, tree@[node as int].ns.len() as usize),
{
    let me = tree.i(node);
    let d = me.degree();
    let ghost v = tree@;
    let mut rays: Vec<P> = Vec::new();
    let mut edges: Vec<(usize, usize)> = Vec::new();
    let mut k: usize = 0;
    while k < d
        invariant
            k <= d,
            can_place(*tree, node),
            v == tree@,
            me@ == v[node as int],
            d == v[node as int].ns.len(),
            rays@.len() == k,
            edges@.len() == k,
            forall|j: int| 0 <= j < k ==> #[trigger] edges@[j] == (j as usize, d),
            forall|j: int|
                0 <= j < k ==> (#[trigger] rays@[j]).coords_spec() == scaled(
                    v[v[node as int].ns[j] as int].coords,
                    a@,
                ) && rays@[j].id_spec() == v[v[node as int].ns[j] as int].point_id,
        decreases d - k,
    {
        proof {
            lemma_neighbour(*tree, node, k as int);
        }
        let mut q = tree.i(me.neighbour(k)).p().duplicate();
        scale_down(&mut q, a);
        rays.push(q);
        edges.push((k, d));
        k += 1;
    }
    let mut centre = me.p().duplicate();
    scale_down(&mut centre, a);
    let c = [centre];
    proof {
        assert(edges@ =~= star_edges(d));
        assert forall|i: int, j: int|
            0 <= i < rays@.len() + c@.len() && 0 <= j < rays@.len() + c@.len() implies (
        #[trigger] (rays@ + c@)[i]).coords_spec().len() == (#[trigger] (rays@
            + c@)[j]).coords_spec().len() by {
            if i < d {
                lemma_neighbour(*tree, node, i);
            }
            if j < d {
                lemma_neighbour(*tree, node, j);
            }
        }
        assert(edge_list_ok(edges@, rays@.len() + c@.len())) by {
            assert forall|i: int, j: int| 0 <= i < j < edges@.len() implies !same_edge(
                #[trigger] edges@[i],
                #[trigger] edges@[j],
            ) by {}
        }
        let v0 = initial_nodes(rays@, c@);
        lemma_star(v0, d, d as int);
        assert(edges_added(v0, edges@, d as int) =~= star_of(v, node, a@));
    }
    SteinerTree::new(rays.as_slice(), c.as_slice(), edges.as_slice())
}

/// What a star looks like once the first `k` edges are in: the centre lists
/// the nodes before `k`, in order, and each of these lists the centre.
pub proof fn lemma_star<R>(v: Seq<NodeView<R>>, d: usize, k: int)
    requires
        v.len() == d + 1,
        0 <= k <= d,
        forall|i: int| 0 <= i < v.len() ==> (#[trigger] v[i]).ns.len() == 0,
    ensures
        edges_added(v, star_edges(d), k).len() == v.len(),
        forall|i: int|
            0 <= i < v.len() ==> #[trigger] edges_added(v, star_edges(d), k)[i] == (NodeView {
                ns: if i == d {
                    Seq::new(k as nat, |j: int| j as usize)
                } else if i < k {
                    seq![d]
                } else {
                    Seq::<usize>::empty()
                },
                ..v[i]
            }),
    decreases k,
{
    let now = edges_added(v, star_edges(d), k);
    if k > 0 {
        lemma_star(v, d, k - 1);
        let w = edges_added(v, star_edges(d), k - 1);
        assert(star_edges(d)[k - 1] == ((k - 1) as usize, d));
        assert(now == edge_added(w, (k - 1) as usize, d));
        assert(now[d as int].ns =~= Seq::new(k as nat, |j: int| j as usize));
        assert(now[k - 1].ns =~= seq![d]);
    } else {
        assert forall|i: int| 0 <= i < v.len() implies #[trigger] now[i] == (NodeView {
            ns: if i == d {
                Seq::new(k as nat, |j: int| j as usize)
            } else {
                Seq::<usize>::empty()
            },
            ..v[i]
        }) by {
            assert(v[i].ns =~= Seq::<usize>::empty());
            assert(v[i].ns =~= Seq::new(0nat, |j: int| j as usize));
        }
    }
}

} // verus!
