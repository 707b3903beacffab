//! Weiszfeld's iteration for the geometric median in Euclidean space.

use crate::geo_median::{
    all_numbers, bumped, can_place, lemma_neighbour, move_off_neighbours, off_neighbours,
    GeoMedianStep, GeoMedianStepFixedPointData,
};
use crate::point::{seq_all_numbers, seq_div, seq_mul, Point};
use crate::scalar::Real;
use crate::space::{dist_spec, EuclideanSpace, MinkowskiSpace};
use crate::steiner_tree::{node_moved, NodeView, SteinerTree};
use vstd::prelude::*;

verus! {

/// Weiszfeld's iteration.
#[derive(Debug)]
pub struct Weiszfeld {
    data: GeoMedianStepFixedPointData,
}

/// The distance in `geo` from neighbour `k` of `node` to `node`.
pub open spec fn reach<P: Point, M: MinkowskiSpace<P>>(
    v: Seq<NodeView<P::R>>,
    node: usize,
    geo: &M,
    k: int,
) -> P::R {
    dist_spec::<P, M>(geo, v[v[node as int].ns[k] as int].coords, v[node as int].coords)
}

/// The sum over the first `k` neighbours `t` of `t / d_t`, coordinate by
/// coordinate, from `zero` on.
pub open spec fn weighted_sum<P: Point, M: MinkowskiSpace<P>>(
    v: Seq<NodeView<P::R>>,
    node: usize,
    geo: &M,
    zero: Seq<P::R>,
    k: int,
) -> Seq<P::R>
    decreases k,
{
    if k <= 0 {
        zero
    } else {
        let prev = weighted_sum::<P, M>(v, node, geo, zero, k - 1);
        let t = v[v[node as int].ns[k - 1] as int].coords;
        let d = reach::<P, M>(v, node, geo, k - 1);
        Seq::new(prev.len(), |c: int| prev[c].add_spec(t[c].div_spec(d)))
    }
}

/// The sum over the first `k` neighbours of `1 / d_t`, from zero on.
pub open spec fn weight_sum<P: Point, M: MinkowskiSpace<P>>(
    v: Seq<NodeView<P::R>>,
    node: usize,
    geo: &M,
    k: int,
) -> P::R
    decreases k,
{
    if k <= 0 {
        P::R::zero_spec()
    } else {
        weight_sum::<P, M>(v, node, geo, k - 1).add_spec(reach::<P, M>(v, node, geo, k - 1).recip_spec())
    }
}

/// The quotient of Weiszfeld's step: `(sum of t / d_t) / (sum of 1 / d_t)`
/// over the neighbours `t` of `node`, the sum of points starting at `x0`
/// times zero.
pub open spec fn weiszfeld_quotient<P: Point, M: MinkowskiSpace<P>>(
    v: Seq<NodeView<P::R>>,
    node: usize,
    geo: &M,
    x0: Seq<P::R>,
) -> Seq<P::R> {
    let n = v[node as int].ns.len() as int;
    seq_div(
        weighted_sum::<P, M>(v, node, geo, seq_mul(x0, P::R::zero_spec()), n),
        weight_sum::<P, M>(v, node, geo, n),
    )
}

/// Where Weiszfeld's step goes: to the quotient, or nowhere where a
/// coordinate of the quotient is no number.
pub open spec fn weiszfeld_next<P: Point, M: MinkowskiSpace<P>>(
    v: Seq<NodeView<P::R>>,
    node: usize,
    geo: &M,
    x0: Seq<P::R>,
) -> Seq<P::R> {
    let q = weiszfeld_quotient::<P, M>(v, node, geo, x0);
    if seq_all_numbers(q) {
        q
    } else {
        v[node as int].coords
    }
}

impl Weiszfeld {
    /// The figures.
    pub closed spec fn spec_data(&self) -> GeoMedianStepFixedPointData {
        self.data
    }

    /// The iteration, with nothing counted yet.
    pub fn new() -> (w: Self)
        ensures
            w.spec_data().spec_fixed() == 0,
    {
        Weiszfeld { data: GeoMedianStepFixedPointData::new() }
    }
}

impl Default for Weiszfeld {
    fn default() -> (w: Self)
        ensures
            w.spec_data().spec_fixed() == 0,
    {
        Weiszfeld::new()
    }
}

impl<P: Point> GeoMedianStep<P, EuclideanSpace> for Weiszfeld {
    type D = GeoMedianStepFixedPointData;

    /// The step of `weiszfeld_next`.
    open spec fn step_law(&self) -> spec_fn(
        Seq<P::R>,
        Seq<NodeView<P::R>>,
        usize,
        usize,
        EuclideanSpace,
    ) -> Seq<P::R> {
        |x0: Seq<P::R>, v: Seq<NodeView<P::R>>, node: usize, s: usize, geo: EuclideanSpace|
            weiszfeld_next::<P, EuclideanSpace>(v, node, &geo, x0)
    }

    /// Off the neighbours.
    open spec fn init_law(&self) -> spec_fn(Seq<NodeView<P::R>>, usize, EuclideanSpace) -> Seq<
        P::R,
    > {
        |v: Seq<NodeView<P::R>>, node: usize, geo: EuclideanSpace|
            off_neighbours::<P, EuclideanSpace>(v, node, &geo)
    }

    /// A node that lies on a neighbour starts at the centroid of its
    /// neighbours.
    fn init(&mut self, tree: &mut SteinerTree<P>, node: usize, geo: &EuclideanSpace)
        ensures
            final(tree)@ == node_moved(
                old(tree)@,
                node,
                off_neighbours::<P, EuclideanSpace>(old(tree)@, node, geo),
            ),
            final(self).spec_data() == old(self).spec_data(),
    {
        move_off_neighbours(tree, node, geo);
    }

    /// Weiszfeld's step. A quotient with a coordinate that is no number is
    /// counted as a fixed point, and `x` is then where the node lies.
    fn step(
        &mut self,
        x: &mut P,
        tree: &SteinerTree<P>,
        node: usize,
        s: usize,
        geo: &EuclideanSpace,
    )
        ensures
            final(x).coords_spec() == weiszfeld_next::<P, EuclideanSpace>(
                tree@,
                node,
                geo,
                old(x).coords_spec(),
            ),
            final(self).spec_data().spec_fixed() == if seq_all_numbers(
                weiszfeld_quotient::<P, EuclideanSpace>(tree@, node, geo, old(x).coords_spec()),
            ) {
                old(self).spec_data().spec_fixed()
            } else {
                bumped(old(self).spec_data().spec_fixed())
            },
    {
        let mut div_sum = P::R::zero();
        x.mul(P::R::zero());
        let ghost zero = x.coords_spec();
        let y = tree.i(node);
        let d = y.degree();
        let mut k: usize = 0;
        while k < d
            invariant
                k <= d,
                can_place(*tree, node),
                y@ == tree@[node as int],
                d == tree@[node as int].ns.len(),
                zero.len() == tree@[node as int].coords.len(),
                x.id_spec() == old(x).id_spec(),
                x.coords_spec() == weighted_sum::<P, EuclideanSpace>(tree@, node, geo, zero, k as int),
                div_sum == weight_sum::<P, EuclideanSpace>(tree@, node, geo, k as int),
            decreases d - k,
        {
            proof {
                lemma_neighbour(*tree, node, k as int);
                lemma_weighted_sum_len::<P, EuclideanSpace>(tree@, node, geo, zero, k as int);
            }
            let n = tree.i(y.neighbour(k));
            let dist = geo.dist(n.p(), y.p());
            let ghost prev = x.coords_spec();
            x.modify(
                n.p(),
                &(|c: P::R, nc: P::R| -> (r: P::R)
                    ensures
                        r == c.add_spec(nc.div_spec(dist)),
                    { c.add(nc.div(dist)) }),
            );
            proof {
                let t = n@.coords;
                assert(x.coords_spec() =~= Seq::new(
                    prev.len(),
                    |c: int| prev[c].add_spec(t[c].div_spec(dist)),
                ));
            }
            div_sum = div_sum.add(dist.recip());
            k += 1;
        }
        x.div(div_sum);
        proof {
            lemma_weighted_sum_len::<P, EuclideanSpace>(tree@, node, geo, zero, d as int);
        }
        if !all_numbers(x) {
            self.data.count();
            x.copy(y.p());
        }
    }

    /// The figures, as `data` hands them out.
    open spec fn figures(&self) -> GeoMedianStepFixedPointData {
        self.spec_data()
    }

    fn data(&self) -> (d: &GeoMedianStepFixedPointData) {
        &self.data
    }
}

/// The weighted sums have the dimension of what they start from.
pub proof fn lemma_weighted_sum_len<P: Point, M: MinkowskiSpace<P>>(
    v: Seq<NodeView<P::R>>,
    node: usize,
    geo: &M,
    zero: Seq<P::R>,
    k: int,
)
    ensures
        weighted_sum::<P, M>(v, node, geo, zero, k).len() == zero.len(),
    decreases k,
{
    if k > 0 {
        lemma_weighted_sum_len::<P, M>(v, node, geo, zero, k - 1);
    }
}

} // verus!
