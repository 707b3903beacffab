//! Weiszfeld's iteration with Ostresh's way past the singular points.

use crate::geo_median::{
    all_numbers, bumped, can_place, lemma_neighbour, GeoMedianStep, GeoMedianStepPrecisionErrorData,
};
use crate::point::{seq_add, seq_all_numbers, seq_div, seq_mul, seq_sub, Point};
use crate::scalar::Real;
use crate::space::{unit, EuclideanSpace, MinkowskiSpace};
use crate::steiner_tree::{node_moved, NodeView, SteinerTree};
use crate::weiszfeld::reach;
use vstd::prelude::*;

verus! {

/// What Ostresh's step has gathered: the sum `g` of the unit vectors from
/// the neighbours to the node, the sum `s` of the reciprocal distances, and
/// whether a neighbour was left out because it did not give numbers.
pub struct Gathered<R> {
    pub g: Seq<R>,
    pub s: R,
    pub singular: bool,
}

/// Weiszfeld's iteration with Ostresh's modification.
#[derive(Debug)]
pub struct Ostresh {
    data: GeoMedianStepPrecisionErrorData,
}

/// What the first `k` neighbours of `node` give. A neighbour `t` at
/// distance `d` adds `(y - t) / d` to `g` and `1 / d` to `s`, unless a
/// coordinate of the former or the new `s` would be no number: then it is
/// left out, and that is noted.
pub open spec fn gathered<P: Point, M: MinkowskiSpace<P>>(
    v: Seq<NodeView<P::R>>,
    node: usize,
    geo: &M,
    zero: Seq<P::R>,
    k: int,
) -> Gathered<P::R>
    decreases k,
{
    if k <= 0 {
        Gathered { g: zero, s: P::R::zero_spec(), singular: false }
    } else {
        let prev = gathered::<P, M>(v, node, geo, zero, k - 1);
        let t = v[v[node as int].ns[k - 1] as int].coords;
        let d = reach::<P, M>(v, node, geo, k - 1);
        let gadd = seq_div(seq_sub(v[node as int].coords, t), d);
        if !seq_all_numbers(gadd) || !prev.s.add_spec(d.recip_spec()).is_number_spec() {
            Gathered { singular: true, ..prev }
        } else {
            Gathered {
                g: seq_add(prev.g, gadd),
                s: prev.s.add_spec(d.recip_spec()),
                singular: prev.singular,
            }
        }
    }
}

/// The direction that the step takes: `g`, or, where a neighbour was left
/// out, `g` cut back by one unit of length - to zero where it is no longer
/// than that.
pub open spec fn ostresh_direction<P: Point, M: MinkowskiSpace<P>>(
    geo: &M,
    w: Gathered<P::R>,
) -> Seq<P::R> {
    if w.singular {
        if geo.norm_spec(w.g).le_spec(P::R::one_spec()) {
            seq_mul(w.g, P::R::zero_spec())
        } else {
            seq_sub(w.g, seq_div(w.g, geo.norm_spec(w.g)))
        }
    } else {
        w.g
    }
}

/// Where Ostresh's step would go: from the node by `-g / s`.
pub open spec fn ostresh_target<P: Point, M: MinkowskiSpace<P>>(
    v: Seq<NodeView<P::R>>,
    node: usize,
    geo: &M,
    x0: Seq<P::R>,
) -> Seq<P::R> {
    let w = gathered::<P, M>(
        v,
        node,
        geo,
        seq_mul(x0, P::R::zero_spec()),
        v[node as int].ns.len() as int,
    );
    seq_sub(v[node as int].coords, seq_div(ostresh_direction::<P, M>(geo, w), w.s))
}

/// Where Ostresh's step goes: to its target, or nowhere where a coordinate
/// of the target is no number.
pub open spec fn ostresh_next<P: Point, M: MinkowskiSpace<P>>(
    v: Seq<NodeView<P::R>>,
    node: usize,
    geo: &M,
    x0: Seq<P::R>,
) -> Seq<P::R> {
    let x = ostresh_target::<P, M>(v, node, geo, x0);
    if seq_all_numbers(x) {
        x
    } else {
        v[node as int].coords
    }
}

impl Ostresh {
    /// The figures.
    pub closed spec fn spec_data(&self) -> GeoMedianStepPrecisionErrorData {
        self.data
    }

    /// The iteration, with nothing counted yet.
    pub fn new() -> (o: Self)
        ensures
            o.spec_data().spec_errors() == 0,
    {
        Ostresh { data: GeoMedianStepPrecisionErrorData::new() }
    }
}

impl Default for Ostresh {
    fn default() -> (o: Self)
        ensures
            o.spec_data().spec_errors() == 0,
    {
        Ostresh::new()
    }
}

impl<P: Point> GeoMedianStep<P, EuclideanSpace> for Ostresh {
    type D = GeoMedianStepPrecisionErrorData;

    /// The step of `ostresh_next`.
    open spec fn step_law(&self) -> spec_fn(
        Seq<P::R>,
        Seq<NodeView<P::R>>,
        usize,
        usize,
        EuclideanSpace,
    ) -> Seq<P::R> {
        |x0: Seq<P::R>, v: Seq<NodeView<P::R>>, node: usize, s: usize, geo: EuclideanSpace|
            ostresh_next::<P, EuclideanSpace>(v, node, &geo, x0)
    }

    /// Where the node lies.
    open spec fn init_law(&self) -> spec_fn(Seq<NodeView<P::R>>, usize, EuclideanSpace) -> Seq<
        P::R,
    > {
        |v: Seq<NodeView<P::R>>, node: usize, geo: EuclideanSpace| v[node as int].coords
    }

    /// Nothing is to be made ready.
    fn init(&mut self, tree: &mut SteinerTree<P>, node: usize, geo: &EuclideanSpace)
        ensures
            *final(tree) == *old(tree),
            final(self).spec_data() == old(self).spec_data(),
    {
        proof {
            assert(tree@ =~= node_moved(tree@, node, tree@[node as int].coords));
        }
    }

    /// Ostresh's step. A target with a coordinate that is no number is
    /// counted as a precision error, and `x` is then where the node lies.
    fn step(
        &mut self,
        x: &mut P,
        tree: &SteinerTree<P>,
        node: usize,
        s: usize,
        geo: &EuclideanSpace,
    )
        ensures
            final(x).coords_spec() == ostresh_next::<P, EuclideanSpace>(
                tree@,
                node,
                geo,
                old(x).coords_spec(),
            ),
            final(self).spec_data().spec_errors() == if seq_all_numbers(
                ostresh_target::<P, EuclideanSpace>(tree@, node, geo, old(x).coords_spec()),
            ) {
                old(self).spec_data().spec_errors()
            } else {
                bumped(old(self).spec_data().spec_errors())
            },
    {
        x.mul(P::R::zero());
        let ghost zero = x.coords_spec();
        let mut sum = P::R::zero();
        let mut g = x.duplicate();
        let mut tmp = x.duplicate();
        let mut singularity = false;
        let y = tree.i(node);
        let d = y.degree();
        let mut k: usize = 0;
        while k < d
            invariant
                k <= d,
                can_place(*tree, node),
                y@ == tree@[node as int],
                d == tree@[node as int].ns.len(),
                zero.len() == tree@[node as int].coords.len(),
                tmp.coords_spec().len() == zero.len(),
                (Gathered { g: g.coords_spec(), s: sum, singular: singularity }) == gathered::<
                    P,
                    EuclideanSpace,
                >(tree@, node, geo, zero, k as int),
            decreases d - k,
        {
            proof {
                lemma_neighbour(*tree, node, k as int);
                lemma_gathered_len::<P, EuclideanSpace>(tree@, node, geo, zero, k as int);
            }
            let n = tree.i(y.neighbour(k));
            let dist = geo.dist(n.p(), y.p());
            tmp.copy(y.p());
            tmp.sub(n.p());
            tmp.div(dist);
            if !all_numbers(&tmp) || !sum.add(dist.recip()).is_number() {
                singularity = true;
            } else {
                g.add(&tmp);
                sum = sum.add(dist.recip());
            }
            k += 1;
        }
        proof {
            lemma_gathered_len::<P, EuclideanSpace>(tree@, node, geo, zero, d as int);
        }
        if singularity {
            if geo.norm(&g).le(P::R::one()) {
                g.mul(P::R::zero());
            } else {
                tmp.copy(&g);
                unit(&mut tmp, geo);
                g.sub(&tmp);
            }
        }
        x.copy(y.p());
        g.div(sum);
        x.sub(&g);
        if !all_numbers(x) {
            self.data.count();
            x.copy(y.p());
        }
    }

    /// The figures, as `data` hands them out.
    open spec fn figures(&self) -> GeoMedianStepPrecisionErrorData {
        self.spec_data()
    }

    fn data(&self) -> (d: &GeoMedianStepPrecisionErrorData) {
        &self.data
    }
}

/// What is gathered has the dimension of what the gathering starts from.
pub proof fn lemma_gathered_len<P: Point, M: MinkowskiSpace<P>>(
    v: Seq<NodeView<P::R>>,
    node: usize,
    geo: &M,
    zero: Seq<P::R>,
    k: int,
)
    ensures
        gathered::<P, M>(v, node, geo, zero, k).g.len() == zero.len(),
    decreases k,
{
    if k > 0 {
        lemma_gathered_len::<P, M>(v, node, geo, zero, k - 1);
    }
}

} // verus!
