//! The iteration of Brimberg and Love for the geometric median under a
//! `p`-norm, `1 <= p <= 2`.

use crate::geo_median::{
    bumped_by, can_place, lemma_neighbour, move_off_neighbours, off_neighbours, GeoMedianStep,
    GeoMedianStepFixedPointData,
};
use crate::point::Point;
use crate::scalar::Real;
use crate::space::{LpSpace, MinkowskiSpace};
use crate::steiner_tree::{node_moved, NodeView, SteinerTree};
use crate::weiszfeld::reach;
use vstd::prelude::*;

verus! {

/// What the step keeps for one coordinate: the sum of `t_c a`, the sum of
/// `a`, and, once a weight `a` was no number, the mark one and the coordinate
/// of the neighbour that it belonged to.
pub struct Sums<R> {
    pub num: R,
    pub den: R,
    pub mark: R,
    pub at: R,
}

/// The iteration of Brimberg and Love.
#[derive(Debug)]
pub struct BrimbergLove {
    data: GeoMedianStepFixedPointData,
}

/// The weight of neighbour `k`: its distance to the node to the power
/// `1 - p`.
pub open spec fn far_weight<P: Point>(
    v: Seq<NodeView<P::R>>,
    node: usize,
    geo: &LpSpace<P::R>,
    k: int,
) -> P::R {
    reach::<P, LpSpace<P::R>>(v, node, geo, k).pow_spec(P::R::one_spec().sub_spec(geo.spec_p()))
}

/// The weight of neighbour `k` in coordinate `c`:
/// `|y_c - t_c|^(p - 2)` times its weight.
pub open spec fn near_weight<P: Point>(
    v: Seq<NodeView<P::R>>,
    node: usize,
    geo: &LpSpace<P::R>,
    k: int,
    c: int,
) -> P::R {
    let t = v[v[node as int].ns[k] as int].coords;
    v[node as int].coords[c].sub_spec(t[c]).abs_spec().pow_spec(
        geo.spec_p().sub_spec(P::R::from_usize_spec(2)),
    ).mul_spec(far_weight::<P>(v, node, geo, k))
}

/// The first neighbour before `k_end` whose weight is no number - the node
/// lies on it -, or `k_end` where there is none.
pub open spec fn first_fixed<P: Point>(
    v: Seq<NodeView<P::R>>,
    node: usize,
    geo: &LpSpace<P::R>,
    k_end: int,
) -> int
    decreases k_end,
{
    if k_end <= 0 {
        0
    } else {
        let f = first_fixed::<P>(v, node, geo, k_end - 1);
        if f < k_end - 1 {
            f
        } else if !far_weight::<P>(v, node, geo, k_end - 1).is_number_spec() {
            k_end - 1
        } else {
            k_end
        }
    }
}

/// What the first `k` neighbours give for coordinate `c`, everything
/// starting at `z`.
pub open spec fn sums<P: Point>(
    v: Seq<NodeView<P::R>>,
    node: usize,
    geo: &LpSpace<P::R>,
    z: P::R,
    c: int,
    k: int,
) -> Sums<P::R>
    decreases k,
{
    if k <= 0 {
        Sums { num: z, den: z, mark: z, at: z }
    } else {
        let prev = sums::<P>(v, node, geo, z, c, k - 1);
        let t = v[v[node as int].ns[k - 1] as int].coords;
        let a = near_weight::<P>(v, node, geo, k - 1, c);
        if !a.is_number_spec() {
            Sums { mark: P::R::one_spec(), at: t[c], ..prev }
        } else {
            Sums { num: prev.num.add_spec(t[c].mul_spec(a)), den: prev.den.add_spec(a), ..prev }
        }
    }
}

/// Where coordinate `c` goes: to the quotient of the sums, or, where the
/// coordinate was marked, to the coordinate kept with the mark.
pub open spec fn settled<P: Point>(w: Sums<P::R>) -> P::R {
    if w.mark.equals_spec(P::R::one_spec()) {
        w.at
    } else {
        w.num.div_spec(w.den)
    }
}

/// Where the step of Brimberg and Love goes: onto the first neighbour that
/// the node lies on, or else, coordinate by coordinate, to where the sums
/// over all neighbours say.
pub open spec fn brimberg_love_next<P: Point>(
    v: Seq<NodeView<P::R>>,
    node: usize,
    geo: &LpSpace<P::R>,
    x0: Seq<P::R>,
) -> Seq<P::R> {
    let n = v[node as int].ns.len() as int;
    let f = first_fixed::<P>(v, node, geo, n);
    if f < n {
        v[v[node as int].ns[f] as int].coords
    } else {
        Seq::new(
            x0.len(),
            |c: int| settled::<P>(sums::<P>(v, node, geo, x0[c].mul_spec(P::R::zero_spec()), c, n)),
        )
    }
}

/// The number of the first `c_end` coordinates in which the weight of
/// neighbour `k` is no number.
pub open spec fn marks<P: Point>(
    v: Seq<NodeView<P::R>>,
    node: usize,
    geo: &LpSpace<P::R>,
    k: int,
    c_end: int,
) -> int
    decreases c_end,
{
    if c_end <= 0 {
        0
    } else {
        marks::<P>(v, node, geo, k, c_end - 1) + if near_weight::<P>(
            v,
            node,
            geo,
            k,
            c_end - 1,
        ).is_number_spec() {
            0int
        } else {
            1int
        }
    }
}

/// The number of marks that the first `k_end` neighbours give.
pub open spec fn marks_upto<P: Point>(
    v: Seq<NodeView<P::R>>,
    node: usize,
    geo: &LpSpace<P::R>,
    k_end: int,
) -> int
    decreases k_end,
{
    if k_end <= 0 {
        0
    } else {
        marks_upto::<P>(v, node, geo, k_end - 1) + marks::<P>(
            v,
            node,
            geo,
            k_end - 1,
            v[node as int].coords.len() as int,
        )
    }
}

/// The number of fixed points that one step meets: the marks up to the first
/// neighbour that the node lies on, and that neighbour.
pub open spec fn brimberg_love_events<P: Point>(
    v: Seq<NodeView<P::R>>,
    node: usize,
    geo: &LpSpace<P::R>,
) -> int {
    let n = v[node as int].ns.len() as int;
    let f = first_fixed::<P>(v, node, geo, n);
    if f < n {
        marks_upto::<P>(v, node, geo, f) + 1
    } else {
        marks_upto::<P>(v, node, geo, n)
    }
}

impl BrimbergLove {
    /// The figures.
    pub closed spec fn spec_data(&self) -> GeoMedianStepFixedPointData {
        self.data
    }

    /// The iteration, with nothing counted yet.
    pub fn new() -> (b: Self)
        ensures
            b.spec_data().spec_fixed() == 0,
    {
        BrimbergLove { data: GeoMedianStepFixedPointData::new() }
    }
}

impl Default for BrimbergLove {
    fn default() -> (b: Self)
        ensures
            b.spec_data().spec_fixed() == 0,
    {
        BrimbergLove::new()
    }
}

impl<P: Point> GeoMedianStep<P, LpSpace<P::R>> for BrimbergLove {
    type D = GeoMedianStepFixedPointData;

    /// The step of `brimberg_love_next`.
    open spec fn step_law(&self) -> spec_fn(
        Seq<P::R>,
        Seq<NodeView<P::R>>,
        usize,
        usize,
        LpSpace<P::R>,
    ) -> Seq<P::R> {
        |x0: Seq<P::R>, v: Seq<NodeView<P::R>>, node: usize, s: usize, geo: LpSpace<P::R>|
            brimberg_love_next::<P>(v, node, &geo, x0)
    }

    /// Off the neighbours.
    open spec fn init_law(&self) -> spec_fn(Seq<NodeView<P::R>>, usize, LpSpace<P::R>) -> Seq<
        P::R,
    > {
        |v: Seq<NodeView<P::R>>, node: usize, geo: LpSpace<P::R>|
            off_neighbours::<P, LpSpace<P::R>>(v, node, &geo)
    }

    /// A node that lies on a neighbour starts at the centroid of its
    /// neighbours.
    fn init(&mut self, tree: &mut SteinerTree<P>, node: usize, geo: &LpSpace<P::R>)
        ensures
            final(tree)@ == node_moved(
                old(tree)@,
                node,
                off_neighbours::<P, LpSpace<P::R>>(old(tree)@, node, geo),
            ),
            final(self).spec_data() == old(self).spec_data(),
    {
        move_off_neighbours(tree, node, geo);
    }

    /// The step of Brimberg and Love. Every weight that is no number is
    /// counted as a fixed point.
    fn step(&mut self, x: &mut P, tree: &SteinerTree<P>, node: usize, s: usize, geo: &LpSpace<P::R>)
        ensures
            final(x).coords_spec()
                == brimberg_love_next::<P>(tree@, node, geo, old(x).coords_spec()),
            final(self).spec_data().spec_fixed() == bumped_by(
                old(self).spec_data().spec_fixed(),
                brimberg_love_events::<P>(tree@, node, geo),
            ),
    {
        let ghost x0 = old(x).coords_spec();
        let ghost v = tree@;
        let ghost count0 = self.data.spec_fixed();
        x.mul(P::R::zero());
        let mut div = x.duplicate();
        let mut sings = x.duplicate();
        let mut singsval = x.duplicate();
        let dim = x.dim();
        let y = tree.i(node);
        let d = y.degree();
        let p = geo.p();
        let mut k: usize = 0;
        while k < d
            invariant
                k <= d,
                can_place(*tree, node),
                v == tree@,
                x0 == old(x).coords_spec(),
                count0 == old(self).spec_data().spec_fixed(),
                y@ == tree@[node as int],
                d == v[node as int].ns.len(),
                dim == v[node as int].coords.len(),
                dim == x0.len(),
                p == geo.spec_p(),
                x.id_spec() == old(x).id_spec(),
                x.coords_spec().len() == dim,
                div.coords_spec().len() == dim,
                sings.coords_spec().len() == dim,
                singsval.coords_spec().len() == dim,
                first_fixed::<P>(v, node, geo, k as int) == k,
                self.data.spec_fixed()
                    == bumped_by(count0, marks_upto::<P>(v, node, geo, k as int)),
                forall|c: int|
                    0 <= c < dim ==> (Sums {
                        num: #[trigger] x.coords_spec()[c],
                        den: div.coords_spec()[c],
                        mark: sings.coords_spec()[c],
                        at: singsval.coords_spec()[c],
                    }) == sums::<P>(v, node, geo, x0[c].mul_spec(P::R::zero_spec()), c, k as int),
            decreases d - k,
        {
            proof {
                lemma_neighbour(*tree, node, k as int);
                lemma_marks_upto_bound::<P>(v, node, geo, k as int);
            }
            let t = tree.i(y.neighbour(k));
            let dpow = geo.dist(t.p(), y.p()).pow(P::R::one().sub(p));
            if !dpow.is_number() {
                proof {
                    assert(t@.coords.len() == dim);
                    assert(dpow == far_weight::<P>(v, node, geo, k as int));
                    lemma_first_fixed::<P>(v, node, geo, k as int, d as int);
                    assert(brimberg_love_events::<P>(v, node, geo) == marks_upto::<P>(
                        v,
                        node,
                        geo,
                        k as int,
                    ) + 1);
                }
                self.data.count();
                x.copy(t.p());
                return ;
            }
            proof {
                assert(t@.coords.len() == dim);
                assert(dpow == far_weight::<P>(v, node, geo, k as int));
            }
            let mut c: usize = 0;
            while c < dim
                invariant
                    c <= dim,
                    k < d,
                    can_place(*tree, node),
                    v == tree@,
                    y@ == tree@[node as int],
                    t@ == tree@[v[node as int].ns[k as int] as int],
                    d == v[node as int].ns.len(),
                    dim == v[node as int].coords.len(),
                    dim == t@.coords.len(),
                    dim == x0.len(),
                    p == geo.spec_p(),
                    dpow == far_weight::<P>(v, node, geo, k as int),
                    x.id_spec() == old(x).id_spec(),
                    x.coords_spec().len() == dim,
                    div.coords_spec().len() == dim,
                    sings.coords_spec().len() == dim,
                    singsval.coords_spec().len() == dim,
                    0 <= marks_upto::<P>(v, node, geo, k as int),
                    self.data.spec_fixed() == bumped_by(
                        count0,
                        marks_upto::<P>(v, node, geo, k as int) + marks::<P>(
                            v,
                            node,
                            geo,
                            k as int,
                            c as int,
                        ),
                    ),
                    forall|e: int|
                        0 <= e < dim ==> (Sums {
                            num: #[trigger] x.coords_spec()[e],
                            den: div.coords_spec()[e],
                            mark: sings.coords_spec()[e],
                            at: singsval.coords_spec()[e],
                        }) == sums::<P>(
                            v,
                            node,
                            geo,
                            x0[e].mul_spec(P::R::zero_spec()),
                            e,
                            if e < c {
                                k + 1
                            } else {
                                k as int
                            },
                        ),
                decreases dim - c,
            {
                proof {
                    lemma_marks_bound::<P>(v, node, geo, k as int, c as int);
                }
                let yk = y.p().coord(c);
                let tk = t.p().coord(c);
                let a = yk.sub(tk).abs().pow(p.sub(P::R::from_usize(2))).mul(dpow);
                let ghost before = x.coords_spec()[c as int];
                if !a.is_number() {
                    self.data.count();
                    sings.set_coord(c, P::R::one());
                    singsval.set_coord(c, tk);
                } else {
                    let num = x.coord(c).add(tk.mul(a));
                    x.set_coord(c, num);
                    let den = div.coord(c).add(a);
                    div.set_coord(c, den);
                }
                c += 1;
            }
            k += 1;
        }
        let mut c: usize = 0;
        let ghost gathered = x.coords_spec();
        while c < dim
            invariant
                c <= dim,
                dim == x0.len(),
                x.id_spec() == old(x).id_spec(),
                x.coords_spec().len() == dim,
                div.coords_spec().len() == dim,
                sings.coords_spec().len() == dim,
                singsval.coords_spec().len() == dim,
                gathered.len() == dim,
                forall|e: int| c <= e < dim ==> #[trigger] x.coords_spec()[e] == gathered[e],
                forall|e: int|
                    0 <= e < dim ==> (Sums {
                        num: #[trigger] gathered[e],
                        den: div.coords_spec()[e],
                        mark: sings.coords_spec()[e],
                        at: singsval.coords_spec()[e],
                    }) == sums::<P>(v, node, geo, x0[e].mul_spec(P::R::zero_spec()), e, d as int),
                forall|e: int|
                    0 <= e < c ==> #[trigger] x.coords_spec()[e] == settled::<P>(
                        sums::<P>(v, node, geo, x0[e].mul_spec(P::R::zero_spec()), e, d as int),
                    ),
            decreases dim - c,
        {
            let q = x.coord(c).div(div.coord(c));
            proof {
                assert(x.coords_spec()[c as int] == gathered[c as int]);
            }
            let r = if sings.coord(c).equals(P::R::one()) {
                singsval.coord(c)
            } else {
                q
            };
            x.set_coord(c, r);
            c += 1;
        }
        proof {
            assert(x.coords_spec() =~= brimberg_love_next::<P>(v, node, geo, x0));
        }
    }

    /// The figures, as `data` hands them out.
    open spec fn figures(&self) -> GeoMedianStepFixedPointData {
        self.spec_data()
    }

    fn data(&self) -> (d: &GeoMedianStepFixedPointData) {
        &self.data
    }
}

/// A neighbour that the node lies on, with none before it, is the first.
pub proof fn lemma_first_fixed<P: Point>(
    v: Seq<NodeView<P::R>>,
    node: usize,
    geo: &LpSpace<P::R>,
    k: int,
    n: int,
)
    requires
        0 <= k < n,
        first_fixed::<P>(v, node, geo, k) == k,
        !far_weight::<P>(v, node, geo, k).is_number_spec(),
    ensures
        first_fixed::<P>(v, node, geo, n) == k,
    decreases n - k,
{
    if n > k + 1 {
        lemma_first_fixed::<P>(v, node, geo, k, n - 1);
    }
}

/// There is no mark without a coordinate.
pub proof fn lemma_marks_bound<P: Point>(
    v: Seq<NodeView<P::R>>,
    node: usize,
    geo: &LpSpace<P::R>,
    k: int,
    c_end: int,
)
    ensures
        0 <= marks::<P>(v, node, geo, k, c_end),
    decreases c_end,
{
    if c_end > 0 {
        lemma_marks_bound::<P>(v, node, geo, k, c_end - 1);
    }
}

/// No number of marks is negative.
pub proof fn lemma_marks_upto_bound<P: Point>(
    v: Seq<NodeView<P::R>>,
    node: usize,
    geo: &LpSpace<P::R>,
    k_end: int,
)
    ensures
        0 <= marks_upto::<P>(v, node, geo, k_end),
    decreases k_end,
{
    if k_end > 0 {
        lemma_marks_upto_bound::<P>(v, node, geo, k_end - 1);
        lemma_marks_bound::<P>(v, node, geo, k_end - 1, v[node as int].coords.len() as int);
    }
}

} // verus!
