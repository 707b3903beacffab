//! The iteration of Rodriguez-Chia and Valero-Franco for the geometric
//! median under a `p`-norm, `p > 2`, with the absolute value smoothed to
//! `sqrt(c^2 + epsilon)`.

use crate::geo_median::{can_place, lemma_neighbour, GeoMedianStep, GeoMedianStepPrecisionErrorData};
use crate::point::{seq_sub, Point};
use crate::scalar::Real;
use crate::space::{LpSpace, MinkowskiSpace};
use crate::steiner_tree::{node_moved, NodeView, SteinerTree};
use std::marker::PhantomData;
use vstd::prelude::*;

verus! {

/// The iteration with a fixed smoothing.
#[derive(Debug)]
pub struct ChiaFrancoApprox<P: Point> {
    e: P::R,
    data: GeoMedianStepPrecisionErrorData,
}

/// A schedule for the smoothing: a function that answers for every step.
#[verifier::reject_recursive_types(R)]
pub struct Schedule<R, F: Fn(usize) -> R> {
    e: F,
    _r: PhantomData<R>,
}

/// The iteration with a smoothing that depends on the step: step `s` works
/// with `e(s)`.
pub struct ChiaFranco<P: Point, F: Fn(usize) -> P::R> {
    e: Schedule<P::R, F>,
    step: ChiaFrancoApprox<P>,
}

/// The smoothed absolute value of `c`: `sqrt(c^2 + epsilon)`.
pub open spec fn hk_spec<R: Real>(c: R, epsilon: R) -> R {
    c.mul_spec(c).add_spec(epsilon).sqrt_spec()
}

/// The smoothed absolute values of the coordinates.
pub open spec fn smooth<R: Real>(s: Seq<R>, epsilon: R) -> Seq<R> {
    Seq::new(s.len(), |i: int| hk_spec(s[i], epsilon))
}

/// The smoothed distance from the node to its neighbour `k`, to the power
/// `q`.
pub open spec fn norm_term<P: Point>(
    v: Seq<NodeView<P::R>>,
    node: usize,
    geo: &LpSpace<P::R>,
    epsilon: P::R,
    k: int,
    q: P::R,
) -> P::R {
    MinkowskiSpace::<P>::norm_spec(
        geo,
        smooth(seq_sub(v[node as int].coords, v[v[node as int].ns[k] as int].coords), epsilon),
    ).pow_spec(q)
}

/// The weight of neighbour `k` in coordinate `c`:
/// `h(y_c - t_c)^(p - 2) / ||h(y - t)||^(p - 1)`.
pub open spec fn common<P: Point>(
    v: Seq<NodeView<P::R>>,
    node: usize,
    geo: &LpSpace<P::R>,
    epsilon: P::R,
    c: int,
    k: int,
) -> P::R {
    let p = geo.spec_p();
    let t = v[v[node as int].ns[k] as int].coords;
    hk_spec(v[node as int].coords[c].sub_spec(t[c]), epsilon).pow_spec(
        p.sub_spec(P::R::from_usize_spec(2)),
    ).div_spec(norm_term::<P>(v, node, geo, epsilon, k, p.sub_spec(P::R::one_spec())))
}

/// Numerator and denominator of coordinate `c` of the iterate with step
/// length `lambda`, over the first `k` neighbours: the sums of
/// `w ((1 - lambda) y_c + lambda t_c)` and of `w`, `w` being the weight.
pub open spec fn iterate_sums<P: Point>(
    v: Seq<NodeView<P::R>>,
    node: usize,
    geo: &LpSpace<P::R>,
    epsilon: P::R,
    c: int,
    lambda: P::R,
    k: int,
) -> (P::R, P::R)
    decreases k,
{
    if k <= 0 {
        (P::R::zero_spec(), P::R::zero_spec())
    } else {
        let prev = iterate_sums::<P>(v, node, geo, epsilon, c, lambda, k - 1);
        let w = common::<P>(v, node, geo, epsilon, c, k - 1);
        let yc = v[node as int].coords[c];
        let tc = v[v[node as int].ns[k - 1] as int].coords[c];
        (
            prev.0.add_spec(
                w.mul_spec(
                    P::R::one_spec().sub_spec(lambda).mul_spec(yc).add_spec(lambda.mul_spec(tc)),
                ),
            ),
            prev.1.add_spec(w),
        )
    }
}

/// Coordinate `c` of the iterate with step length `lambda`.
pub open spec fn iterate<P: Point>(
    v: Seq<NodeView<P::R>>,
    node: usize,
    geo: &LpSpace<P::R>,
    epsilon: P::R,
    c: int,
    lambda: P::R,
) -> P::R {
    let s = iterate_sums::<P>(v, node, geo, epsilon, c, lambda, v[node as int].ns.len() as int);
    s.0.div_spec(s.1)
}

/// The iterate with step length one.
pub open spec fn gamma<P: Point>(
    v: Seq<NodeView<P::R>>,
    node: usize,
    geo: &LpSpace<P::R>,
    epsilon: P::R,
) -> Seq<P::R> {
    Seq::new(
        v[node as int].coords.len(),
        |c: int| iterate::<P>(v, node, geo, epsilon, c, P::R::one_spec()),
    )
}

/// Whether `e` can be asked for every step and has one answer for each.
pub open spec fn is_schedule<R, F: Fn(usize) -> R>(e: F) -> bool {
    &&& forall|s: usize| call_requires(e, (s,))
    &&& forall|s: usize, a: R, b: R| #[trigger]
        call_ensures(e, (s,), a) && #[trigger] call_ensures(e, (s,), b) ==> a == b
}

/// The answer of the schedule `e` for step `s`.
pub open spec fn scheduled<R, F: Fn(usize) -> R>(e: F, s: usize) -> R {
    choose|r: R| call_ensures(e, (s,), r)
}

/// The two auxiliary sums `psi(0)` and `psi(f)`, over the coordinates before
/// `c` with all neighbours and, of coordinate `c`, the first `k` neighbours: each term is
/// `(g_c - y_c)^2` times a smoothed distance in that coordinate, taken at
/// the node for the first sum and `2 / (p - 1)` of the way to `g` for the
/// second, over `||h(y - t)||^(p - 1)`.
pub open spec fn psi<P: Point>(
    v: Seq<NodeView<P::R>>,
    node: usize,
    geo: &LpSpace<P::R>,
    epsilon: P::R,
    g: Seq<P::R>,
    c: int,
    k: int,
) -> (P::R, P::R)
    decreases c, k,
{
    if k <= 0 {
        if c <= 0 {
            (P::R::zero_spec(), P::R::zero_spec())
        } else {
            psi::<P>(v, node, geo, epsilon, g, c - 1, v[node as int].ns.len() as int)
        }
    } else {
        let prev = psi::<P>(v, node, geo, epsilon, g, c, k - 1);
        let p = geo.spec_p();
        let one = P::R::one_spec();
        let two = P::R::from_usize_spec(2);
        let yc = v[node as int].coords[c];
        let tc = v[v[node as int].ns[k - 1] as int].coords[c];
        let diff = g[c].sub_spec(yc);
        let square = diff.mul_spec(diff);
        let nt = norm_term::<P>(v, node, geo, epsilon, k - 1, p.sub_spec(one));
        (
            prev.0.add_spec(square.mul_spec(hk_spec(yc.sub_spec(tc), epsilon).div_spec(nt))),
            prev.1.add_spec(
                square.mul_spec(
                    hk_spec(
                        yc.sub_spec(tc).add_spec(two.div_spec(p.sub_spec(one)).mul_spec(diff)),
                        epsilon,
                    ).div_spec(nt),
                ),
            ),
        )
    }
}

/// The sum over the first `k` neighbours of `||h(y - t)||^(1 - p)`.
pub open spec fn sum_term<P: Point>(
    v: Seq<NodeView<P::R>>,
    node: usize,
    geo: &LpSpace<P::R>,
    epsilon: P::R,
    k: int,
) -> P::R
    decreases k,
{
    if k <= 0 {
        P::R::zero_spec()
    } else {
        sum_term::<P>(v, node, geo, epsilon, k - 1).add_spec(
            norm_term::<P>(v, node, geo, epsilon, k - 1, P::R::one_spec().sub_spec(geo.spec_p())),
        )
    }
}

/// The step length. For `p > 3` it is the smaller of `2 / (p - 1)` and
/// `-2 psi(0) p / (-p (p - 1) psi(f))`; else it is `-2 psi(0) p` over
/// `p psi(0) - p^2 psi(0) - p (p - 1) (2 / (p - 1))^(p - 2) ||h(g - y)||^p S`,
/// `S` being the sum of the `||h(y - t)||^(1 - p)`.
pub open spec fn step_length<P: Point>(
    v: Seq<NodeView<P::R>>,
    node: usize,
    geo: &LpSpace<P::R>,
    epsilon: P::R,
) -> P::R {
    let p = geo.spec_p();
    let one = P::R::one_spec();
    let two = P::R::from_usize_spec(2);
    let g = gamma::<P>(v, node, geo, epsilon);
    let n = v[node as int].ns.len() as int;
    let ps = psi::<P>(v, node, geo, epsilon, g, v[node as int].coords.len() as int, 0);
    let top = two.neg_spec().mul_spec(ps.0).mul_spec(p);
    if P::R::from_usize_spec(3).lt_spec(p) {
        let denom = p.neg_spec().mul_spec(p.sub_spec(one)).mul_spec(ps.1);
        two.div_spec(p.sub_spec(one)).min_spec(top.div_spec(denom))
    } else {
        let nt = MinkowskiSpace::<P>::norm_spec(
            geo,
            smooth(seq_sub(g, v[node as int].coords), epsilon),
        ).pow_spec(p);
        let denom = p.mul_spec(ps.0).sub_spec(p.mul_spec(p).mul_spec(ps.0)).sub_spec(
            p.mul_spec(p.sub_spec(one)).mul_spec(
                two.div_spec(p.sub_spec(one)).pow_spec(p.sub_spec(two)),
            ).mul_spec(nt).mul_spec(sum_term::<P>(v, node, geo, epsilon, n)),
        );
        top.div_spec(denom)
    }
}

/// Where the step goes: coordinate by coordinate to the iterate with the
/// step length of `step_length`.
pub open spec fn chia_franco_next<P: Point>(
    v: Seq<NodeView<P::R>>,
    node: usize,
    geo: &LpSpace<P::R>,
    epsilon: P::R,
) -> Seq<P::R> {
    Seq::new(
        v[node as int].coords.len(),
        |c: int| iterate::<P>(v, node, geo, epsilon, c, step_length::<P>(v, node, geo, epsilon)),
    )
}

/// The bound on the error after a step with `tlen` terminals:
/// `tlen 2^(1 / p) sqrt(epsilon)`.
pub open spec fn err_ub_spec<R: Real>(tlen: usize, p: R, epsilon: R) -> R {
    R::from_usize_spec(tlen).mul_spec(R::from_usize_spec(2).pow_spec(R::one_spec().div_spec(p))).mul_spec(
        epsilon.sqrt_spec(),
    )
}

impl<P: Point> ChiaFrancoApprox<P> {
    /// The smoothing.
    pub closed spec fn spec_epsilon(&self) -> P::R {
        self.e
    }

    /// The figures.
    pub closed spec fn spec_data(&self) -> GeoMedianStepPrecisionErrorData {
        self.data
    }

    /// The iteration with the smoothing `e`.
    pub fn new(e: P::R) -> (c: Self)
        ensures
            c.spec_epsilon() == e,
            c.spec_data().spec_errors() == 0,
    {
        ChiaFrancoApprox { e, data: GeoMedianStepPrecisionErrorData::new() }
    }

    /// The smoothing.
    pub fn get_epsilon(&self) -> (e: P::R)
        ensures
            e == self.spec_epsilon(),
    {
        self.e
    }

    /// Sets the smoothing.
    pub fn set_epsilon(&mut self, e: P::R)
        ensures
            final(self).spec_epsilon() == e,
            final(self).spec_data() == old(self).spec_data(),
    {
        self.e = e;
    }

    /// The bound on the error for `tlen` terminals under the `p`-norm.
    pub fn get_err_ub(&self, tlen: usize, p: P::R) -> (r: P::R)
        ensures
            r == err_ub_spec(tlen, p, self.spec_epsilon()),
    {
        P::R::from_usize(tlen).mul(P::R::from_usize(2).pow(P::R::one().div(p))).mul(self.e.sqrt())
    }

    /// The smoothed distance from `node` to its neighbour `k`, to the power
    /// `q`.
    fn norm_pow(
        &self,
        tmp: &mut P,
        tree: &SteinerTree<P>,
        node: usize,
        k: usize,
        q: P::R,
        geo: &LpSpace<P::R>,
    ) -> (r: P::R)
        requires
            can_place(*tree, node),
            k < tree@[node as int].ns.len(),
            old(tmp).coords_spec().len() == tree@[node as int].coords.len(),
        ensures
            r == norm_term::<P>(tree@, node, geo, self.spec_epsilon(), k as int, q),
            final(tmp).coords_spec().len() == old(tmp).coords_spec().len(),
            final(tmp).id_spec() == old(tmp).id_spec(),
    {
        proof {
            lemma_neighbour(*tree, node, k as int);
        }
        let y = tree.i(node);
        let t = tree.i(y.neighbour(k));
        tmp.copy(y.p());
        tmp.sub(t.p());
        h(tmp, self.e);
        geo.norm(tmp).pow(q)
    }

    /// Coordinate `c` of the iterate with step length `lambda`.
    fn yk(
        &self,
        tree: &SteinerTree<P>,
        node: usize,
        c: usize,
        lambda: P::R,
        tmp: &mut P,
        geo: &LpSpace<P::R>,
    ) -> (r: P::R)
        requires
            can_place(*tree, node),
            c < tree@[node as int].coords.len(),
            old(tmp).coords_spec().len() == tree@[node as int].coords.len(),
        ensures
            r == iterate::<P>(tree@, node, geo, self.spec_epsilon(), c as int, lambda),
            final(tmp).coords_spec().len() == old(tmp).coords_spec().len(),
            final(tmp).id_spec() == old(tmp).id_spec(),
    {
        let mut numerator = P::R::zero();
        let mut denominator = P::R::zero();
        let y = tree.i(node);
        let yc = y.p().coord(c);
        let d = y.degree();
        let p = geo.p();
        let mut k: usize = 0;
        while k < d
            invariant
                k <= d,
                can_place(*tree, node),
                y@ == tree@[node as int],
                d == tree@[node as int].ns.len(),
                c < tree@[node as int].coords.len(),
                yc == tree@[node as int].coords[c as int],
                p == geo.spec_p(),
                tmp.coords_spec().len() == old(tmp).coords_spec().len(),
                tmp.coords_spec().len() == tree@[node as int].coords.len(),
                tmp.id_spec() == old(tmp).id_spec(),
                (numerator, denominator) == iterate_sums::<P>(
                    tree@,
                    node,
                    geo,
                    self.spec_epsilon(),
                    c as int,
                    lambda,
                    k as int,
                ),
            decreases d - k,
        {
            proof {
                lemma_neighbour(*tree, node, k as int);
            }
            let tc = tree.i(y.neighbour(k)).p().coord(c);
            let normterm = self.norm_pow(tmp, tree, node, k, p.sub(P::R::one()), geo);
            let w = hk(yc.sub(tc), self.e).pow(p.sub(P::R::from_usize(2))).div(normterm);
            denominator = denominator.add(w);
            numerator = numerator.add(w.mul(P::R::one().sub(lambda).mul(yc).add(lambda.mul(tc))));
            k += 1;
        }
        numerator.div(denominator)
    }

    /// The iterate with step length `lambda`, written to `out`.
    fn iterate_all(
        &self,
        out: &mut P,
        tree: &SteinerTree<P>,
        node: usize,
        lambda: P::R,
        tmp: &mut P,
        geo: &LpSpace<P::R>,
    )
        requires
            can_place(*tree, node),
            old(out).coords_spec().len() == tree@[node as int].coords.len(),
            old(tmp).coords_spec().len() == tree@[node as int].coords.len(),
        ensures
            final(out).coords_spec() == Seq::new(
                tree@[node as int].coords.len(),
                |c: int| iterate::<P>(tree@, node, geo, self.spec_epsilon(), c, lambda),
            ),
            final(out).id_spec() == old(out).id_spec(),
            final(tmp).coords_spec().len() == old(tmp).coords_spec().len(),
            final(tmp).id_spec() == old(tmp).id_spec(),
    {
        let dim = out.dim();
        let mut c: usize = 0;
        while c < dim
            invariant
                c <= dim,
                can_place(*tree, node),
                dim == tree@[node as int].coords.len(),
                out.coords_spec().len() == dim,
                out.id_spec() == old(out).id_spec(),
                tmp.coords_spec().len() == dim,
                tmp.id_spec() == old(tmp).id_spec(),
                forall|e: int|
                    0 <= e < c ==> #[trigger] out.coords_spec()[e] == iterate::<P>(
                        tree@,
                        node,
                        geo,
                        self.spec_epsilon(),
                        e,
                        lambda,
                    ),
            decreases dim - c,
        {
            let r = self.yk(tree, node, c, lambda, tmp, geo);
            out.set_coord(c, r);
            c += 1;
        }
        proof {
            assert(out.coords_spec() =~= Seq::new(
                tree@[node as int].coords.len(),
                |c: int| iterate::<P>(tree@, node, geo, self.spec_epsilon(), c, lambda),
            ));
        }
    }

    /// The two auxiliary sums.
    fn psi_sums(
        &self,
        g: &P,
        tree: &SteinerTree<P>,
        node: usize,
        tmp: &mut P,
        geo: &LpSpace<P::R>,
    ) -> (r: (P::R, P::R))
        requires
            can_place(*tree, node),
            g.coords_spec().len() == tree@[node as int].coords.len(),
            old(tmp).coords_spec().len() == tree@[node as int].coords.len(),
        ensures
            r == psi::<P>(
                tree@,
                node,
                geo,
                self.spec_epsilon(),
                g.coords_spec(),
                tree@[node as int].coords.len() as int,
                0,
            ),
            final(tmp).coords_spec().len() == old(tmp).coords_spec().len(),
            final(tmp).id_spec() == old(tmp).id_spec(),
    {
        let y = tree.i(node);
        let dim = y.p().dim();
        let d = y.degree();
        let p = geo.p();
        let one = P::R::one();
        let two = P::R::from_usize(2);
        let mut psi0 = P::R::zero();
        let mut psif = P::R::zero();
        let mut c: usize = 0;
        while c < dim
            invariant
                c <= dim,
                can_place(*tree, node),
                y@ == tree@[node as int],
                dim == tree@[node as int].coords.len(),
                d == tree@[node as int].ns.len(),
                d >= 3,
                g.coords_spec().len() == dim,
                p == geo.spec_p(),
                one == P::R::one_spec(),
                two == P::R::from_usize_spec(2),
                tmp.coords_spec().len() == dim,
                tmp.id_spec() == old(tmp).id_spec(),
                (psi0, psif) == psi::<P>(
                    tree@,
                    node,
                    geo,
                    self.spec_epsilon(),
                    g.coords_spec(),
                    c as int,
                    0,
                ),
            decreases dim - c,
        {
            let yc = y.p().coord(c);
            let gc = g.coord(c);
            let diff = gc.sub(yc);
            let square = diff.mul(diff);
            let mut k: usize = 0;
            while k < d
                invariant
                    k <= d,
                    c < dim,
                    can_place(*tree, node),
                    y@ == tree@[node as int],
                    dim == tree@[node as int].coords.len(),
                    d == tree@[node as int].ns.len(),
                    g.coords_spec().len() == dim,
                    p == geo.spec_p(),
                    one == P::R::one_spec(),
                    two == P::R::from_usize_spec(2),
                    yc == tree@[node as int].coords[c as int],
                    diff == g.coords_spec()[c as int].sub_spec(yc),
                    square == diff.mul_spec(diff),
                    tmp.coords_spec().len() == dim,
                    tmp.id_spec() == old(tmp).id_spec(),
                    (psi0, psif) == psi::<P>(
                        tree@,
                        node,
                        geo,
                        self.spec_epsilon(),
                        g.coords_spec(),
                        c as int,
                        k as int,
                    ),
                decreases d - k,
            {
                proof {
                    lemma_neighbour(*tree, node, k as int);
                }
                let tc = tree.i(y.neighbour(k)).p().coord(c);
                let nt = self.norm_pow(tmp, tree, node, k, p.sub(one), geo);
                psi0 = psi0.add(square.mul(hk(yc.sub(tc), self.e).div(nt)));
                psif = psif.add(
                    square.mul(hk(yc.sub(tc).add(two.div(p.sub(one)).mul(diff)), self.e).div(nt)),
                );
                k += 1;
            }
            c += 1;
        }
        (psi0, psif)
    }

    /// The sum of the `||h(y - t)||^(1 - p)`.
    fn sum_terms(
        &self,
        tree: &SteinerTree<P>,
        node: usize,
        tmp: &mut P,
        geo: &LpSpace<P::R>,
    ) -> (r: P::R)
        requires
            can_place(*tree, node),
            old(tmp).coords_spec().len() == tree@[node as int].coords.len(),
        ensures
            r == sum_term::<P>(
                tree@,
                node,
                geo,
                self.spec_epsilon(),
                tree@[node as int].ns.len() as int,
            ),
            final(tmp).coords_spec().len() == old(tmp).coords_spec().len(),
            final(tmp).id_spec() == old(tmp).id_spec(),
    {
        let d = tree.i(node).degree();
        let q = P::R::one().sub(geo.p());
        let mut sum = P::R::zero();
        let mut k: usize = 0;
        while k < d
            invariant
                k <= d,
                can_place(*tree, node),
                d == tree@[node as int].ns.len(),
                q == P::R::one_spec().sub_spec(geo.spec_p()),
                tmp.coords_spec().len() == tree@[node as int].coords.len(),
                tmp.coords_spec().len() == old(tmp).coords_spec().len(),
                tmp.id_spec() == old(tmp).id_spec(),
                sum == sum_term::<P>(tree@, node, geo, self.spec_epsilon(), k as int),
            decreases d - k,
        {
            let nt = self.norm_pow(tmp, tree, node, k, q, geo);
            sum = sum.add(nt);
            k += 1;
        }
        sum
    }
}

impl<P: Point> GeoMedianStep<P, LpSpace<P::R>> for ChiaFrancoApprox<P> {
    type D = GeoMedianStepPrecisionErrorData;

    /// The step of `chia_franco_next` with the smoothing of the iteration.
    open spec fn step_law(&self) -> spec_fn(
        Seq<P::R>,
        Seq<NodeView<P::R>>,
        usize,
        usize,
        LpSpace<P::R>,
    ) -> Seq<P::R> {
        |x0: Seq<P::R>, v: Seq<NodeView<P::R>>, node: usize, s: usize, geo: LpSpace<P::R>|
            chia_franco_next::<P>(v, node, &geo, self.spec_epsilon())
    }

    /// Where the node lies.
    open spec fn init_law(&self) -> spec_fn(Seq<NodeView<P::R>>, usize, LpSpace<P::R>) -> Seq<
        P::R,
    > {
        |v: Seq<NodeView<P::R>>, node: usize, geo: LpSpace<P::R>| v[node as int].coords
    }

    /// Nothing is to be made ready.
    fn init(&mut self, tree: &mut SteinerTree<P>, node: usize, geo: &LpSpace<P::R>)
        ensures
            *final(tree) == *old(tree),
            final(self).spec_data() == old(self).spec_data(),
            final(self).spec_epsilon() == old(self).spec_epsilon(),
    {
        proof {
            assert(tree@ =~= node_moved(tree@, node, tree@[node as int].coords));
        }
    }

    /// The step of Rodriguez-Chia and Valero-Franco.
    fn step(&mut self, x: &mut P, tree: &SteinerTree<P>, node: usize, s: usize, geo: &LpSpace<P::R>)
        ensures
            final(x).coords_spec() == chia_franco_next::<P>(
                tree@,
                node,
                geo,
                old(self).spec_epsilon(),
            ),
            final(self).spec_data() == old(self).spec_data(),
            final(self).spec_epsilon() == old(self).spec_epsilon(),
    {
        let y = tree.i(node);
        let mut tmp = y.p().duplicate();
        let p = geo.p();
        let one = P::R::one();
        let two = P::R::from_usize(2);
        let mut g = y.p().duplicate();
        self.iterate_all(&mut g, tree, node, one, &mut tmp, geo);
        proof {
            assert(g.coords_spec() =~= gamma::<P>(tree@, node, geo, self.spec_epsilon()));
        }
        let ps = self.psi_sums(&g, tree, node, &mut tmp, geo);
        let top = two.neg().mul(ps.0).mul(p);
        let lambda = if P::R::from_usize(3).lt(p) {
            let denom = p.neg().mul(p.sub(one)).mul(ps.1);
            two.div(p.sub(one)).min(top.div(denom))
        } else {
            let sumterm = self.sum_terms(tree, node, &mut tmp, geo);
            tmp.copy(&g);
            tmp.sub(y.p());
            h(&mut tmp, self.e);
            let nt = geo.norm(&tmp).pow(p);
            let denom = p.mul(ps.0).sub(p.mul(p).mul(ps.0)).sub(
                p.mul(p.sub(one)).mul(two.div(p.sub(one)).pow(p.sub(two))).mul(nt).mul(sumterm),
            );
            top.div(denom)
        };
        self.iterate_all(x, tree, node, lambda, &mut tmp, geo);
    }

    /// The figures, as `data` hands them out.
    open spec fn figures(&self) -> GeoMedianStepPrecisionErrorData {
        self.spec_data()
    }

    fn data(&self) -> (d: &GeoMedianStepPrecisionErrorData) {
        &self.data
    }
}

impl<R, F: Fn(usize) -> R> Schedule<R, F> {
    /// The schedule can be asked for every step, and has one answer for
    /// each.
    #[verifier::type_invariant]
    spec fn total(&self) -> bool {
        is_schedule(self.e)
    }

    /// The function.
    pub closed spec fn function(&self) -> F {
        self.e
    }

    /// The schedule `e`, which must have one answer for every step.
    pub fn new(e: F) -> (c: Self)
        requires
            is_schedule(e),
        ensures
            c.function() == e,
    {
        Schedule { e, _r: PhantomData }
    }

    /// The smoothing of step `s`.
    pub fn at(&self, s: usize) -> (r: R)
        ensures
            r == scheduled(self.function(), s),
    {
        proof {
            use_type_invariant(self);
        }
        (self.e)(s)
    }
}

impl<P: Point, F: Fn(usize) -> P::R> ChiaFranco<P, F> {
    /// The schedule of the smoothing.
    pub closed spec fn schedule(&self) -> F {
        self.e.function()
    }

    /// The iteration that does the steps.
    pub closed spec fn approx(&self) -> ChiaFrancoApprox<P> {
        self.step
    }

    /// The iteration with the schedule `e`, which must have one answer for
    /// every step.
    pub fn new(e: F) -> (c: Self)
        requires
            is_schedule(e),
        ensures
            c.schedule() == e,
            c.approx().spec_epsilon() == scheduled(e, 1),
            c.approx().spec_data().spec_errors() == 0,
    {
        let e = Schedule::new(e);
        let first = e.at(1);
        ChiaFranco { step: ChiaFrancoApprox::new(first), e }
    }

    /// The smoothing of step `s`.
    pub fn get_epsilon(&self, s: usize) -> (r: P::R)
        ensures
            r == scheduled(self.schedule(), s),
    {
        self.e.at(s)
    }

    /// The bound on the error after step `s`, for `tlen` terminals under the
    /// `p`-norm.
    pub fn get_err_ub(&self, tlen: usize, p: P::R, s: usize) -> (r: P::R)
        ensures
            r == err_ub_spec(tlen, p, scheduled(self.schedule(), s)),
    {
        let epsilon = self.get_epsilon(s);
        P::R::from_usize(tlen).mul(P::R::from_usize(2).pow(P::R::one().div(p))).mul(epsilon.sqrt())
    }
}

impl<P: Point, F: Fn(usize) -> P::R> GeoMedianStep<P, LpSpace<P::R>> for ChiaFranco<P, F> {
    type D = GeoMedianStepPrecisionErrorData;

    /// The step of `chia_franco_next` with the smoothing that the schedule
    /// gives for the step.
    open spec fn step_law(&self) -> spec_fn(
        Seq<P::R>,
        Seq<NodeView<P::R>>,
        usize,
        usize,
        LpSpace<P::R>,
    ) -> Seq<P::R> {
        |x0: Seq<P::R>, v: Seq<NodeView<P::R>>, node: usize, s: usize, geo: LpSpace<P::R>|
            chia_franco_next::<P>(v, node, &geo, scheduled(self.schedule(), s))
    }

    /// Where the node lies.
    open spec fn init_law(&self) -> spec_fn(Seq<NodeView<P::R>>, usize, LpSpace<P::R>) -> Seq<
        P::R,
    > {
        |v: Seq<NodeView<P::R>>, node: usize, geo: LpSpace<P::R>| v[node as int].coords
    }

    /// Nothing is to be made ready.
    fn init(&mut self, tree: &mut SteinerTree<P>, node: usize, geo: &LpSpace<P::R>)
        ensures
            *final(tree) == *old(tree),
            *final(self) == *old(self),
    {
        proof {
            assert(tree@ =~= node_moved(tree@, node, tree@[node as int].coords));
        }
    }

    /// The step of Rodriguez-Chia and Valero-Franco with the smoothing that
    /// the schedule gives for step `s`.
    fn step(&mut self, x: &mut P, tree: &SteinerTree<P>, node: usize, s: usize, geo: &LpSpace<P::R>)
        ensures
            final(self).schedule() == old(self).schedule(),
            final(self).approx().spec_epsilon() == scheduled(old(self).schedule(), s),
            final(self).approx().spec_data() == old(self).approx().spec_data(),
    {
        let epsilon = self.get_epsilon(s);
        self.step.set_epsilon(epsilon);
        self.step.step(x, tree, node, s, geo);
    }

    /// The figures, as `data` hands them out.
    open spec fn figures(&self) -> GeoMedianStepPrecisionErrorData {
        self.approx().spec_data()
    }

    fn data(&self) -> (d: &GeoMedianStepPrecisionErrorData) {
        self.step.data()
    }
}

/// The smoothed absolute value of `c`.
pub fn hk<R: Real>(c: R, epsilon: R) -> (r: R)
    ensures
        r == hk_spec(c, epsilon),
{
    c.mul(c).add(epsilon).sqrt()
}

/// Smooths every coordinate of `point`.
pub fn h<P: Point>(point: &mut P, epsilon: P::R)
    ensures
        final(point).coords_spec() == smooth(old(point).coords_spec(), epsilon),
        final(point).id_spec() == old(point).id_spec(),
{
    point.scale(
        &(|c: P::R| -> (r: P::R)
            ensures
                r == hk_spec(c, epsilon),
            { hk(c, epsilon) }),
    );
    proof {
        assert(point.coords_spec() =~= smooth(old(point).coords_spec(), epsilon));
    }
}

} // verus!
