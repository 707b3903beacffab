//! Hyper-ellipsoid spaces: the unit ball is an ellipsoid with its axes
//! along the coordinate axes.

use crate::hyperplane::{dot_from, Hyperplane, HyperplaneNd, Line, Plane};
use crate::point::{seq_div, seq_sub, Point, Point2d, Point3d, PointNd};
use crate::scalar::Real;
use crate::space::MinkowskiSpace;
use vstd::prelude::*;

verus! {

/// A hyper-ellipsoid space of any dimension.
#[derive(Debug)]
pub struct HyperEllipsoidSpaceNd<R> {
    c: Vec<R>,
}

/// The plane with an ellipse as its unit ball.
#[derive(Debug)]
pub struct EllipseSpace<R> {
    comp: [R; 2],
}

/// Space with an ellipsoid as its unit ball.
#[derive(Debug)]
pub struct EllipsoidSpace<R> {
    comp: [R; 3],
}

/// A space whose unit ball is an ellipsoid along the axes.
pub trait HyperEllipsoid<P: Point>: MinkowskiSpace<P> {
    type H: Hyperplane<P>;

    /// The half axes of the unit ball.
    open spec fn comps_spec(&self) -> Seq<P::R> {
        arbitrary()
    }

    /// The half axes of the unit ball.
    fn comps(&self) -> (c: &[P::R])
        ensures
            c@ == self.comps_spec(),
    ;

    /// The hyperplane that touches the ball round `o` where the way to `p`
    /// leaves it.
    fn tangent(&self, o: &P, p: &P) -> (h: Self::H)
        requires
            o.coords_spec().len() == self.comps_spec().len(),
            p.coords_spec().len() == self.comps_spec().len(),
        ensures
            h.comps_spec() == tangent_comps(
                self.comps_spec(),
                o.coords_spec(),
                p.coords_spec(),
                self.norm_spec(seq_sub(p.coords_spec(), o.coords_spec())),
            ),
    ;

    /// Moves `p` along its ray to the boundary of the unit ball.
    fn bd_intersect(&self, p: &mut P)
        ensures
            final(p).coords_spec() == seq_div(
                old(p).coords_spec(),
                self.norm_spec(old(p).coords_spec()),
            ),
            final(p).id_spec() == old(p).id_spec(),
    {
        let norm = self.norm(p);
        p.div(norm);
    }

    /// The inner product that gives the norm: the sum of the
    /// `x_k y_k / a_k^2`.
    fn inner_product(&self, p1: &P, p2: &P) -> (r: P::R)
        requires
            p1.coords_spec().len() == self.comps_spec().len(),
            p2.coords_spec().len() == self.comps_spec().len(),
        ensures
            r == inner_sum(
                self.comps_spec(),
                p1.coords_spec(),
                p2.coords_spec(),
                self.comps_spec().len() as int,
            ),
    {
        let a = self.comps();
        let n = a.len();
        let mut sum = P::R::zero();
        let mut k: usize = 0;
        while k < n
            invariant
                k <= n,
                a@ == self.comps_spec(),
                n == a@.len(),
                n == p1.coords_spec().len(),
                n == p2.coords_spec().len(),
                sum == inner_sum(a@, p1.coords_spec(), p2.coords_spec(), k as int),
            decreases n - k,
        {
            let e = a[k];
            sum = sum.add(e.mul(e).recip().mul(p1.coord(k)).mul(p2.coord(k)));
            k += 1;
        }
        sum
    }
}

/// The smaller of the two.
pub open spec fn least(a: int, b: int) -> int {
    if a < b {
        a
    } else {
        b
    }
}

/// The sum of `x_k^2 / a_k^2` over the first `k` places, from zero on.
pub open spec fn ellipsoid_sum<R: Real>(a: Seq<R>, x: Seq<R>, k: int) -> R
    decreases k,
{
    if k <= 0 {
        R::zero_spec()
    } else {
        ellipsoid_sum(a, x, k - 1).add_spec(
            x[k - 1].mul_spec(x[k - 1]).div_spec(a[k - 1].mul_spec(a[k - 1])),
        )
    }
}

/// The norm of `x` where the unit ball has the half axes `a`: the root of the
/// sum of the `x_k^2 / a_k^2`, over the places that both have.
pub open spec fn ellipsoid_norm_spec<R: Real>(a: Seq<R>, x: Seq<R>) -> R {
    ellipsoid_sum(a, x, least(a.len() as int, x.len() as int)).sqrt_spec()
}

/// The sum of `x_k y_k / a_k^2` over the first `k` places, from zero on.
pub open spec fn inner_sum<R: Real>(a: Seq<R>, x: Seq<R>, y: Seq<R>, k: int) -> R
    decreases k,
{
    if k <= 0 {
        R::zero_spec()
    } else {
        inner_sum(a, x, y, k - 1).add_spec(
            a[k - 1].mul_spec(a[k - 1]).recip_spec().mul_spec(x[k - 1]).mul_spec(y[k - 1]),
        )
    }
}

/// The components of the hyperplane that touches the ball round `o`
/// towards `p`, before it is moved through `o`: with `d = p - o` and `n`
/// the norm of `d`, they are the `(d_k / n) / a_k^2`.
pub open spec fn touching<R: Real>(a: Seq<R>, d: Seq<R>, n: R) -> Seq<R> {
    Seq::new(d.len(), |k: int| d[k].div_spec(n).div_spec(a[k].mul_spec(a[k])))
}

/// The components of the hyperplane that touches the ball round `o`
/// towards `p`: those of `touching`, divided by their dot product with `o`.
pub open spec fn tangent_comps<R: Real>(a: Seq<R>, o: Seq<R>, p: Seq<R>, n: R) -> Seq<R> {
    let c = touching(a, seq_sub(p, o), n);
    seq_div(c, dot_from(R::zero_spec(), c, o))
}

impl<R> HyperEllipsoidSpaceNd<R> {
    /// The half axes.
    pub closed spec fn axes(&self) -> Seq<R> {
        self.c@
    }

    /// The space whose unit ball has the half axes `c`.
    pub fn new(c: Vec<R>) -> (s: Self)
        ensures
            s.axes() == c@,
    {
        HyperEllipsoidSpaceNd { c }
    }
}

impl<R: Real> MinkowskiSpace<PointNd<R>> for HyperEllipsoidSpaceNd<R> {
    open spec fn norm_spec(&self, c: Seq<R>) -> R {
        ellipsoid_norm_spec(self.axes(), c)
    }

    fn norm(&self, p: &PointNd<R>) -> (r: R) {
        ellipsoid_norm(self.c.as_slice(), p)
    }
}

impl<R: Real> HyperEllipsoid<PointNd<R>> for HyperEllipsoidSpaceNd<R> {
    type H = HyperplaneNd<R>;

    open spec fn comps_spec(&self) -> Seq<R> {
        self.axes()
    }

    fn comps(&self) -> (c: &[R]) {
        self.c.as_slice()
    }

    fn tangent(&self, o: &PointNd<R>, p: &PointNd<R>) -> (h: HyperplaneNd<R>) {
        let mut d = p.duplicate();
        d.sub(o);
        let n = self.norm(&d);
        let mut plane = HyperplaneNd::new(touching_comps(self.c.as_slice(), &d, n));
        Hyperplane::<PointNd<R>>::translate(&mut plane, o);
        plane
    }
}

impl<R> EllipseSpace<R> {
    /// The half axes.
    pub closed spec fn axes(&self) -> Seq<R> {
        self.comp@
    }

    /// The plane whose unit ball has the half axes `a` and `b`.
    pub fn new(a: R, b: R) -> (s: Self)
        ensures
            s.axes() == seq![a, b],
    {
        let s = EllipseSpace { comp: [a, b] };
        proof {
            assert(s.comp@ =~= seq![a, b]);
        }
        s
    }
}

impl<R: Real> MinkowskiSpace<Point2d<R>> for EllipseSpace<R> {
    open spec fn norm_spec(&self, c: Seq<R>) -> R {
        ellipsoid_norm_spec(self.axes(), c)
    }

    fn norm(&self, p: &Point2d<R>) -> (r: R) {
        ellipsoid_norm(self.comp.as_slice(), p)
    }
}

impl<R: Real> HyperEllipsoid<Point2d<R>> for EllipseSpace<R> {
    type H = Line<R>;

    open spec fn comps_spec(&self) -> Seq<R> {
        self.axes()
    }

    fn comps(&self) -> (c: &[R]) {
        self.comp.as_slice()
    }

    fn tangent(&self, o: &Point2d<R>, p: &Point2d<R>) -> (h: Line<R>) {
        let mut d = p.duplicate();
        d.sub(o);
        let n = self.norm(&d);
        let v = touching_comps(self.comp.as_slice(), &d, n);
        let mut line = Line::new([v[0], v[1]]);
        proof {
            assert(line.spec_comp() =~= v@);
        }
        Hyperplane::<Point2d<R>>::translate(&mut line, o);
        line
    }
}

impl<R> EllipsoidSpace<R> {
    /// The half axes.
    pub closed spec fn axes(&self) -> Seq<R> {
        self.comp@
    }

    /// The space whose unit ball has the half axes `a`, `b` and `c`.
    pub fn new(a: R, b: R, c: R) -> (s: Self)
        ensures
            s.axes() == seq![a, b, c],
    {
        let s = EllipsoidSpace { comp: [a, b, c] };
        proof {
            assert(s.comp@ =~= seq![a, b, c]);
        }
        s
    }
}

impl<R: Real> MinkowskiSpace<Point3d<R>> for EllipsoidSpace<R> {
    open spec fn norm_spec(&self, c: Seq<R>) -> R {
        ellipsoid_norm_spec(self.axes(), c)
    }

    fn norm(&self, p: &Point3d<R>) -> (r: R) {
        ellipsoid_norm(self.comp.as_slice(), p)
    }
}

impl<R: Real> HyperEllipsoid<Point3d<R>> for EllipsoidSpace<R> {
    type H = Plane<R>;

    open spec fn comps_spec(&self) -> Seq<R> {
        self.axes()
    }

    fn comps(&self) -> (c: &[R]) {
        self.comp.as_slice()
    }

    fn tangent(&self, o: &Point3d<R>, p: &Point3d<R>) -> (h: Plane<R>) {
        let mut d = p.duplicate();
        d.sub(o);
        let n = self.norm(&d);
        let v = touching_comps(self.comp.as_slice(), &d, n);
        let mut plane = Plane::new([v[0], v[1], v[2]]);
        proof {
            assert(plane.spec_comp() =~= v@);
        }
        Hyperplane::<Point3d<R>>::translate(&mut plane, o);
        plane
    }
}

/// The norm of `p` where the unit ball has the half axes `a`.
pub fn ellipsoid_norm<P: Point>(a: &[P::R], p: &P) -> (r: P::R)
    ensures
        r == ellipsoid_norm_spec(a@, p.coords_spec()),
{
    let n = if a.len() < p.dim() {
        a.len()
    } else {
        p.dim()
    };
    let mut sum = P::R::zero();
    let mut k: usize = 0;
    while k < n
        invariant
            k <= n,
            n == least(a@.len() as int, p.coords_spec().len() as int),
            sum == ellipsoid_sum(a@, p.coords_spec(), k as int),
        decreases n - k,
    {
        let x = p.coord(k);
        let e = a[k];
        sum = sum.add(x.mul(x).div(e.mul(e)));
        k += 1;
    }
    sum.sqrt()
}

/// The components of `touching`.
pub fn touching_comps<P: Point>(a: &[P::R], d: &P, n: P::R) -> (v: Vec<P::R>)
    requires
        a@.len() == d.coords_spec().len(),
    ensures
        v@ == touching(a@, d.coords_spec(), n),
{
    let dim = d.dim();
    let mut v: Vec<P::R> = Vec::new();
    let mut k: usize = 0;
    while k < dim
        invariant
            k <= dim,
            dim == d.coords_spec().len(),
            dim == a@.len(),
            v@.len() == k,
            forall|j: int|
                0 <= j < k ==> #[trigger] v@[j] == d.coords_spec()[j].div_spec(n).div_spec(
                    a@[j].mul_spec(a@[j]),
                ),
        decreases dim - k,
    {
        let e = a[k];
        v.push(d.coord(k).div(n).div(e.mul(e)));
        k += 1;
    }
    proof {
        assert(v@ =~= touching(a@, d.coords_spec(), n));
    }
    v
}

} // verus!
