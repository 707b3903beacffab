//! Minkowski spaces: a norm, and the distance that it induces.

use crate::point::{seq_div, seq_sub, Point};
use crate::scalar::Real;
use vstd::prelude::*;

verus! {

/// Euclidean space.
#[derive(Debug)]
pub struct EuclideanSpace;

/// The space with the `p`-norm, `1 <= p`.
#[derive(Debug)]
pub struct LpSpace<R> {
    p: R,
}

/// Marks the space with the maximum norm: `LpSpace<LInfinity>`.
#[derive(Debug)]
pub struct LInfinity;

/// A normed space over the coordinates of `P`.
pub trait MinkowskiSpace<P: Point>: Sized {
    /// The norm of the vector with coordinates `c`.
    open spec fn norm_spec(&self, c: Seq<P::R>) -> P::R {
        arbitrary()
    }

    /// The norm of `p`.
    fn norm(&self, p: &P) -> (r: P::R)
        ensures
            r == self.norm_spec(p.coords_spec()),
    ;

    /// The distance between `p1` and `p2`.
    fn dist(&self, p1: &P, p2: &P) -> (r: P::R)
        requires
            p1.coords_spec().len() == p2.coords_spec().len(),
        ensures
            r == self.norm_spec(seq_sub(p1.coords_spec(), p2.coords_spec())),
    {
        let mut d = p1.duplicate();
        d.sub(p2);
        self.norm(&d)
    }
}

/// The distance that `geo` gives the points with coordinates `a` and `b`: the
/// norm of their difference.
pub open spec fn dist_spec<P: Point, M: MinkowskiSpace<P>>(
    geo: &M,
    a: Seq<P::R>,
    b: Seq<P::R>,
) -> P::R {
    geo.norm_spec(seq_sub(a, b))
}

/// The sum of the squares of `c`, from the first coordinate on.
pub open spec fn square_sum<R: Real>(c: Seq<R>) -> R
    decreases c.len(),
{
    if c.len() == 0 {
        R::zero_spec()
    } else {
        square_sum(c.drop_last()).add_spec(c.last().mul_spec(c.last()))
    }
}

/// The sum of `|c[k]|^p`, from the first coordinate on.
pub open spec fn power_sum<R: Real>(c: Seq<R>, p: R) -> R
    decreases c.len(),
{
    if c.len() == 0 {
        R::zero_spec()
    } else {
        power_sum(c.drop_last(), p).add_spec(c.last().abs_spec().pow_spec(p))
    }
}

/// The largest absolute value among the coordinates: from zero, each
/// coordinate `c` turns the value `a` so far into `max(a, |c|)`.
pub open spec fn max_fold<R: Real>(c: Seq<R>) -> R
    decreases c.len(),
{
    if c.len() == 0 {
        R::zero_spec()
    } else {
        max_fold(c.drop_last()).max_spec(c.last().abs_spec())
    }
}

/// The Euclidean norm of `c`.
pub open spec fn euclidean_norm<R: Real>(c: Seq<R>) -> R {
    square_sum(c).sqrt_spec()
}

/// The `p`-norm of `c`.
pub open spec fn lp_norm<R: Real>(c: Seq<R>, p: R) -> R {
    power_sum(c, p).pow_spec(p.recip_spec())
}

impl EuclideanSpace {
    /// Euclidean space.
    pub fn new() -> (s: Self) {
        EuclideanSpace
    }
}

impl<P: Point> MinkowskiSpace<P> for EuclideanSpace {
    open spec fn norm_spec(&self, c: Seq<P::R>) -> P::R {
        euclidean_norm(c)
    }

    fn norm(&self, p: &P) -> (r: P::R) {
        let n = p.dim();
        let mut sum = P::R::zero();
        let mut k: usize = 0;
        while k < n
            invariant
                k <= n,
                n == p.coords_spec().len(),
                sum == square_sum(p.coords_spec().take(k as int)),
            decreases n - k,
        {
            proof {
                assert(p.coords_spec().take(k + 1).drop_last() =~= p.coords_spec().take(k as int));
            }
            let c = p.coord(k);
            sum = sum.add(c.mul(c));
            k += 1;
        }
        proof {
            assert(p.coords_spec().take(n as int) =~= p.coords_spec());
        }
        sum.sqrt()
    }

    fn dist(&self, p1: &P, p2: &P) -> (r: P::R) {
        let n = p1.dim();
        let ghost d = seq_sub(p1.coords_spec(), p2.coords_spec());
        let mut sum = P::R::zero();
        let mut k: usize = 0;
        while k < n
            invariant
                k <= n,
                n == p1.coords_spec().len(),
                n == p2.coords_spec().len(),
                d == seq_sub(p1.coords_spec(), p2.coords_spec()),
                sum == square_sum(d.take(k as int)),
            decreases n - k,
        {
            proof {
                lemma_seq_sub_take(p1.coords_spec(), p2.coords_spec(), k as int);
            }
            let c = p1.coord(k).sub(p2.coord(k));
            sum = sum.add(c.mul(c));
            k += 1;
        }
        proof {
            assert(d.take(n as int) =~= d);
        }
        sum.sqrt()
    }
}

impl<R> LpSpace<R> {
    /// The exponent.
    pub closed spec fn spec_p(&self) -> R {
        self.p
    }
}

impl<R: Real> LpSpace<R> {
    /// The space with the `p`-norm.
    pub fn new(p: R) -> (s: Self)
        ensures
            s.spec_p() == p,
    {
        LpSpace { p }
    }

    /// The exponent.
    pub fn p(&self) -> (p: R)
        ensures
            p == self.spec_p(),
    {
        self.p
    }
}

impl LpSpace<LInfinity> {
    /// The space with the maximum norm.
    pub fn infinity() -> (s: Self) {
        LpSpace { p: LInfinity }
    }
}

impl<R: Real, P: Point<R = R>> MinkowskiSpace<P> for LpSpace<R> {
    open spec fn norm_spec(&self, c: Seq<R>) -> R {
        lp_norm(c, self.spec_p())
    }

    fn norm(&self, p: &P) -> (r: R) {
        let n = p.dim();
        let mut sum = R::zero();
        let mut k: usize = 0;
        while k < n
            invariant
                k <= n,
                n == p.coords_spec().len(),
                sum == power_sum(p.coords_spec().take(k as int), self.p),
            decreases n - k,
        {
            proof {
                assert(p.coords_spec().take(k + 1).drop_last() =~= p.coords_spec().take(k as int));
            }
            sum = sum.add(p.coord(k).abs().pow(self.p));
            k += 1;
        }
        proof {
            assert(p.coords_spec().take(n as int) =~= p.coords_spec());
        }
        sum.pow(self.p.recip())
    }

    fn dist(&self, p1: &P, p2: &P) -> (r: R) {
        let n = p1.dim();
        let ghost d = seq_sub(p1.coords_spec(), p2.coords_spec());
        let mut sum = R::zero();
        let mut k: usize = 0;
        while k < n
            invariant
                k <= n,
                n == p1.coords_spec().len(),
                n == p2.coords_spec().len(),
                d == seq_sub(p1.coords_spec(), p2.coords_spec()),
                sum == power_sum(d.take(k as int), self.p),
            decreases n - k,
        {
            proof {
                lemma_seq_sub_take(p1.coords_spec(), p2.coords_spec(), k as int);
            }
            sum = sum.add(p1.coord(k).sub(p2.coord(k)).abs().pow(self.p));
            k += 1;
        }
        proof {
            assert(d.take(n as int) =~= d);
        }
        sum.pow(self.p.recip())
    }
}

impl<P: Point> MinkowskiSpace<P> for LpSpace<LInfinity> {
    open spec fn norm_spec(&self, c: Seq<P::R>) -> P::R {
        max_fold(c)
    }

    fn norm(&self, p: &P) -> (r: P::R) {
        let n = p.dim();
        let mut a = P::R::zero();
        let mut k: usize = 0;
        while k < n
            invariant
                k <= n,
                n == p.coords_spec().len(),
                a == max_fold(p.coords_spec().take(k as int)),
            decreases n - k,
        {
            proof {
                assert(p.coords_spec().take(k + 1).drop_last() =~= p.coords_spec().take(k as int));
            }
            a = a.max(p.coord(k).abs());
            k += 1;
        }
        proof {
            assert(p.coords_spec().take(n as int) =~= p.coords_spec());
        }
        a
    }

    fn dist(&self, p1: &P, p2: &P) -> (r: P::R) {
        let n = p1.dim();
        let ghost d = seq_sub(p1.coords_spec(), p2.coords_spec());
        let mut a = P::R::zero();
        let mut k: usize = 0;
        while k < n
            invariant
                k <= n,
                n == p1.coords_spec().len(),
                n == p2.coords_spec().len(),
                d == seq_sub(p1.coords_spec(), p2.coords_spec()),
                a == max_fold(d.take(k as int)),
            decreases n - k,
        {
            proof {
                lemma_seq_sub_take(p1.coords_spec(), p2.coords_spec(), k as int);
            }
            a = a.max(p1.coord(k).sub(p2.coord(k)).abs());
            k += 1;
        }
        proof {
            assert(d.take(n as int) =~= d);
        }
        a
    }
}

/// Divides `p` by the norm that `geo` gives it.
pub fn unit<P: Point, M: MinkowskiSpace<P>>(p: &mut P, geo: &M)
    ensures
        final(p).id_spec() == old(p).id_spec(),
        final(p).coords_spec()
            == seq_div(old(p).coords_spec(), geo.norm_spec(old(p).coords_spec())),
{
    let norm = geo.norm(p);
    p.div(norm);
}

/// Taking one more coordinate of a difference.
pub proof fn lemma_seq_sub_take<R: Real>(a: Seq<R>, b: Seq<R>, k: int)
    requires
        0 <= k < a.len(),
        a.len() == b.len(),
    ensures
        seq_sub(a, b).take(k + 1).drop_last() == seq_sub(a, b).take(k),
        seq_sub(a, b).take(k + 1).last() == a[k].sub_spec(b[k]),
        seq_sub(a, b).take(a.len() as int) == seq_sub(a, b),
{
    assert(seq_sub(a, b).take(k + 1).drop_last() =~= seq_sub(a, b).take(k));
    assert(seq_sub(a, b).take(a.len() as int) =~= seq_sub(a, b));
}

} // verus!
