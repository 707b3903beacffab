//! Hyperplanes `a . x = 1`, by their components `a`.

use crate::point::{seq_div, Point};
use crate::scalar::Real;
use crate::space::{euclidean_norm, square_sum};
use vstd::prelude::*;

verus! {

/// A hyperplane of any dimension.
#[derive(Debug)]
pub struct HyperplaneNd<R> {
    comp: Vec<R>,
}

/// A line of the plane.
#[derive(Debug)]
pub struct Line<R> {
    comp: [R; 2],
}

/// A plane of space.
#[derive(Debug)]
pub struct Plane<R> {
    comp: [R; 3],
}

/// A hyperplane in the space of `P`.
pub trait Hyperplane<P: Point>: Sized {
    /// The components.
    open spec fn comps_spec(&self) -> Seq<P::R> {
        arbitrary()
    }

    /// The components.
    fn comps(&self) -> (c: &[P::R])
        ensures
            c@ == self.comps_spec(),
    ;

    /// Overwrites component `k`.
    fn set_comp(&mut self, k: usize, c: P::R)
        requires
            k < old(self).comps_spec().len(),
        ensures
            final(self).comps_spec() == old(self).comps_spec().update(k as int, c),
    ;

    /// Moves the hyperplane, parallel to itself, through `p`: the
    /// components are divided by `a . p`.
    fn translate(&mut self, p: &P)
        requires
            old(self).comps_spec().len() == p.coords_spec().len(),
        ensures
            final(self).comps_spec() == seq_div(
                old(self).comps_spec(),
                dot_from(P::R::zero_spec(), old(self).comps_spec(), p.coords_spec()),
            ),
    {
        let n = p.dim();
        let mut d = P::R::zero();
        let mut k: usize = 0;
        while k < n
            invariant
                k <= n,
                *self == *old(self),
                n == self.comps_spec().len(),
                n == p.coords_spec().len(),
                d == dot_from(
                    P::R::zero_spec(),
                    self.comps_spec().take(k as int),
                    p.coords_spec().take(k as int),
                ),
            decreases n - k,
        {
            proof {
                assert(self.comps_spec().take(k
                    + 1).drop_last() =~= self.comps_spec().take(k as int));
                assert(p.coords_spec().take(k + 1).drop_last() =~= p.coords_spec().take(k as int));
            }
            d = d.add(self.comps()[k].mul(p.coord(k)));
            k += 1;
        }
        proof {
            assert(self.comps_spec().take(n as int) =~= self.comps_spec());
            assert(p.coords_spec().take(n as int) =~= p.coords_spec());
        }
        k = 0;
        while k < n
            invariant
                k <= n,
                n == self.comps_spec().len(),
                n == old(self).comps_spec().len(),
                forall|j: int|
                    0 <= j < k ==> #[trigger] self.comps_spec()[j]
                        == old(self).comps_spec()[j].div_spec(
                        d,
                    ),
                forall|j: int| k <= j < n
                    ==> #[trigger] self.comps_spec()[j] == old(self).comps_spec()[j],
            decreases n - k,
        {
            let c = self.comps()[k].div(d);
            self.set_comp(k, c);
            k += 1;
        }
        proof {
            assert(self.comps_spec() =~= seq_div(old(self).comps_spec(), d));
        }
    }

    /// The Euclidean distance to `p`.
    fn eucl_dist(&self, p: &P) -> (r: P::R)
        requires
            self.comps_spec().len() == p.coords_spec().len(),
        ensures
            r == plane_dist(self.comps_spec(), p.coords_spec()),
    {
        let n = p.dim();
        let mut dotm1 = P::R::one().neg();
        let mut sqsum = P::R::zero();
        let mut k: usize = 0;
        while k < n
            invariant
                k <= n,
                n == self.comps_spec().len(),
                n == p.coords_spec().len(),
                dotm1 == dot_from(
                    P::R::one_spec().neg_spec(),
                    self.comps_spec().take(k as int),
                    p.coords_spec().take(k as int),
                ),
                sqsum == square_sum(self.comps_spec().take(k as int)),
            decreases n - k,
        {
            proof {
                assert(self.comps_spec().take(k
                    + 1).drop_last() =~= self.comps_spec().take(k as int));
                assert(p.coords_spec().take(k + 1).drop_last() =~= p.coords_spec().take(k as int));
            }
            let a = self.comps()[k];
            dotm1 = dotm1.add(a.mul(p.coord(k)));
            sqsum = sqsum.add(a.mul(a));
            k += 1;
        }
        proof {
            assert(self.comps_spec().take(n as int) =~= self.comps_spec());
            assert(p.coords_spec().take(n as int) =~= p.coords_spec());
        }
        dotm1.abs().div(sqsum.sqrt())
    }

    /// Writes to `p` the normal of the hyperplane, of Euclidean length one.
    fn normal(&self, p: &mut P)
        requires
            self.comps_spec().len() == old(p).coords_spec().len(),
        ensures
            final(p).coords_spec() == seq_div(self.comps_spec(), euclidean_norm(self.comps_spec())),
            final(p).id_spec() == old(p).id_spec(),
    {
        let n = p.dim();
        let mut sum = P::R::zero();
        let mut k: usize = 0;
        while k < n
            invariant
                k <= n,
                n == self.comps_spec().len(),
                n == p.coords_spec().len(),
                p.id_spec() == old(p).id_spec(),
                forall|j: int| 0 <= j < k ==> #[trigger] p.coords_spec()[j] == self.comps_spec()[j],
                sum == square_sum(self.comps_spec().take(k as int)),
            decreases n - k,
        {
            proof {
                assert(self.comps_spec().take(k
                    + 1).drop_last() =~= self.comps_spec().take(k as int));
            }
            let c = self.comps()[k];
            p.set_coord(k, c);
            sum = sum.add(c.mul(c));
            k += 1;
        }
        proof {
            assert(self.comps_spec().take(n as int) =~= self.comps_spec());
            assert(p.coords_spec() =~= self.comps_spec());
        }
        p.div(sum.sqrt());
    }
}

/// The dot product of two lists of one length, summed from the first place
/// on, starting at `init`.
pub open spec fn dot_from<R: Real>(init: R, a: Seq<R>, b: Seq<R>) -> R
    decreases a.len(),
{
    if a.len() == 0 {
        init
    } else {
        dot_from(init, a.drop_last(), b.drop_last()).add_spec(a.last().mul_spec(b.last()))
    }
}

/// The Euclidean distance from the hyperplane with components `a` to the
/// point with coordinates `x`: `|a . x - 1| / |a|`.
pub open spec fn plane_dist<R: Real>(a: Seq<R>, x: Seq<R>) -> R {
    dot_from(R::one_spec().neg_spec(), a, x).abs_spec().div_spec(square_sum(a).sqrt_spec())
}

impl<R: Real> HyperplaneNd<R> {
    /// The components.
    pub closed spec fn spec_comp(&self) -> Seq<R> {
        self.comp@
    }

    /// The hyperplane with the components `c`.
    pub fn new(c: Vec<R>) -> (h: Self)
        ensures
            h.spec_comp() == c@,
    {
        HyperplaneNd { comp: c }
    }
}

impl<R: Real, P: Point<R = R>> Hyperplane<P> for HyperplaneNd<R> {
    open spec fn comps_spec(&self) -> Seq<R> {
        self.spec_comp()
    }

    fn comps(&self) -> (c: &[R]) {
        self.comp.as_slice()
    }

    fn set_comp(&mut self, k: usize, c: R) {
        self.comp[k] = c;
    }
}

impl<R: Real> Line<R> {
    /// The components.
    pub closed spec fn spec_comp(&self) -> Seq<R> {
        self.comp@
    }

    /// The line with the components `c`.
    pub fn new(c: [R; 2]) -> (h: Self)
        ensures
            h.spec_comp() == c@,
    {
        Line { comp: c }
    }
}

impl<R: Real, P: Point<R = R>> Hyperplane<P> for Line<R> {
    open spec fn comps_spec(&self) -> Seq<R> {
        self.spec_comp()
    }

    fn comps(&self) -> (c: &[R]) {
        self.comp.as_slice()
    }

    fn set_comp(&mut self, k: usize, c: R) {
        self.comp[k] = c;
    }
}

impl<R: Real> Plane<R> {
    /// The components.
    pub closed spec fn spec_comp(&self) -> Seq<R> {
        self.comp@
    }

    /// The plane with the components `c`.
    pub fn new(c: [R; 3]) -> (h: Self)
        ensures
            h.spec_comp() == c@,
    {
        Plane { comp: c }
    }
}

impl<R: Real, P: Point<R = R>> Hyperplane<P> for Plane<R> {
    open spec fn comps_spec(&self) -> Seq<R> {
        self.spec_comp()
    }

    fn comps(&self) -> (c: &[R]) {
        self.comp.as_slice()
    }

    fn set_comp(&mut self, k: usize, c: R) {
        self.comp[k] = c;
    }
}

} // verus!
