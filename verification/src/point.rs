//! Points: a list of coordinates and an identity.

use crate::scalar::Real;
use vstd::prelude::*;

verus! {

/// The dot product of two coordinate lists of one length, summed from the
/// first coordinate on, starting at zero.
pub open spec fn dot_spec<R: Real>(a: Seq<R>, b: Seq<R>) -> R
    decreases a.len(),
{
    if a.len() == 0 {
        R::zero_spec()
    } else {
        dot_spec(a.drop_last(), b.drop_last()).add_spec(a.last().mul_spec(b.last()))
    }
}

/// The coordinates `a[k] + b[k]`.
pub open spec fn seq_add<R: Real>(a: Seq<R>, b: Seq<R>) -> Seq<R> {
    Seq::new(a.len(), |k: int| a[k].add_spec(b[k]))
}

/// The coordinates `a[k] - b[k]`.
pub open spec fn seq_sub<R: Real>(a: Seq<R>, b: Seq<R>) -> Seq<R> {
    Seq::new(a.len(), |k: int| a[k].sub_spec(b[k]))
}

/// The coordinates `a[k] * r`.
pub open spec fn seq_mul<R: Real>(a: Seq<R>, r: R) -> Seq<R> {
    Seq::new(a.len(), |k: int| a[k].mul_spec(r))
}

/// The coordinates `a[k] / r`.
pub open spec fn seq_div<R: Real>(a: Seq<R>, r: R) -> Seq<R> {
    Seq::new(a.len(), |k: int| a[k].div_spec(r))
}

/// The coordinates `-a[k]`.
pub open spec fn seq_neg<R: Real>(a: Seq<R>) -> Seq<R> {
    Seq::new(a.len(), |k: int| a[k].neg_spec())
}

/// Whether every coordinate compares equal to zero.
pub open spec fn seq_is_zero<R: Real>(a: Seq<R>) -> bool {
    forall|k: int| 0 <= k < a.len() ==> (#[trigger] a[k]).equals_spec(R::zero_spec())
}

/// Whether the two lists compare equal at every place that both have.
pub open spec fn seq_equals<R: Real>(a: Seq<R>, b: Seq<R>) -> bool {
    forall|k: int| 0 <= k < a.len() && k < b.len() ==> (#[trigger] a[k]).equals_spec(b[k])
}

/// Whether every coordinate is a number.
pub open spec fn seq_all_numbers<R: Real>(a: Seq<R>) -> bool {
    forall|k: int| 0 <= k < a.len() ==> (#[trigger] a[k]).is_number_spec()
}

/// A point of a real vector space, with an identity that its owner assigns.
///
/// Two points are the same point to the library when their coordinates and
/// identities agree; `equals` compares coordinates only.
pub trait Point: Sized {
    type R: Real;

    /// The coordinates, first to last.
    open spec fn coords_spec(&self) -> Seq<Self::R> {
        arbitrary()
    }

    /// The identity.
    open spec fn id_spec(&self) -> usize {
        arbitrary()
    }

    /// The number of coordinates.
    fn dim(&self) -> (d: usize)
        ensures
            d == self.coords_spec().len(),
    ;

    /// The coordinates as a slice.
    fn coords(&self) -> (c: &[Self::R])
        ensures
            c@ == self.coords_spec(),
    ;

    /// Overwrites coordinate `k`.
    fn set_coord(&mut self, k: usize, c: Self::R)
        requires
            k < old(self).coords_spec().len(),
        ensures
            final(self).coords_spec() == old(self).coords_spec().update(k as int, c),
            final(self).id_spec() == old(self).id_spec(),
    ;

    /// The identity.
    fn id(&self) -> (id: usize)
        ensures
            id == self.id_spec(),
    ;

    /// Assigns the identity.
    fn set_id(&mut self, id: usize)
        ensures
            final(self).id_spec() == id,
            final(self).coords_spec() == old(self).coords_spec(),
    ;

    /// A copy with the same coordinates and identity.
    fn duplicate(&self) -> (r: Self)
        ensures
            r.coords_spec() == self.coords_spec(),
            r.id_spec() == self.id_spec(),
    ;

    /// Coordinate `k`.
    fn coord(&self, k: usize) -> (c: Self::R)
        requires
            k < self.coords_spec().len(),
        ensures
            c == self.coords_spec()[k as int],
    {
        self.coords()[k]
    }

    /// The dot product with `o`.
    fn dot(&self, o: &Self) -> (r: Self::R)
        requires
            self.coords_spec().len() == o.coords_spec().len(),
        ensures
            r == dot_spec(self.coords_spec(), o.coords_spec()),
    {
        let n = self.dim();
        let mut acc = Self::R::zero();
        let mut k: usize = 0;
        while k < n
            invariant
                k <= n,
                n == self.coords_spec().len(),
                n == o.coords_spec().len(),
                acc == dot_spec(self.coords_spec().take(k as int), o.coords_spec().take(k as int)),
            decreases n - k,
        {
            proof {
                assert(self.coords_spec().take(k + 1).drop_last() =~= self.coords_spec().take(
                    k as int,
                ));
                assert(o.coords_spec().take(k + 1).drop_last() =~= o.coords_spec().take(k as int));
            }
            acc = acc.add(self.coord(k).mul(o.coord(k)));
            k += 1;
        }
        proof {
            assert(self.coords_spec().take(n as int) =~= self.coords_spec());
            assert(o.coords_spec().take(n as int) =~= o.coords_spec());
        }
        acc
    }

    /// Whether every coordinate compares equal to zero.
    fn is_zero(&self) -> (b: bool)
        ensures
            b == seq_is_zero(self.coords_spec()),
    {
        let n = self.dim();
        let mut k: usize = 0;
        while k < n
            invariant
                k <= n,
                n == self.coords_spec().len(),
                forall|j: int|
                    0 <= j < k ==> (#[trigger] self.coords_spec()[j]).equals_spec(
                        Self::R::zero_spec(),
                    ),
            decreases n - k,
        {
            if !self.coord(k).equals(Self::R::zero()) {
                return false;
            }
            k += 1;
        }
        true
    }

    /// Whether the coordinates compare equal to those of `o`, place by place.
    fn equals(&self, o: &Self) -> (b: bool)
        ensures
            b == seq_equals(self.coords_spec(), o.coords_spec()),
    {
        let n = if self.dim() < o.dim() {
            self.dim()
        } else {
            o.dim()
        };
        let mut k: usize = 0;
        while k < n
            invariant
                k <= n,
                n <= self.coords_spec().len(),
                n <= o.coords_spec().len(),
                n == self.coords_spec().len() || n == o.coords_spec().len(),
                forall|j: int|
                    0 <= j < k ==> (#[trigger] self.coords_spec()[j]).equals_spec(
                        o.coords_spec()[j],
                    ),
            decreases n - k,
        {
            if !self.coord(k).equals(o.coord(k)) {
                return false;
            }
            k += 1;
        }
        true
    }

    /// Replaces each coordinate `c` by `f(c, oc)`, `oc` being the coordinate of
    /// `p` at the same place.
    fn modify<F: Fn(Self::R, Self::R) -> Self::R>(&mut self, p: &Self, f: &F)
        requires
            old(self).coords_spec().len() == p.coords_spec().len(),
            forall|a: Self::R, b: Self::R| f.requires((a, b)),
        ensures
            final(self).id_spec() == old(self).id_spec(),
            final(self).coords_spec().len() == old(self).coords_spec().len(),
            forall|k: int|
                0 <= k < old(self).coords_spec().len() ==> f.ensures(
                    (old(self).coords_spec()[k], p.coords_spec()[k]),
                    #[trigger] final(self).coords_spec()[k],
                ),
    {
        let n = self.dim();
        let mut k: usize = 0;
        while k < n
            invariant
                k <= n,
                n == self.coords_spec().len(),
                n == p.coords_spec().len(),
                n == old(self).coords_spec().len(),
                self.id_spec() == old(self).id_spec(),
                forall|a: Self::R, b: Self::R| f.requires((a, b)),
                forall|j: int|
                    0 <= j < k ==> f.ensures(
                        (old(self).coords_spec()[j], p.coords_spec()[j]),
                        #[trigger] self.coords_spec()[j],
                    ),
                forall|j: int| k <= j < n ==> self.coords_spec()[j] == old(self).coords_spec()[j],
            decreases n - k,
        {
            let c = f(self.coord(k), p.coord(k));
            self.set_coord(k, c);
            k += 1;
        }
    }

    /// Replaces each coordinate `c` by `f(c)`.
    fn scale<F: Fn(Self::R) -> Self::R>(&mut self, f: &F)
        requires
            forall|a: Self::R| f.requires((a,)),
        ensures
            final(self).id_spec() == old(self).id_spec(),
            final(self).coords_spec().len() == old(self).coords_spec().len(),
            forall|k: int|
                0 <= k < old(self).coords_spec().len() ==> f.ensures(
                    (old(self).coords_spec()[k],),
                    #[trigger] final(self).coords_spec()[k],
                ),
    {
        let n = self.dim();
        let mut k: usize = 0;
        while k < n
            invariant
                k <= n,
                n == self.coords_spec().len(),
                n == old(self).coords_spec().len(),
                self.id_spec() == old(self).id_spec(),
                forall|a: Self::R| f.requires((a,)),
                forall|j: int|
                    0 <= j < k ==> f.ensures(
                        (old(self).coords_spec()[j],),
                        #[trigger] self.coords_spec()[j],
                    ),
                forall|j: int| k <= j < n ==> self.coords_spec()[j] == old(self).coords_spec()[j],
            decreases n - k,
        {
            let c = f(self.coord(k));
            self.set_coord(k, c);
            k += 1;
        }
    }

    /// Adds `rhs`, coordinate by coordinate.
    fn add(&mut self, rhs: &Self)
        requires
            old(self).coords_spec().len() == rhs.coords_spec().len(),
        ensures
            final(self).id_spec() == old(self).id_spec(),
            final(self).coords_spec() == seq_add(old(self).coords_spec(), rhs.coords_spec()),
    {
        self.modify(
            rhs,
            &(|c: Self::R, oc: Self::R| -> (r: Self::R)
                ensures
                    r == c.add_spec(oc),
                { c.add(oc) }),
        );
        proof {
            assert(self.coords_spec() =~= seq_add(old(self).coords_spec(), rhs.coords_spec()));
        }
    }

    /// Subtracts `rhs`, coordinate by coordinate.
    fn sub(&mut self, rhs: &Self)
        requires
            old(self).coords_spec().len() == rhs.coords_spec().len(),
        ensures
            final(self).id_spec() == old(self).id_spec(),
            final(self).coords_spec() == seq_sub(old(self).coords_spec(), rhs.coords_spec()),
    {
        self.modify(
            rhs,
            &(|c: Self::R, oc: Self::R| -> (r: Self::R)
                ensures
                    r == c.sub_spec(oc),
                { c.sub(oc) }),
        );
        proof {
            assert(self.coords_spec() =~= seq_sub(old(self).coords_spec(), rhs.coords_spec()));
        }
    }

    /// Multiplies every coordinate by `rhs`.
    fn mul(&mut self, rhs: Self::R)
        ensures
            final(self).id_spec() == old(self).id_spec(),
            final(self).coords_spec() == seq_mul(old(self).coords_spec(), rhs),
    {
        self.scale(
            &(|c: Self::R| -> (r: Self::R)
                ensures
                    r == c.mul_spec(rhs),
                { c.mul(rhs) }),
        );
        proof {
            assert(self.coords_spec() =~= seq_mul(old(self).coords_spec(), rhs));
        }
    }

    /// Divides every coordinate by `rhs`.
    fn div(&mut self, rhs: Self::R)
        ensures
            final(self).id_spec() == old(self).id_spec(),
            final(self).coords_spec() == seq_div(old(self).coords_spec(), rhs),
    {
        self.scale(
            &(|c: Self::R| -> (r: Self::R)
                ensures
                    r == c.div_spec(rhs),
                { c.div(rhs) }),
        );
        proof {
            assert(self.coords_spec() =~= seq_div(old(self).coords_spec(), rhs));
        }
    }

    /// Negates every coordinate.
    fn neg(&mut self)
        ensures
            final(self).id_spec() == old(self).id_spec(),
            final(self).coords_spec() == seq_neg(old(self).coords_spec()),
    {
        self.scale(
            &(|c: Self::R| -> (r: Self::R)
                ensures
                    r == c.neg_spec(),
                { c.neg() }),
        );
        proof {
            assert(self.coords_spec() =~= seq_neg(old(self).coords_spec()));
        }
    }

    /// Takes over the coordinates of `o`; the identity stays.
    fn copy(&mut self, o: &Self)
        requires
            old(self).coords_spec().len() == o.coords_spec().len(),
        ensures
            final(self).id_spec() == old(self).id_spec(),
            final(self).coords_spec() == o.coords_spec(),
    {
        self.modify(
            o,
            &(|c: Self::R, oc: Self::R| -> (r: Self::R)
                ensures
                    r == oc,
                { oc }),
        );
        proof {
            assert(self.coords_spec() =~= o.coords_spec());
        }
    }
}

/// A point of any dimension.
#[derive(Debug)]
pub struct PointNd<N> {
    coords: Vec<N>,
    id: usize,
}

impl<N> PointNd<N> {
    /// The coordinates, first to last.
    pub closed spec fn spec_coords(&self) -> Seq<N> {
        self.coords@
    }

    /// The identity.
    pub closed spec fn spec_id(&self) -> usize {
        self.id
    }

    /// The point with coordinates `c` and identity 0.
    pub fn new(c: Vec<N>) -> (p: PointNd<N>)
        ensures
            p.spec_coords() == c@,
            p.spec_id() == 0,
    {
        PointNd { coords: c, id: 0 }
    }
}

impl<R: Real> Point for PointNd<R> {
    type R = R;

    open spec fn coords_spec(&self) -> Seq<R> {
        self.spec_coords()
    }

    open spec fn id_spec(&self) -> usize {
        self.spec_id()
    }

    fn dim(&self) -> (d: usize) {
        self.coords.len()
    }

    fn coords(&self) -> (c: &[R]) {
        self.coords.as_slice()
    }

    fn set_coord(&mut self, k: usize, c: R) {
        self.coords[k] = c;
    }

    fn id(&self) -> (id: usize) {
        self.id
    }

    fn set_id(&mut self, id: usize) {
        self.id = id;
    }

    fn duplicate(&self) -> (r: Self) {
        let mut v: Vec<R> = Vec::new();
        let mut k: usize = 0;
        while k < self.coords.len()
            invariant
                k <= self.coords.len(),
                v@ == self.coords@.take(k as int),
            decreases self.coords.len() - k,
        {
            v.push(self.coords[k]);
            k += 1;
        }
        PointNd { coords: v, id: self.id }
    }
}

impl<R: Real> Clone for PointNd<R> {
    fn clone(&self) -> (r: Self)
        ensures
            r.spec_coords() == self.spec_coords(),
            r.spec_id() == self.spec_id(),
    {
        self.duplicate()
    }
}

/// A point of the plane.
#[derive(Debug)]
pub struct Point2d<E> {
    coords: [E; 2],
    id: usize,
}

impl<E> Point2d<E> {
    /// The coordinates, first to last.
    pub closed spec fn spec_coords(&self) -> Seq<E> {
        self.coords@
    }

    /// The identity.
    pub closed spec fn spec_id(&self) -> usize {
        self.id
    }

    /// The point with coordinates `c` and identity 0.
    pub fn new(c: [E; 2]) -> (p: Point2d<E>)
        ensures
            p.spec_coords() == c@,
            p.spec_id() == 0,
    {
        Point2d { coords: c, id: 0 }
    }

    /// The coordinates as an array.
    pub fn arr(&self) -> (a: &[E; 2])
        ensures
            a@ == self.spec_coords(),
    {
        &self.coords
    }
}

impl<R: Real> Point for Point2d<R> {
    type R = R;

    open spec fn coords_spec(&self) -> Seq<R> {
        self.spec_coords()
    }

    open spec fn id_spec(&self) -> usize {
        self.spec_id()
    }

    fn dim(&self) -> (d: usize) {
        2
    }

    fn coords(&self) -> (c: &[R]) {
        self.coords.as_slice()
    }

    fn set_coord(&mut self, k: usize, c: R) {
        self.coords[k] = c;
    }

    fn id(&self) -> (id: usize) {
        self.id
    }

    fn set_id(&mut self, id: usize) {
        self.id = id;
    }

    fn duplicate(&self) -> (r: Self) {
        let r = Point2d { coords: [self.coords[0], self.coords[1]], id: self.id };
        proof {
            assert(r.coords@ =~= self.coords@);
        }
        r
    }
}

impl<R: Real> Clone for Point2d<R> {
    fn clone(&self) -> (r: Self)
        ensures
            r.spec_coords() == self.spec_coords(),
            r.spec_id() == self.spec_id(),
    {
        self.duplicate()
    }
}

/// A point of space.
#[derive(Debug)]
pub struct Point3d<E> {
    coords: [E; 3],
    id: usize,
}

impl<E> Point3d<E> {
    /// The coordinates, first to last.
    pub closed spec fn spec_coords(&self) -> Seq<E> {
        self.coords@
    }

    /// The identity.
    pub closed spec fn spec_id(&self) -> usize {
        self.id
    }

    /// The point with coordinates `c` and identity 0.
    pub fn new(c: [E; 3]) -> (p: Point3d<E>)
        ensures
            p.spec_coords() == c@,
            p.spec_id() == 0,
    {
        Point3d { coords: c, id: 0 }
    }

    /// The coordinates as an array.
    pub fn arr(&self) -> (a: &[E; 3])
        ensures
            a@ == self.spec_coords(),
    {
        &self.coords
    }
}

impl<R: Real> Point for Point3d<R> {
    type R = R;

    open spec fn coords_spec(&self) -> Seq<R> {
        self.spec_coords()
    }

    open spec fn id_spec(&self) -> usize {
        self.spec_id()
    }

    fn dim(&self) -> (d: usize) {
        3
    }

    fn coords(&self) -> (c: &[R]) {
        self.coords.as_slice()
    }

    fn set_coord(&mut self, k: usize, c: R) {
        self.coords[k] = c;
    }

    fn id(&self) -> (id: usize) {
        self.id
    }

    fn set_id(&mut self, id: usize) {
        self.id = id;
    }

    fn duplicate(&self) -> (r: Self) {
        let r = Point3d { coords: [self.coords[0], self.coords[1], self.coords[2]], id: self.id };
        proof {
            assert(r.coords@ =~= self.coords@);
        }
        r
    }
}

impl<R: Real> Clone for Point3d<R> {
    fn clone(&self) -> (r: Self)
        ensures
            r.spec_coords() == self.spec_coords(),
            r.spec_id() == self.spec_id(),
    {
        self.duplicate()
    }
}

/// A point of four dimensions.
#[derive(Debug)]
pub struct Point4d<E> {
    coords: [E; 4],
    id: usize,
}

impl<E> Point4d<E> {
    /// The coordinates, first to last.
    pub closed spec fn spec_coords(&self) -> Seq<E> {
        self.coords@
    }

    /// The identity.
    pub closed spec fn spec_id(&self) -> usize {
        self.id
    }

    /// The point with coordinates `c` and identity 0.
    pub fn new(c: [E; 4]) -> (p: Point4d<E>)
        ensures
            p.spec_coords() == c@,
            p.spec_id() == 0,
    {
        Point4d { coords: c, id: 0 }
    }

    /// The coordinates as an array.
    pub fn arr(&self) -> (a: &[E; 4])
        ensures
            a@ == self.spec_coords(),
    {
        &self.coords
    }
}

impl<R: Real> Point for Point4d<R> {
    type R = R;

    open spec fn coords_spec(&self) -> Seq<R> {
        self.spec_coords()
    }

    open spec fn id_spec(&self) -> usize {
        self.spec_id()
    }

    fn dim(&self) -> (d: usize) {
        4
    }

    fn coords(&self) -> (c: &[R]) {
        self.coords.as_slice()
    }

    fn set_coord(&mut self, k: usize, c: R) {
        self.coords[k] = c;
    }

    fn id(&self) -> (id: usize) {
        self.id
    }

    fn set_id(&mut self, id: usize) {
        self.id = id;
    }

    fn duplicate(&self) -> (r: Self) {
        let r = Point4d {
            coords: [
                self.coords[0],
                self.coords[1],
                self.coords[2],
                self.coords[3],
            ],
            id: self.id,
        };
        proof {
            assert(r.coords@ =~= self.coords@);
        }
        r
    }
}

impl<R: Real> Clone for Point4d<R> {
    fn clone(&self) -> (r: Self)
        ensures
            r.spec_coords() == self.spec_coords(),
            r.spec_id() == self.spec_id(),
    {
        self.duplicate()
    }
}

/// A point of five dimensions.
#[derive(Debug)]
pub struct Point5d<E> {
    coords: [E; 5],
    id: usize,
}

impl<E> Point5d<E> {
    /// The coordinates, first to last.
    pub closed spec fn spec_coords(&self) -> Seq<E> {
        self.coords@
    }

    /// The identity.
    pub closed spec fn spec_id(&self) -> usize {
        self.id
    }

    /// The point with coordinates `c` and identity 0.
    pub fn new(c: [E; 5]) -> (p: Point5d<E>)
        ensures
            p.spec_coords() == c@,
            p.spec_id() == 0,
    {
        Point5d { coords: c, id: 0 }
    }

    /// The coordinates as an array.
    pub fn arr(&self) -> (a: &[E; 5])
        ensures
            a@ == self.spec_coords(),
    {
        &self.coords
    }
}

impl<R: Real> Point for Point5d<R> {
    type R = R;

    open spec fn coords_spec(&self) -> Seq<R> {
        self.spec_coords()
    }

    open spec fn id_spec(&self) -> usize {
        self.spec_id()
    }

    fn dim(&self) -> (d: usize) {
        5
    }

    fn coords(&self) -> (c: &[R]) {
        self.coords.as_slice()
    }

    fn set_coord(&mut self, k: usize, c: R) {
        self.coords[k] = c;
    }

    fn id(&self) -> (id: usize) {
        self.id
    }

    fn set_id(&mut self, id: usize) {
        self.id = id;
    }

    fn duplicate(&self) -> (r: Self) {
        let r = Point5d {
            coords: [
                self.coords[0],
                self.coords[1],
                self.coords[2],
                self.coords[3],
                self.coords[4],
            ],
            id: self.id,
        };
        proof {
            assert(r.coords@ =~= self.coords@);
        }
        r
    }
}

impl<R: Real> Clone for Point5d<R> {
    fn clone(&self) -> (r: Self)
        ensures
            r.spec_coords() == self.spec_coords(),
            r.spec_id() == self.spec_id(),
    {
        self.duplicate()
    }
}

/// A point of six dimensions.
#[derive(Debug)]
pub struct Point6d<E> {
    coords: [E; 6],
    id: usize,
}

impl<E> Point6d<E> {
    /// The coordinates, first to last.
    pub closed spec fn spec_coords(&self) -> Seq<E> {
        self.coords@
    }

    /// The identity.
    pub closed spec fn spec_id(&self) -> usize {
        self.id
    }

    /// The point with coordinates `c` and identity 0.
    pub fn new(c: [E; 6]) -> (p: Point6d<E>)
        ensures
            p.spec_coords() == c@,
            p.spec_id() == 0,
    {
        Point6d { coords: c, id: 0 }
    }

    /// The coordinates as an array.
    pub fn arr(&self) -> (a: &[E; 6])
        ensures
            a@ == self.spec_coords(),
    {
        &self.coords
    }
}

impl<R: Real> Point for Point6d<R> {
    type R = R;

    open spec fn coords_spec(&self) -> Seq<R> {
        self.spec_coords()
    }

    open spec fn id_spec(&self) -> usize {
        self.spec_id()
    }

    fn dim(&self) -> (d: usize) {
        6
    }

    fn coords(&self) -> (c: &[R]) {
        self.coords.as_slice()
    }

    fn set_coord(&mut self, k: usize, c: R) {
        self.coords[k] = c;
    }

    fn id(&self) -> (id: usize) {
        self.id
    }

    fn set_id(&mut self, id: usize) {
        self.id = id;
    }

    fn duplicate(&self) -> (r: Self) {
        let r = Point6d {
            coords: [
                self.coords[0],
                self.coords[1],
                self.coords[2],
                self.coords[3],
                self.coords[4],
                self.coords[5],
            ],
            id: self.id,
        };
        proof {
            assert(r.coords@ =~= self.coords@);
        }
        r
    }
}

impl<R: Real> Clone for Point6d<R> {
    fn clone(&self) -> (r: Self)
        ensures
            r.spec_coords() == self.spec_coords(),
            r.spec_id() == self.spec_id(),
    {
        self.duplicate()
    }
}

/// A point of seven dimensions.
#[derive(Debug)]
pub struct Point7d<E> {
    coords: [E; 7],
    id: usize,
}

impl<E> Point7d<E> {
    /// The coordinates, first to last.
    pub closed spec fn spec_coords(&self) -> Seq<E> {
        self.coords@
    }

    /// The identity.
    pub closed spec fn spec_id(&self) -> usize {
        self.id
    }

    /// The point with coordinates `c` and identity 0.
    pub fn new(c: [E; 7]) -> (p: Point7d<E>)
        ensures
            p.spec_coords() == c@,
            p.spec_id() == 0,
    {
        Point7d { coords: c, id: 0 }
    }

    /// The coordinates as an array.
    pub fn arr(&self) -> (a: &[E; 7])
        ensures
            a@ == self.spec_coords(),
    {
        &self.coords
    }
}

impl<R: Real> Point for Point7d<R> {
    type R = R;

    open spec fn coords_spec(&self) -> Seq<R> {
        self.spec_coords()
    }

    open spec fn id_spec(&self) -> usize {
        self.spec_id()
    }

    fn dim(&self) -> (d: usize) {
        7
    }

    fn coords(&self) -> (c: &[R]) {
        self.coords.as_slice()
    }

    fn set_coord(&mut self, k: usize, c: R) {
        self.coords[k] = c;
    }

    fn id(&self) -> (id: usize) {
        self.id
    }

    fn set_id(&mut self, id: usize) {
        self.id = id;
    }

    fn duplicate(&self) -> (r: Self) {
        let r = Point7d {
            coords: [
                self.coords[0],
                self.coords[1],
                self.coords[2],
                self.coords[3],
                self.coords[4],
                self.coords[5],
                self.coords[6],
            ],
            id: self.id,
        };
        proof {
            assert(r.coords@ =~= self.coords@);
        }
        r
    }
}

impl<R: Real> Clone for Point7d<R> {
    fn clone(&self) -> (r: Self)
        ensures
            r.spec_coords() == self.spec_coords(),
            r.spec_id() == self.spec_id(),
    {
        self.duplicate()
    }
}

/// A point of eight dimensions.
#[derive(Debug)]
pub struct Point8d<E> {
    coords: [E; 8],
    id: usize,
}

impl<E> Point8d<E> {
    /// The coordinates, first to last.
    pub closed spec fn spec_coords(&self) -> Seq<E> {
        self.coords@
    }

    /// The identity.
    pub closed spec fn spec_id(&self) -> usize {
        self.id
    }

    /// The point with coordinates `c` and identity 0.
    pub fn new(c: [E; 8]) -> (p: Point8d<E>)
        ensures
            p.spec_coords() == c@,
            p.spec_id() == 0,
    {
        Point8d { coords: c, id: 0 }
    }

    /// The coordinates as an array.
    pub fn arr(&self) -> (a: &[E; 8])
        ensures
            a@ == self.spec_coords(),
    {
        &self.coords
    }
}

impl<R: Real> Point for Point8d<R> {
    type R = R;

    open spec fn coords_spec(&self) -> Seq<R> {
        self.spec_coords()
    }

    open spec fn id_spec(&self) -> usize {
        self.spec_id()
    }

    fn dim(&self) -> (d: usize) {
        8
    }

    fn coords(&self) -> (c: &[R]) {
        self.coords.as_slice()
    }

    fn set_coord(&mut self, k: usize, c: R) {
        self.coords[k] = c;
    }

    fn id(&self) -> (id: usize) {
        self.id
    }

    fn set_id(&mut self, id: usize) {
        self.id = id;
    }

    fn duplicate(&self) -> (r: Self) {
        let r = Point8d {
            coords: [
                self.coords[0],
                self.coords[1],
                self.coords[2],
                self.coords[3],
                self.coords[4],
                self.coords[5],
                self.coords[6],
                self.coords[7],
            ],
            id: self.id,
        };
        proof {
            assert(r.coords@ =~= self.coords@);
        }
        r
    }
}

impl<R: Real> Clone for Point8d<R> {
    fn clone(&self) -> (r: Self)
        ensures
            r.spec_coords() == self.spec_coords(),
            r.spec_id() == self.spec_id(),
    {
        self.duplicate()
    }
}

/// A point of nine dimensions.
#[derive(Debug)]
pub struct Point9d<E> {
    coords: [E; 9],
    id: usize,
}

impl<E> Point9d<E> {
    /// The coordinates, first to last.
    pub closed spec fn spec_coords(&self) -> Seq<E> {
        self.coords@
    }

    /// The identity.
    pub closed spec fn spec_id(&self) -> usize {
        self.id
    }

    /// The point with coordinates `c` and identity 0.
    pub fn new(c: [E; 9]) -> (p: Point9d<E>)
        ensures
            p.spec_coords() == c@,
            p.spec_id() == 0,
    {
        Point9d { coords: c, id: 0 }
    }

    /// The coordinates as an array.
    pub fn arr(&self) -> (a: &[E; 9])
        ensures
            a@ == self.spec_coords(),
    {
        &self.coords
    }
}

impl<R: Real> Point for Point9d<R> {
    type R = R;

    open spec fn coords_spec(&self) -> Seq<R> {
        self.spec_coords()
    }

    open spec fn id_spec(&self) -> usize {
        self.spec_id()
    }

    fn dim(&self) -> (d: usize) {
        9
    }

    fn coords(&self) -> (c: &[R]) {
        self.coords.as_slice()
    }

    fn set_coord(&mut self, k: usize, c: R) {
        self.coords[k] = c;
    }

    fn id(&self) -> (id: usize) {
        self.id
    }

    fn set_id(&mut self, id: usize) {
        self.id = id;
    }

    fn duplicate(&self) -> (r: Self) {
        let r = Point9d {
            coords: [
                self.coords[0],
                self.coords[1],
                self.coords[2],
                self.coords[3],
                self.coords[4],
                self.coords[5],
                self.coords[6],
                self.coords[7],
                self.coords[8],
            ],
            id: self.id,
        };
        proof {
            assert(r.coords@ =~= self.coords@);
        }
        r
    }
}

impl<R: Real> Clone for Point9d<R> {
    fn clone(&self) -> (r: Self)
        ensures
            r.spec_coords() == self.spec_coords(),
            r.spec_id() == self.spec_id(),
    {
        self.duplicate()
    }
}

} // verus!
