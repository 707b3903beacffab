//! The analytical solution of Uteshev for the geometric median of three
//! points in Euclidean space: the Fermat point of the triangle.

use crate::clock::{no_time, now, plus, since, span_nanos};
use crate::geo_median::{
    lemma_neighbour, move_off_neighbours, off_neighbours, GeoMedian, GeoMedianData,
};
use crate::point::{seq_sub, Point};
use crate::scalar::{half, half_spec, Real};
use crate::space::{EuclideanSpace, MinkowskiSpace};
use crate::steiner_tree::{lemma_node_moved, node_moved, NodeView, SteinerTree};
use std::time::Duration;
use vstd::prelude::*;

verus! {

/// The time that Uteshev's solution took.
#[derive(Debug)]
pub struct UteshevData {
    time: Duration,
}

/// Uteshev's analytical solution.
#[derive(Debug)]
pub struct Uteshev {
    data: UteshevData,
}

/// The cosine of the angle of a triangle between the sides `ab` and `ac`,
/// `bc` being the third side: `(ab^2 + ac^2 - bc^2) / (2 ab ac)`.
pub open spec fn cosine<R: Real>(ab: R, ac: R, bc: R) -> R {
    ab.mul_spec(ab).add_spec(ac.mul_spec(ac)).sub_spec(bc.mul_spec(bc)).div_spec(
        R::from_usize_spec(2).mul_spec(ab).mul_spec(ac),
    )
}

/// Whether the angle with cosine `c` is 120 degrees or more: `c <= -1/2`.
pub open spec fn wide<R: Real>(c: R) -> bool {
    c.le_spec(half_spec::<R>().neg_spec())
}

/// The term that the weights share, twice the area of the triangle by
/// Heron's formula:
/// `1/2 sqrt((xy + xz + yz) (xy + xz - yz) (xy + yz - xz) (xz + yz - xy))`.
pub open spec fn area_term<R: Real>(xy: R, xz: R, yz: R) -> R {
    half_spec::<R>().mul_spec(
        xy.add_spec(xz).add_spec(yz).mul_spec(xy.add_spec(xz).sub_spec(yz)).mul_spec(
            xy.add_spec(yz).sub_spec(xz),
        ).mul_spec(xz.add_spec(yz).sub_spec(xy)).sqrt_spec(),
    )
}

/// The reciprocal of the weight of the corner between the sides with the
/// squares `ab2` and `ac2`, `bc2` being the square of the third:
/// the weight is `(ab2 + ac2 - bc2) sqrt(3) / 2 + s`.
pub open spec fn corner_weight<R: Real>(ab2: R, ac2: R, bc2: R, s: R) -> R {
    ab2.add_spec(ac2).sub_spec(bc2).mul_spec(
        R::from_usize_spec(3).sqrt_spec().div_spec(R::from_usize_spec(2)),
    ).add_spec(s).recip_spec()
}

/// One coordinate of the Fermat point: `(x / c_x + y / c_y + z / c_z)` over
/// `(1 / c_x + 1 / c_y + 1 / c_z)`, where both the sum and the quotient are
/// numbers. Else the coordinate stays at what it was before the step that
/// gave no number.
pub open spec fn fermat_coord<R: Real>(old: R, x: R, y: R, z: R, cxr: R, cyr: R, czr: R) -> R {
    let a = x.mul_spec(cxr).add_spec(y.mul_spec(cyr)).add_spec(z.mul_spec(czr));
    let first = if a.is_number_spec() {
        a
    } else {
        old
    };
    let b = cxr.add_spec(cyr).add_spec(czr).recip_spec().mul_spec(first);
    if b.is_number_spec() {
        b
    } else {
        first
    }
}

/// Where the geometric median of the triangle `x`, `y`, `z` lies, `old`
/// being where it was taken to lie: at a corner whose angle is 120 degrees
/// or more - `x` before `y` before `z` -, or else at the Fermat point. The
/// distances are those of `geo`.
pub open spec fn fermat_point<P: Point, M: MinkowskiSpace<P>>(
    geo: &M,
    old: Seq<P::R>,
    x: Seq<P::R>,
    y: Seq<P::R>,
    z: Seq<P::R>,
) -> Seq<P::R> {
    let xy = geo.norm_spec(seq_sub(x, y));
    let xz = geo.norm_spec(seq_sub(x, z));
    let yz = geo.norm_spec(seq_sub(y, z));
    if wide(cosine(xy, xz, yz)) {
        x
    } else if wide(cosine(xy, yz, xz)) {
        y
    } else if wide(cosine(xz, yz, xy)) {
        z
    } else {
        let s = area_term(xy, xz, yz);
        let xy2 = xy.mul_spec(xy);
        let xz2 = xz.mul_spec(xz);
        let yz2 = yz.mul_spec(yz);
        let cxr = corner_weight(xy2, xz2, yz2, s);
        let cyr = corner_weight(xy2, yz2, xz2, s);
        let czr = corner_weight(xz2, yz2, xy2, s);
        Seq::new(old.len(), |k: int| fermat_coord(old[k], x[k], y[k], z[k], cxr, cyr, czr))
    }
}

/// Where Uteshev's solution puts `node`: at the geometric median of its
/// first three neighbours.
pub open spec fn uteshev_next<P: Point, M: MinkowskiSpace<P>>(
    v: Seq<NodeView<P::R>>,
    node: usize,
    geo: &M,
) -> Seq<P::R> {
    let ns = v[node as int].ns;
    fermat_point::<P, M>(
        geo,
        v[node as int].coords,
        v[ns[0] as int].coords,
        v[ns[1] as int].coords,
        v[ns[2] as int].coords,
    )
}

impl UteshevData {
    /// The time spent so far.
    pub closed spec fn spec_time(&self) -> Duration {
        self.time
    }

    /// No time spent yet.
    pub fn new() -> (d: Self)
        ensures
            span_nanos(d.spec_time()) == 0,
    {
        UteshevData { time: no_time() }
    }
}

impl Clone for UteshevData {
    fn clone(&self) -> (r: Self) {
        UteshevData { time: self.time }
    }
}

impl GeoMedianData for UteshevData {
    fn time(&self) -> (t: &Duration)
        ensures
            *t == self.spec_time(),
    {
        &self.time
    }
}

impl Uteshev {
    /// The figures.
    pub closed spec fn spec_data(&self) -> UteshevData {
        self.data
    }

    /// Uteshev's solution, with no time spent yet.
    pub fn new() -> (u: Self)
        ensures
            span_nanos(u.spec_data().spec_time()) == 0,
    {
        Uteshev { data: UteshevData::new() }
    }

    /// The cosine of the angle between the sides `ab` and `ac`.
    pub fn cos<R: Real>(ab: R, ac: R, bc: R) -> (c: R)
        ensures
            c == cosine(ab, ac, bc),
    {
        ab.mul(ab).add(ac.mul(ac)).sub(bc.mul(bc)).div(R::from_usize(2).mul(ab).mul(ac))
    }

    /// The term that the weights share.
    pub fn s<R: Real>(xy: R, xz: R, yz: R) -> (r: R)
        ensures
            r == area_term(xy, xz, yz),
    {
        half::<R>().mul(
            xy.add(xz).add(yz).mul(xy.add(xz).sub(yz)).mul(xy.add(yz).sub(xz)).mul(
                xz.add(yz).sub(xy),
            ).sqrt(),
        )
    }

    /// The reciprocal of the weight of a corner.
    pub fn ca<R: Real>(ab2: R, ac2: R, bc2: R, s: R) -> (r: R)
        ensures
            r == corner_weight(ab2, ac2, bc2, s),
    {
        ab2.add(ac2).sub(bc2).mul(R::from_usize(3).sqrt().div(R::from_usize(2))).add(s).recip()
    }

    /// The geometric median of the triangle `x`, `y`, `z`, written to `p`.
    pub fn fermat<P: Point>(p: &mut P, x: &P, y: &P, z: &P, geo: &EuclideanSpace)
        requires
            old(p).coords_spec().len() == x.coords_spec().len(),
            old(p).coords_spec().len() == y.coords_spec().len(),
            old(p).coords_spec().len() == z.coords_spec().len(),
        ensures
            final(p).coords_spec() == fermat_point::<P, EuclideanSpace>(
                geo,
                old(p).coords_spec(),
                x.coords_spec(),
                y.coords_spec(),
                z.coords_spec(),
            ),
            final(p).id_spec() == old(p).id_spec(),
    {
        let xy = geo.dist(x, y);
        let xz = geo.dist(x, z);
        let yz = geo.dist(y, z);
        let limit = half::<P::R>().neg();
        if Self::cos(xy, xz, yz).le(limit) {
            p.copy(x);
        } else if Self::cos(xy, yz, xz).le(limit) {
            p.copy(y);
        } else if Self::cos(xz, yz, xy).le(limit) {
            p.copy(z);
        } else {
            let s = Self::s(xy, xz, yz);
            let xy2 = xy.mul(xy);
            let xz2 = xz.mul(xz);
            let yz2 = yz.mul(yz);
            let cxr = Self::ca(xy2, xz2, yz2, s);
            let cyr = Self::ca(xy2, yz2, xz2, s);
            let czr = Self::ca(xz2, yz2, xy2, s);
            let mul = cxr.add(cyr).add(czr).recip();
            let dim = p.dim();
            let mut k: usize = 0;
            while k < dim
                invariant
                    k <= dim,
                    dim == old(p).coords_spec().len(),
                    dim == x.coords_spec().len(),
                    dim == y.coords_spec().len(),
                    dim == z.coords_spec().len(),
                    p.coords_spec().len() == dim,
                    p.id_spec() == old(p).id_spec(),
                    mul == cxr.add_spec(cyr).add_spec(czr).recip_spec(),
                    forall|e: int|
                        k <= e < dim ==> #[trigger] p.coords_spec()[e] == old(p).coords_spec()[e],
                    forall|e: int|
                        0 <= e < k ==> #[trigger] p.coords_spec()[e] == fermat_coord(
                            old(p).coords_spec()[e],
                            x.coords_spec()[e],
                            y.coords_spec()[e],
                            z.coords_spec()[e],
                            cxr,
                            cyr,
                            czr,
                        ),
                decreases dim - k,
            {
                let a = x.coord(k).mul(cxr).add(y.coord(k).mul(cyr)).add(z.coord(k).mul(czr));
                let first = if a.is_number() {
                    a
                } else {
                    p.coord(k)
                };
                let b = mul.mul(first);
                let r = if b.is_number() {
                    b
                } else {
                    first
                };
                p.set_coord(k, r);
                k += 1;
            }
            proof {
                assert(p.coords_spec() =~= fermat_point::<P, EuclideanSpace>(
                    geo,
                    old(p).coords_spec(),
                    x.coords_spec(),
                    y.coords_spec(),
                    z.coords_spec(),
                ));
            }
        }
    }
}

impl Default for Uteshev {
    fn default() -> (u: Self) {
        Uteshev::new()
    }
}

impl<P: Point> GeoMedian<P, EuclideanSpace> for Uteshev {
    type D = UteshevData;

    /// The place of `uteshev_next`.
    open spec fn find_law(&self) -> spec_fn(Seq<NodeView<P::R>>, usize, EuclideanSpace) -> Seq<
        P::R,
    > {
        |v: Seq<NodeView<P::R>>, node: usize, geo: EuclideanSpace|
            uteshev_next::<P, EuclideanSpace>(v, node, &geo)
    }

    /// Off the neighbours.
    open spec fn init_law(&self) -> spec_fn(Seq<NodeView<P::R>>, usize, EuclideanSpace) -> Seq<
        P::R,
    > {
        |v: Seq<NodeView<P::R>>, node: usize, geo: EuclideanSpace|
            off_neighbours::<P, EuclideanSpace>(v, node, &geo)
    }

    /// The solution counts nothing.
    open spec fn worn_out(&self) -> bool {
        false
    }

    /// A node that lies on a neighbour starts at the centroid of its
    /// neighbours.
    fn init(&mut self, tree: &mut SteinerTree<P>, node: usize, geo: &EuclideanSpace)
        ensures
            final(tree)@ == node_moved(
                old(tree)@,
                node,
                off_neighbours::<P, EuclideanSpace>(old(tree)@, node, geo),
            ),
    {
        move_off_neighbours(tree, node, geo);
    }

    /// Moves `node` to the geometric median of its first three neighbours.
    fn find(&mut self, tree: &mut SteinerTree<P>, node: usize, geo: &EuclideanSpace)
        ensures
            final(tree)@ == node_moved(
                old(tree)@,
                node,
                uteshev_next::<P, EuclideanSpace>(old(tree)@, node, geo),
            ),
    {
        let start = now();
        proof {
            lemma_neighbour(*tree, node, 0);
            lemma_neighbour(*tree, node, 1);
            lemma_neighbour(*tree, node, 2);
        }
        let me = tree.i(node);
        let mut p = me.p().duplicate();
        let x = tree.i(me.neighbour(0)).p();
        let y = tree.i(me.neighbour(1)).p();
        let z = tree.i(me.neighbour(2)).p();
        Self::fermat(&mut p, x, y, z, geo);
        tree.move_node(node, &p);
        proof {
            lemma_node_moved(old(tree)@, node, p.coords_spec());
        }
        self.data.time = plus(self.data.time, since(&start));
    }

    /// The figures, as `data` hands them out.
    open spec fn figures(&self) -> UteshevData {
        self.spec_data()
    }

    fn data(&self) -> (d: &UteshevData) {
        &self.data
    }
}

} // verus!
