//! Geometric medians: where a Steiner point lies best among its neighbours.

use crate::point::{seq_add, seq_all_numbers, seq_div, seq_mul, seq_sub, Point};
use crate::scalar::Real;
use crate::space::MinkowskiSpace;
use crate::steiner_tree::{adj_of, lemma_node_moved, node_moved, relaxed, NodeView, SteinerTree};
use std::time::Duration;
use vstd::prelude::*;

verus! {

/// The count of the steps that lost their result to a value that is no
/// number.
#[derive(Debug)]
pub struct GeoMedianStepPrecisionErrorData {
    precisionerrors: u64,
}

/// The count of the steps that ran into a fixed point: an iterate on a
/// neighbour.
#[derive(Debug)]
pub struct GeoMedianStepFixedPointData {
    fixedpoints: u64,
}

/// What a method that finds geometric medians counts and times.
pub trait GeoMedianData {
    /// The time spent so far.
    fn time(&self) -> (t: &Duration);
}

/// What a step of an iteration counts.
pub trait GeoMedianStepData {

}

/// A method that finds the geometric median of the neighbours of a Steiner
/// point.
///
/// Where the method puts a point is a function of the tree, the node and the
/// space - the law of the method -, and using the method does not change the
/// law. A method that counts its work is worn out when a count cannot rise
/// any more; what it does from then on is not said.
pub trait GeoMedian<P: Point, M: MinkowskiSpace<P>> {
    type D: GeoMedianData;

    /// Where `find` puts a node.
    spec fn find_law(&self) -> spec_fn(Seq<NodeView<P::R>>, usize, M) -> Seq<P::R>;

    /// Where `init` puts a node.
    spec fn init_law(&self) -> spec_fn(Seq<NodeView<P::R>>, usize, M) -> Seq<P::R>;

    /// Whether a count of the method has reached its end.
    spec fn worn_out(&self) -> bool;

    /// Moves the Steiner point `node` to the geometric median of its
    /// neighbours, as near as the method gets.
    fn find(&mut self, tree: &mut SteinerTree<P>, node: usize, geo: &M)
        requires
            can_place(*old(tree), node),
        ensures
            relaxed(*old(tree), *final(tree)),
            final(tree)@ == node_moved(old(tree)@, node, final(tree)@[node as int].coords),
            !final(self).worn_out() ==> final(tree)@[node as int].coords == (old(self).find_law())(
                old(tree)@,
                node,
                *geo,
            ),
            final(self).find_law() == old(self).find_law(),
            final(self).init_law() == old(self).init_law(),
            old(self).worn_out() ==> final(self).worn_out(),
    ;

    /// Makes the Steiner point `node` ready for `find`.
    fn init(&mut self, tree: &mut SteinerTree<P>, node: usize, geo: &M)
        requires
            can_place(*old(tree), node),
        ensures
            relaxed(*old(tree), *final(tree)),
            final(tree)@ == node_moved(
                old(tree)@,
                node,
                (old(self).init_law())(old(tree)@, node, *geo),
            ),
            final(self).find_law() == old(self).find_law(),
            final(self).init_law() == old(self).init_law(),
            final(self).worn_out() == old(self).worn_out(),
    ;

    /// The figures of the method.
    spec fn figures(&self) -> Self::D;

    /// The figures of the method.
    fn data(&self) -> (d: &Self::D)
        ensures
            *d == self.figures(),
    ;
}

/// One step of an iteration towards the geometric median.
///
/// What a step computes is a function of what it is given - the law of the
/// iteration -, and taking steps does not change the law.
pub trait GeoMedianStep<P: Point, M: MinkowskiSpace<P>> {
    type D: GeoMedianStepData;

    /// Where a step goes: from what `x` holds, the nodes of the tree, the
    /// node to be placed, the number of the step and the space.
    spec fn step_law(&self) -> spec_fn(Seq<P::R>, Seq<NodeView<P::R>>, usize, usize, M) -> Seq<P::R>;

    /// Where a node is put to be ready for the first step.
    spec fn init_law(&self) -> spec_fn(Seq<NodeView<P::R>>, usize, M) -> Seq<P::R>;

    /// Writes to `x` where the Steiner point `node` goes next; `s` counts the
    /// steps from 1.
    fn step(&mut self, x: &mut P, tree: &SteinerTree<P>, node: usize, s: usize, geo: &M)
        requires
            can_place(*tree, node),
            old(x).coords_spec().len() == tree@[node as int].coords.len(),
        ensures
            final(x).coords_spec() == (old(self).step_law())(
                old(x).coords_spec(),
                tree@,
                node,
                s,
                *geo,
            ),
            final(x).coords_spec().len() == old(x).coords_spec().len(),
            final(x).id_spec() == old(x).id_spec(),
            final(self).step_law() == old(self).step_law(),
            final(self).init_law() == old(self).init_law(),
    ;

    /// Makes the Steiner point `node` ready for the first step.
    fn init(&mut self, tree: &mut SteinerTree<P>, node: usize, geo: &M)
        requires
            can_place(*old(tree), node),
        ensures
            relaxed(*old(tree), *final(tree)),
            final(tree)@ == node_moved(
                old(tree)@,
                node,
                (old(self).init_law())(old(tree)@, node, *geo),
            ),
            final(self).step_law() == old(self).step_law(),
            final(self).init_law() == old(self).init_law(),
    ;

    /// The figures of the step.
    spec fn figures(&self) -> Self::D;

    /// The figures of the step.
    fn data(&self) -> (d: &Self::D)
        ensures
            *d == self.figures(),
    ;
}

/// Whether node `node` of `tree` can be given a geometric median: it is a
/// Steiner point of a well-formed tree, with three neighbours at least.
pub open spec fn can_place<P: Point>(tree: SteinerTree<P>, node: usize) -> bool {
    &&& tree.wf()
    &&& node < tree@.len()
    &&& !tree@[node as int].is_terminal
    &&& tree@[node as int].ns.len() >= 3
}

/// The sum of the first `k` neighbours of `node`, coordinate by coordinate,
/// from `zero` on.
pub open spec fn neighbour_sum<R: Real>(
    v: Seq<NodeView<R>>,
    node: usize,
    zero: Seq<R>,
    k: int,
) -> Seq<R>
    decreases k,
{
    if k <= 0 {
        zero
    } else {
        seq_add(neighbour_sum(v, node, zero, k - 1), v[v[node as int].ns[k - 1] as int].coords)
    }
}

/// The centroid of the neighbours of `node`: their sum, from the node's own
/// place times zero on, divided by their number.
pub open spec fn centroid_spec<R: Real>(v: Seq<NodeView<R>>, node: usize) -> Seq<R> {
    let ns = v[node as int].ns;
    seq_div(
        neighbour_sum(v, node, seq_mul(v[node as int].coords, R::zero_spec()), ns.len() as int),
        R::from_usize_spec(ns.len() as usize),
    )
}

/// Whether one of the first `k` neighbours of `node` lies where the node
/// lies: its distance to the node compares equal to zero.
pub open spec fn coincides<P: Point, M: MinkowskiSpace<P>>(
    v: Seq<NodeView<P::R>>,
    node: usize,
    geo: &M,
    k: int,
) -> bool
    decreases k,
{
    if k <= 0 {
        false
    } else {
        coincides::<P, M>(v, node, geo, k - 1) || geo.norm_spec(
            seq_sub(v[v[node as int].ns[k - 1] as int].coords, v[node as int].coords),
        ).equals_spec(P::R::zero_spec())
    }
}

/// Where a node starts that must not lie on a neighbour: at the centroid of
/// its neighbours if it lies on one, else where it is.
pub open spec fn off_neighbours<P: Point, M: MinkowskiSpace<P>>(
    v: Seq<NodeView<P::R>>,
    node: usize,
    geo: &M,
) -> Seq<P::R> {
    if coincides::<P, M>(v, node, geo, v[node as int].ns.len() as int) {
        centroid_spec(v, node)
    } else {
        v[node as int].coords
    }
}

/// `n + 1`, or `n` where that is the largest count that there is.
pub open spec fn bumped(n: u64) -> u64 {
    if n < u64::MAX {
        (n + 1) as u64
    } else {
        n
    }
}

/// `n + e`, or the largest count that there is where that is less.
pub open spec fn bumped_by(n: u64, e: int) -> u64 {
    if n + e <= u64::MAX {
        (n + e) as u64
    } else {
        u64::MAX
    }
}

impl GeoMedianStepPrecisionErrorData {
    /// The count.
    pub closed spec fn spec_errors(&self) -> u64 {
        self.precisionerrors
    }

    /// Nothing counted yet.
    pub fn new() -> (d: Self)
        ensures
            d.spec_errors() == 0,
    {
        GeoMedianStepPrecisionErrorData { precisionerrors: 0 }
    }

    /// The number of precision errors met.
    pub fn precision_errors(&self) -> (n: u64)
        ensures
            n == self.spec_errors(),
    {
        self.precisionerrors
    }

    /// Counts one more.
    pub(crate) fn count(&mut self)
        ensures
            final(self).spec_errors() == bumped(old(self).spec_errors()),
    {
        if self.precisionerrors < u64::MAX {
            self.precisionerrors += 1;
        }
    }
}

impl Clone for GeoMedianStepPrecisionErrorData {
    fn clone(&self) -> (r: Self)
        ensures
            r.spec_errors() == self.spec_errors(),
    {
        GeoMedianStepPrecisionErrorData { precisionerrors: self.precisionerrors }
    }
}

impl GeoMedianStepData for GeoMedianStepPrecisionErrorData {

}

impl GeoMedianStepFixedPointData {
    /// The count.
    pub closed spec fn spec_fixed(&self) -> u64 {
        self.fixedpoints
    }

    /// Nothing counted yet.
    pub fn new() -> (d: Self)
        ensures
            d.spec_fixed() == 0,
    {
        GeoMedianStepFixedPointData { fixedpoints: 0 }
    }

    /// The number of fixed points met.
    pub fn fixed_points(&self) -> (n: u64)
        ensures
            n == self.spec_fixed(),
    {
        self.fixedpoints
    }

    /// Counts one more.
    pub(crate) fn count(&mut self)
        ensures
            final(self).spec_fixed() == bumped(old(self).spec_fixed()),
    {
        if self.fixedpoints < u64::MAX {
            self.fixedpoints += 1;
        }
    }
}

impl Clone for GeoMedianStepFixedPointData {
    fn clone(&self) -> (r: Self)
        ensures
            r.spec_fixed() == self.spec_fixed(),
    {
        GeoMedianStepFixedPointData { fixedpoints: self.fixedpoints }
    }
}

impl GeoMedianStepData for GeoMedianStepFixedPointData {

}

/// The centroid of the neighbours of `y`.
pub fn centroid<P: Point>(tree: &SteinerTree<P>, y: usize) -> (c: P)
    requires
        tree.wf(),
        y < tree@.len(),
    ensures
        c.coords_spec() == centroid_spec(tree@, y),
        c.coords_spec().len() == tree@[y as int].coords.len(),
        c.id_spec() == tree@[y as int].point_id,
{
    let node = tree.i(y);
    let mut c = node.p().duplicate();
    c.mul(P::R::zero());
    let ghost zero = c.coords_spec();
    let d = node.degree();
    let mut k: usize = 0;
    while k < d
        invariant
            k <= d,
            tree.wf(),
            y < tree@.len(),
            node@ == tree@[y as int],
            d == tree@[y as int].ns.len(),
            zero.len() == tree@[y as int].coords.len(),
            c.id_spec() == tree@[y as int].point_id,
            c.coords_spec() == neighbour_sum(tree@, y, zero, k as int),
        decreases d - k,
    {
        proof {
            lemma_neighbour(*tree, y, k as int);
            lemma_neighbour_sum_len(tree@, y, zero, k as int);
        }
        c.add(tree.i(node.neighbour(k)).p());
        k += 1;
    }
    proof {
        lemma_neighbour_sum_len(tree@, y, zero, d as int);
    }
    c.div(P::R::from_usize(d));
    c
}

/// Moves `node` to the centroid of its neighbours if it lies on one of them.
pub fn move_off_neighbours<P: Point, M: MinkowskiSpace<P>>(
    tree: &mut SteinerTree<P>,
    node: usize,
    geo: &M,
)
    requires
        can_place(*old(tree), node),
    ensures
        relaxed(*old(tree), *final(tree)),
        final(tree)@ == node_moved(old(tree)@, node, off_neighbours::<P, M>(old(tree)@, node, geo)),
{
    let d = tree.i(node).degree();
    let mut any = false;
    let mut k: usize = 0;
    while k < d
        invariant
            k <= d,
            can_place(*tree, node),
            *tree == *old(tree),
            d == tree@[node as int].ns.len(),
            any == coincides::<P, M>(tree@, node, geo, k as int),
        decreases d - k,
    {
        proof {
            lemma_neighbour(*tree, node, k as int);
        }
        let n = tree.i(node).neighbour(k);
        let dist = geo.dist(tree.i(n).p(), tree.i(node).p());
        any = any || dist.equals(P::R::zero());
        k += 1;
    }
    if any {
        let cent = centroid(tree, node);
        tree.move_node(node, &cent);
        proof {
            lemma_node_moved(old(tree)@, node, cent.coords_spec());
        }
    } else {
        proof {
            assert(tree@ =~= node_moved(old(tree)@, node, old(tree)@[node as int].coords));
        }
    }
}

/// Whether every coordinate of `p` is a number.
pub fn all_numbers<P: Point>(p: &P) -> (b: bool)
    ensures
        b == seq_all_numbers(p.coords_spec()),
{
    let n = p.dim();
    let mut k: usize = 0;
    while k < n
        invariant
            k <= n,
            n == p.coords_spec().len(),
            forall|j: int| 0 <= j < k ==> (#[trigger] p.coords_spec()[j]).is_number_spec(),
        decreases n - k,
    {
        if !p.coord(k).is_number() {
            return false;
        }
        k += 1;
    }
    true
}

/// The sums have the dimension of the tree.
pub proof fn lemma_neighbour_sum_len<R: Real>(
    v: Seq<NodeView<R>>,
    node: usize,
    zero: Seq<R>,
    k: int,
)
    requires
        0 <= k <= v[node as int].ns.len(),
    ensures
        neighbour_sum(v, node, zero, k).len() == zero.len(),
    decreases k,
{
    if k > 0 {
        lemma_neighbour_sum_len(v, node, zero, k - 1);
    }
}

/// What `tree` knows of neighbour `k` of `node`: it is a node, of the
/// dimension of `node`.
pub proof fn lemma_neighbour<P: Point>(tree: SteinerTree<P>, node: usize, k: int)
    requires
        tree.wf(),
        node < tree@.len(),
        0 <= k < tree@[node as int].ns.len(),
    ensures
        tree@[node as int].ns[k] < tree@.len(),
        tree@[tree@[node as int].ns[k] as int].coords.len() == tree@[node as int].coords.len(),
{
    assert(adj_of(tree@)[node as int][k] < tree@.len());
    let n = tree@[node as int].ns[k] as int;
    assert(tree@[n].coords.len() == tree@[0].coords.len());
    assert(tree@[node as int].coords.len() == tree@[0].coords.len());
}

} // verus!
