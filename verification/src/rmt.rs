//! Relatively minimal trees: for a given topology, the places of the
//! Steiner points that make the tree short.

use crate::clock::{minus, no_time, now, plus, since, span_nanos};
use crate::cursors::tree_length;
use crate::enumerator_data::capped;
use crate::geo_median::{bumped_by, GeoMedian, GeoMedianData};
use crate::point::Point;
use crate::scalar::{tolerance, tolerance_spec, Real};
use crate::space::{EuclideanSpace, MinkowskiSpace};
use crate::steiner_tree::{
    lemma_moved_trans, lemma_relaxed_wf, moved, node_moved, relaxed, NodeView, SteinerTree,
};
use crate::uteshev::Uteshev;
use std::marker::PhantomData;
use std::time::Duration;
use vstd::prelude::*;

verus! {

/// What the iteration over geometric medians counts and times.
#[derive(Debug)]
pub struct GeoMedianIterData {
    nodes: usize,
    time: Duration,
    iterations: u64,
    selftime: Duration,
}

/// Relatively minimal trees by geometric medians: round after round every
/// Steiner point is moved to the geometric median of its neighbours, until a
/// round shortens the tree by less than a given length.
#[verifier::reject_recursive_types(P)]
#[verifier::reject_recursive_types(M)]
pub struct GeoMedianIter<P: Point, M: MinkowskiSpace<P>, G: GeoMedian<P, M>> {
    tree_len_cutoff: P::R,
    median: G,
    data: GeoMedianIterData,
    _m: PhantomData<M>,
}

/// What a method for relatively minimal trees counts and times.
pub trait RmtData {
    /// The number of topologies worked on.
    fn nodes(&self) -> usize;

    /// The time spent so far.
    fn time(&self) -> (t: &Duration);
}

/// A method that moves the Steiner points of a tree to where the tree is
/// short.
///
/// What the method makes of a tree is a function of the tree and the space -
/// the law of the method -, and using the method does not change the law. A
/// method that counts its work is worn out when a count cannot rise any
/// more; what it does from then on is not said.
pub trait RMT<P: Point, M: MinkowskiSpace<P>> {
    type D: RmtData;

    /// What `find` makes of the nodes of a tree.
    spec fn find_law(&self) -> spec_fn(Seq<NodeView<P::R>>, M) -> Seq<NodeView<P::R>>;

    /// Whether a count of the method has reached its end.
    spec fn worn_out(&self) -> bool;

    /// Moves the Steiner points and answers with the length that the tree
    /// then has.
    fn find(&mut self, tree: &mut SteinerTree<P>, geo: &M) -> (len: P::R)
        requires
            relaxable(*old(tree)),
        ensures
            relaxed(*old(tree), *final(tree)),
            len == tree_length::<P, M>(final(tree)@, geo),
            !final(self).worn_out() ==> final(tree)@ == (old(self).find_law())(old(tree)@, *geo),
            final(self).find_law() == old(self).find_law(),
            old(self).worn_out() ==> final(self).worn_out(),
    ;

    /// The figures of the method.
    spec fn figures(&self) -> Self::D;

    /// The figures of the method.
    fn data(&self) -> (d: &Self::D)
        ensures
            *d == self.figures(),
    ;
}

/// Whether the Steiner points of `tree` can be placed: the tree is well
/// formed and each of them has three neighbours at least.
pub open spec fn relaxable<P: Point>(tree: SteinerTree<P>) -> bool {
    &&& tree.wf()
    &&& forall|i: int|
        0 <= i < tree@.len() && !(#[trigger] tree@[i]).is_terminal ==> tree@[i].ns.len() >= 3
}

/// The nodes after a round as far as node `i`: every Steiner point before
/// `i`, in the order of the nodes, was moved to where `place` puts it in
/// what the round had made of the nodes by then.
pub open spec fn round_to<R: Real, M>(
    place: spec_fn(Seq<NodeView<R>>, usize, M) -> Seq<R>,
    v: Seq<NodeView<R>>,
    geo: M,
    i: int,
) -> Seq<NodeView<R>>
    decreases i,
{
    if i <= 0 {
        v
    } else {
        let w = round_to(place, v, geo, i - 1);
        if w[i - 1].is_terminal {
            w
        } else {
            node_moved(w, (i - 1) as usize, place(w, (i - 1) as usize, geo))
        }
    }
}

/// The nodes after a round over all of them.
pub open spec fn rounded<R: Real, M>(
    place: spec_fn(Seq<NodeView<R>>, usize, M) -> Seq<R>,
    v: Seq<NodeView<R>>,
    geo: M,
) -> Seq<NodeView<R>> {
    round_to(place, v, geo, v.len() as int)
}

/// What at most `fuel` rounds make of the nodes `v`, where the round before
/// left the length `last_len` - or nothing, where more rounds are needed. The
/// last round is the first that gains less than `cutoff`.
pub open spec fn iterated<P: Point, M: MinkowskiSpace<P>>(
    place: spec_fn(Seq<NodeView<P::R>>, usize, M) -> Seq<P::R>,
    cutoff: P::R,
    v: Seq<NodeView<P::R>>,
    last_len: P::R,
    geo: M,
    fuel: nat,
) -> Option<Seq<NodeView<P::R>>>
    decreases fuel,
{
    if fuel == 0 {
        None
    } else {
        let w = rounded(place, v, geo);
        let len = tree_length::<P, M>(w, &geo);
        if last_len.sub_spec(len).lt_spec(cutoff) {
            Some(w)
        } else {
            iterated::<P, M>(place, cutoff, w, len, geo, (fuel - 1) as nat)
        }
    }
}

/// Whether the rounds end within `fuel` of them, after the round that makes
/// the Steiner points of `v` ready.
pub open spec fn rounds_end<P: Point, M: MinkowskiSpace<P>>(
    ready: spec_fn(Seq<NodeView<P::R>>, usize, M) -> Seq<P::R>,
    place: spec_fn(Seq<NodeView<P::R>>, usize, M) -> Seq<P::R>,
    cutoff: P::R,
    v: Seq<NodeView<P::R>>,
    geo: M,
    fuel: nat,
) -> bool {
    iterated::<P, M>(
        place,
        cutoff,
        rounded(ready, v, geo),
        tree_length::<P, M>(v, &geo),
        geo,
        fuel,
    ) is Some
}

/// Whether the rounds end with round `m`, counted from the first after the
/// round that makes the points ready: within `m` rounds, and not within
/// fewer.
pub open spec fn rounds_take<P: Point, M: MinkowskiSpace<P>>(
    ready: spec_fn(Seq<NodeView<P::R>>, usize, M) -> Seq<P::R>,
    place: spec_fn(Seq<NodeView<P::R>>, usize, M) -> Seq<P::R>,
    cutoff: P::R,
    v: Seq<NodeView<P::R>>,
    geo: M,
    m: nat,
) -> bool {
    &&& rounds_end::<P, M>(ready, place, cutoff, v, geo, m)
    &&& m >= 1
    &&& !rounds_end::<P, M>(ready, place, cutoff, v, geo, (m - 1) as nat)
}

/// What the iteration makes of the nodes `v`: a round by `ready`, then
/// rounds by `place` until one gains less than `cutoff`; the first of them is
/// held against the length of `v` itself. Should the rounds never end, the
/// nodes are left as `ready` put them.
pub open spec fn settled<P: Point, M: MinkowskiSpace<P>>(
    ready: spec_fn(Seq<NodeView<P::R>>, usize, M) -> Seq<P::R>,
    place: spec_fn(Seq<NodeView<P::R>>, usize, M) -> Seq<P::R>,
    cutoff: P::R,
    v: Seq<NodeView<P::R>>,
    geo: M,
) -> Seq<NodeView<P::R>> {
    if exists|fuel: nat| rounds_end::<P, M>(ready, place, cutoff, v, geo, fuel) {
        let fuel = choose|fuel: nat| rounds_end::<P, M>(ready, place, cutoff, v, geo, fuel);
        iterated::<P, M>(
            place,
            cutoff,
            rounded(ready, v, geo),
            tree_length::<P, M>(v, &geo),
            geo,
            fuel,
        )->0
    } else {
        rounded(ready, v, geo)
    }
}

/// More fuel does not change what the rounds make of the nodes.
pub proof fn lemma_iterated_fuel<P: Point, M: MinkowskiSpace<P>>(
    place: spec_fn(Seq<NodeView<P::R>>, usize, M) -> Seq<P::R>,
    cutoff: P::R,
    v: Seq<NodeView<P::R>>,
    last_len: P::R,
    geo: M,
    fuel: nat,
    more: nat,
)
    requires
        iterated::<P, M>(place, cutoff, v, last_len, geo, fuel) is Some,
    ensures
        iterated::<P, M>(place, cutoff, v, last_len, geo, fuel + more) == iterated::<P, M>(
            place,
            cutoff,
            v,
            last_len,
            geo,
            fuel,
        ),
    decreases fuel,
{
    if fuel > 0 {
        let w = rounded(place, v, geo);
        let len = tree_length::<P, M>(w, &geo);
        if !last_len.sub_spec(len).lt_spec(cutoff) {
            lemma_iterated_fuel::<P, M>(place, cutoff, w, len, geo, (fuel - 1) as nat, more);
        }
    }
}

/// What the rounds make of the nodes once they end is what the iteration
/// makes of them.
pub proof fn lemma_settled<P: Point, M: MinkowskiSpace<P>>(
    ready: spec_fn(Seq<NodeView<P::R>>, usize, M) -> Seq<P::R>,
    place: spec_fn(Seq<NodeView<P::R>>, usize, M) -> Seq<P::R>,
    cutoff: P::R,
    v: Seq<NodeView<P::R>>,
    geo: M,
    fuel: nat,
)
    requires
        rounds_end::<P, M>(ready, place, cutoff, v, geo, fuel),
    ensures
        settled::<P, M>(ready, place, cutoff, v, geo) == iterated::<P, M>(
            place,
            cutoff,
            rounded(ready, v, geo),
            tree_length::<P, M>(v, &geo),
            geo,
            fuel,
        )->0,
{
    let other = choose|f: nat| rounds_end::<P, M>(ready, place, cutoff, v, geo, f);
    let w = rounded(ready, v, geo);
    let l = tree_length::<P, M>(v, &geo);
    if other <= fuel {
        lemma_iterated_fuel::<P, M>(place, cutoff, w, l, geo, other, (fuel - other) as nat);
    } else {
        lemma_iterated_fuel::<P, M>(place, cutoff, w, l, geo, fuel, (other - fuel) as nat);
    }
}

impl GeoMedianIterData {
    /// The number of topologies worked on.
    pub closed spec fn spec_nodes(&self) -> usize {
        self.nodes
    }

    /// The number of rounds over all Steiner points.
    pub closed spec fn spec_iterations(&self) -> u64 {
        self.iterations
    }

    /// The number of rounds over all Steiner points.
    pub fn iterations(&self) -> (n: u64)
        ensures
            n == self.spec_iterations(),
    {
        self.iterations
    }

    /// The time spent so far.
    pub closed spec fn spec_time(&self) -> Duration {
        self.time
    }

    /// The time spent outside the method for the geometric median.
    pub closed spec fn spec_selftime(&self) -> Duration {
        self.selftime
    }

    /// The time spent outside the method for the geometric median.
    pub fn selftime(&self) -> (t: &Duration)
        ensures
            *t == self.spec_selftime(),
    {
        &self.selftime
    }
}

impl Clone for GeoMedianIterData {
    fn clone(&self) -> (r: Self)
        ensures
            r.spec_nodes() == self.spec_nodes(),
            r.spec_iterations() == self.spec_iterations(),
    {
        GeoMedianIterData {
            nodes: self.nodes,
            time: self.time,
            iterations: self.iterations,
            selftime: self.selftime,
        }
    }
}

impl RmtData for GeoMedianIterData {
    fn nodes(&self) -> (n: usize)
        ensures
            n == self.spec_nodes(),
    {
        self.nodes
    }

    fn time(&self) -> (t: &Duration)
        ensures
            *t == self.spec_time(),
    {
        &self.time
    }
}

impl<P: Point, M: MinkowskiSpace<P>, G: GeoMedian<P, M>> GeoMedianIter<P, M, G> {
    /// The length below which the gain of a round counts as none.
    pub closed spec fn spec_cutoff(&self) -> P::R {
        self.tree_len_cutoff
    }

    /// The method for the geometric median.
    pub closed spec fn spec_median(&self) -> G {
        self.median
    }

    /// The figures.
    pub closed spec fn spec_data(&self) -> GeoMedianIterData {
        self.data
    }

    /// An iteration that ends when a round gains less than `a`.
    pub fn new(a: P::R, median: G) -> (r: GeoMedianIter<P, M, G>)
        ensures
            r.spec_cutoff() == a,
            r.spec_median() == median,
            r.spec_data().spec_nodes() == 0,
            r.spec_data().spec_iterations() == 0,
    {
        GeoMedianIter {
            tree_len_cutoff: a,
            median,
            data: GeoMedianIterData {
                nodes: 0,
                time: no_time(),
                selftime: no_time(),
                iterations: 0,
            },
            _m: PhantomData,
        }
    }

    /// An iteration with the cutoff `1 / 100000`.
    pub fn default_with_geomedian(median: G) -> (r: GeoMedianIter<P, M, G>)
        ensures
            r.spec_cutoff() == tolerance_spec::<P::R>(100000),
            r.spec_median() == median,
            r.spec_data().spec_nodes() == 0,
            r.spec_data().spec_iterations() == 0,
    {
        Self::new(tolerance::<P::R>(100000), median)
    }

    /// The same iteration with the cutoff `a`.
    pub fn tree_len_cutoff(self, a: P::R) -> (r: Self)
        ensures
            r.spec_cutoff() == a,
            r.spec_median() == self.spec_median(),
            r.spec_data() == self.spec_data(),
    {
        GeoMedianIter { tree_len_cutoff: a, median: self.median, data: self.data, _m: PhantomData }
    }

    /// The method for the geometric median.
    pub fn geo_median_alg(&mut self) -> (g: &mut G)
        ensures
            *g == old(self).spec_median(),
            final(self).spec_median() == *final(g),
            final(self).spec_cutoff() == old(self).spec_cutoff(),
            final(self).spec_data() == old(self).spec_data(),
    {
        &mut self.median
    }

    /// Whether a round that took the length from `last_len` to `len` was
    /// the last: whether `last_len - len` is below the cutoff.
    pub fn converged(&self, last_len: P::R, len: P::R) -> (r: bool)
        ensures
            r == last_len.sub_spec(len).lt_spec(self.spec_cutoff()),
    {
        last_len.sub(len).lt(self.tree_len_cutoff)
    }

    /// The round that makes every Steiner point of `tree` ready, in the
    /// order of the nodes.
    fn ready(&mut self, tree: &mut SteinerTree<P>, geo: &M)
        requires
            relaxable(*old(tree)),
        ensures
            relaxable(*final(tree)),
            relaxed(*old(tree), *final(tree)),
            final(tree)@ == rounded(old(self).spec_median().init_law(), old(tree)@, *geo),
            final(self).spec_cutoff() == old(self).spec_cutoff(),
            final(self).spec_data() == old(self).spec_data(),
            final(self).spec_median().find_law() == old(self).spec_median().find_law(),
            final(self).spec_median().init_law() == old(self).spec_median().init_law(),
            final(self).spec_median().worn_out() == old(self).spec_median().worn_out(),
    {
        let n = tree.node_count();
        let mut i: usize = 0;
        while i < n
            invariant
                i <= n,
                n == tree@.len(),
                n == old(tree)@.len(),
                relaxable(*tree),
                relaxed(*old(tree), *tree),
                tree@ == round_to(old(self).median.init_law(), old(tree)@, *geo, i as int),
                self.tree_len_cutoff == old(self).tree_len_cutoff,
                self.data == old(self).data,
                self.median.find_law() == old(self).median.find_law(),
                self.median.init_law() == old(self).median.init_law(),
                self.median.worn_out() == old(self).median.worn_out(),
            decreases n - i,
        {
            if !tree.i(i).is_terminal() {
                let ghost before = *tree;
                self.median.init(tree, i, geo);
                proof {
                    lemma_relaxed_wf(before, *tree);
                    lemma_moved_trans(old(tree)@, before@, tree@);
                    assert forall|j: int|
                        0 <= j < tree@.len()
                            && !(#[trigger] tree@[j]).is_terminal implies tree@[j].ns.len()
                        >= 3 by {
                        assert(!before@[j].is_terminal);
                    }
                }
            }
            i += 1;
        }
    }

    /// One round: every Steiner point of `tree`, in the order of the nodes,
    /// is moved to its geometric median.
    fn round(&mut self, tree: &mut SteinerTree<P>, geo: &M)
        requires
            relaxable(*old(tree)),
        ensures
            relaxable(*final(tree)),
            relaxed(*old(tree), *final(tree)),
            !final(self).spec_median().worn_out() ==> final(tree)@ == rounded(
                old(self).spec_median().find_law(),
                old(tree)@,
                *geo,
            ),
            final(self).spec_cutoff() == old(self).spec_cutoff(),
            final(self).spec_data() == old(self).spec_data(),
            final(self).spec_median().find_law() == old(self).spec_median().find_law(),
            final(self).spec_median().init_law() == old(self).spec_median().init_law(),
            old(self).spec_median().worn_out() ==> final(self).spec_median().worn_out(),
    {
        let n = tree.node_count();
        let mut i: usize = 0;
        while i < n
            invariant
                i <= n,
                n == tree@.len(),
                n == old(tree)@.len(),
                relaxable(*tree),
                relaxed(*old(tree), *tree),
                !self.median.worn_out() ==> tree@ == round_to(
                    old(self).median.find_law(),
                    old(tree)@,
                    *geo,
                    i as int,
                ),
                self.tree_len_cutoff == old(self).tree_len_cutoff,
                self.data == old(self).data,
                self.median.find_law() == old(self).median.find_law(),
                self.median.init_law() == old(self).median.init_law(),
                old(self).median.worn_out() ==> self.median.worn_out(),
            decreases n - i,
        {
            if !tree.i(i).is_terminal() {
                let ghost before = *tree;
                self.median.find(tree, i, geo);
                proof {
                    lemma_relaxed_wf(before, *tree);
                    lemma_moved_trans(old(tree)@, before@, tree@);
                    assert forall|j: int|
                        0 <= j < tree@.len()
                            && !(#[trigger] tree@[j]).is_terminal implies tree@[j].ns.len()
                        >= 3 by {
                        assert(!before@[j].is_terminal);
                    }
                }
            }
            i += 1;
        }
    }
}

impl<P: Point> Default for GeoMedianIter<P, EuclideanSpace, Uteshev> {
    /// Uteshev's solution with the cutoff `1 / 100000`.
    fn default() -> (r: Self)
        ensures
            r.spec_cutoff() == tolerance_spec::<P::R>(100000),
            r.spec_data().spec_nodes() == 0,
            r.spec_data().spec_iterations() == 0,
    {
        Self::new(tolerance::<P::R>(100000), Uteshev::default())
    }
}

impl<P: Point, M: MinkowskiSpace<P>, G: GeoMedian<P, M>> RMT<P, M> for GeoMedianIter<P, M, G> {
    type D = GeoMedianIterData;

    /// What `settled` makes of the nodes, by the method for the geometric
    /// median.
    open spec fn find_law(&self) -> spec_fn(Seq<NodeView<P::R>>, M) -> Seq<NodeView<P::R>> {
        |v: Seq<NodeView<P::R>>, geo: M|
            settled::<P, M>(
                self.spec_median().init_law(),
                self.spec_median().find_law(),
                self.spec_cutoff(),
                v,
                geo,
            )
    }

    /// The iteration is worn out when the count of its rounds cannot rise,
    /// or when the method for the geometric median is worn out.
    open spec fn worn_out(&self) -> bool {
        self.spec_data().spec_iterations() == u64::MAX || self.spec_median().worn_out()
    }

    /// Makes every Steiner point ready and then goes round them until
    /// `converged` says that a round was the last. The rounds are counted;
    /// where the count cannot rise any more, no round is begun. So, with a
    /// method for the geometric median that is not worn out, the count rises
    /// by the number of rounds that the iteration takes to its end, as far
    /// as it can rise, and the tree is what the iteration makes of it if the
    /// count could take all the rounds.
    fn find(&mut self, tree: &mut SteinerTree<P>, geo: &M) -> (len: P::R)
        ensures
            !final(self).spec_median().worn_out() ==> forall|m: nat| #[trigger]
                rounds_take::<P, M>(
                    old(self).spec_median().init_law(),
                    old(self).spec_median().find_law(),
                    old(self).spec_cutoff(),
                    old(tree)@,
                    *geo,
                    m,
                ) ==> final(self).spec_data().spec_iterations() == bumped_by(
                    old(self).spec_data().spec_iterations(),
                    m as int,
                ) && (old(self).spec_data().spec_iterations() + m <= u64::MAX ==> final(tree)@ == (
                old(self).find_law())(old(tree)@, *geo)),
            !final(self).spec_median().worn_out() && (forall|m: nat|
                !#[trigger] rounds_end::<P, M>(
                    old(self).spec_median().init_law(),
                    old(self).spec_median().find_law(),
                    old(self).spec_cutoff(),
                    old(tree)@,
                    *geo,
                    m,
                )) ==> final(self).spec_data().spec_iterations() == u64::MAX,
            final(self).spec_median().find_law() == old(self).spec_median().find_law(),
            final(self).spec_median().init_law() == old(self).spec_median().init_law(),
            old(self).spec_median().worn_out() ==> final(self).spec_median().worn_out(),
            final(self).spec_cutoff() == old(self).spec_cutoff(),
            final(self).spec_data().spec_nodes() == capped(old(self).spec_data().spec_nodes() + 1),
            final(self).spec_data().spec_iterations() >= old(self).spec_data().spec_iterations(),
            old(self).spec_data().spec_iterations() < u64::MAX
                ==> final(self).spec_data().spec_iterations() > old(self).spec_data().spec_iterations(),
    {
        if self.data.nodes < usize::MAX {
            self.data.nodes += 1;
        }
        let start = now();
        let mut last_len = tree.len(geo);
        let ghost ready = self.median.init_law();
        let ghost place = self.median.find_law();
        let ghost cutoff = self.tree_len_cutoff;
        let ghost l0 = last_len;
        self.ready(tree, geo);
        let ghost w0 = tree@;
        let mut done = false;
        let ghost mut rounds: nat = 0;
        while !done && self.data.iterations < u64::MAX
            invariant
                relaxable(*tree),
                relaxed(*old(tree), *tree),
                self.tree_len_cutoff == old(self).tree_len_cutoff,
                self.data.nodes == capped(old(self).data.nodes + 1),
                self.data.iterations >= old(self).data.iterations,
                self.data.iterations == old(self).data.iterations + rounds,
                !self.median.worn_out() && done ==> rounds >= 1 && iterated::<P, M>(
                    place,
                    cutoff,
                    w0,
                    l0,
                    *geo,
                    (rounds - 1) as nat,
                ) is None,
                rounds > 0 ==> self.data.iterations > old(self).data.iterations,
                rounds == 0 ==> self.data.iterations == old(self).data.iterations && !done,
                rounds > 0 ==> last_len == tree_length::<P, M>(tree@, geo),
                self.median.find_law() == place,
                self.median.init_law() == ready,
                old(self).median.worn_out() ==> self.median.worn_out(),
                cutoff == self.tree_len_cutoff,
                !self.median.worn_out() && !done ==> forall|f: nat|
                    iterated::<P, M>(place, cutoff, w0, l0, *geo, rounds + f)
                        == #[trigger] iterated::<P, M>(place, cutoff, tree@, last_len, *geo, f),
                !self.median.worn_out() && done ==> iterated::<P, M>(
                    place,
                    cutoff,
                    w0,
                    l0,
                    *geo,
                    rounds,
                ) == Some(tree@),
            decreases
                    if done {
                        0int
                    } else {
                        1int
                    },
                    u64::MAX - self.data.iterations,
        {
            self.data.iterations += 1;
            let ghost before = *tree;
            let ghost last = last_len;
            self.round(tree, geo);
            proof {
                lemma_moved_trans(old(tree)@, before@, tree@);
            }
            let len = tree.len(geo);
            if self.converged(last_len, len) {
                done = true;
                proof {
                    if !self.median.worn_out() {
                        assert(iterated::<P, M>(place, cutoff, before@, last, *geo, 1) == Some(
                            tree@,
                        ));
                        assert(iterated::<P, M>(place, cutoff, w0, l0, *geo, rounds + 0)
                            == iterated::<P, M>(place, cutoff, before@, last, *geo, 0));
                    }
                }
            } else {
                proof {
                    if !self.median.worn_out() {
                        assert forall|f: nat|
                            iterated::<P, M>(place, cutoff, w0, l0, *geo, (rounds + 1) + f)
                                == #[trigger] iterated::<P, M>(
                                place,
                                cutoff,
                                tree@,
                                len,
                                *geo,
                                f,
                            ) by {
                            assert(iterated::<P, M>(place, cutoff, w0, l0, *geo, rounds + (f + 1))
                                == iterated::<P, M>(
                                place,
                                cutoff,
                                before@,
                                last,
                                *geo,
                                (f + 1) as nat,
                            ));
                        }
                    }
                }
            }
            proof {
                rounds = rounds + 1;
            }
            last_len = len;
        }
        if !done {
            last_len = tree.len(geo);
        }
        proof {
            if !self.median.worn_out() {
                let v = old(tree)@;
                if done {
                    lemma_settled::<P, M>(ready, place, cutoff, v, *geo, rounds);
                    assert(rounds_end::<P, M>(
                        old(self).spec_median().init_law(),
                        old(self).spec_median().find_law(),
                        old(self).spec_cutoff(),
                        v,
                        *geo,
                        rounds,
                    ));
                } else {
                    assert(iterated::<P, M>(place, cutoff, w0, l0, *geo, rounds + 0)
                        == iterated::<P, M>(place, cutoff, tree@, last_len, *geo, 0));
                }
                assert forall|m: nat| #[trigger]
                    rounds_take::<P, M>(ready, place, cutoff, v, *geo, m) implies (if done {
                    m == rounds
                } else {
                    m > rounds
                }) by {
                    if m < rounds {
                        let to = if done {
                            (rounds - 1) as nat
                        } else {
                            rounds
                        };
                        lemma_iterated_fuel::<P, M>(place, cutoff, w0, l0, *geo, m, (to - m) as nat);
                    } else if m == rounds {
                    } else if done {
                        lemma_iterated_fuel::<P, M>(
                            place,
                            cutoff,
                            w0,
                            l0,
                            *geo,
                            rounds,
                            (m - 1 - rounds) as nat,
                        );
                    }
                }
            }
        }
        self.data.time = plus(self.data.time, since(&start));
        self.data.selftime = minus(self.data.time, *self.median.data().time());
        last_len
    }

    /// The figures, as `data` hands them out.
    open spec fn figures(&self) -> GeoMedianIterData {
        self.spec_data()
    }

    fn data(&self) -> (d: &GeoMedianIterData) {
        &self.data
    }
}

} // verus!
