//! The minimum Steiner tree by branch and bound: every topology that the
//! enumerator hands out is relaxed, and the shortest tree met is kept.

use crate::clock::{no_time, now, since, span_nanos};
use crate::ellipsoid_median::GeoMedianEllipsoid;
use crate::enumerator::{
    carried, carries, coords_of, lemma_carries_moved, lemma_carries_rearranged, yields, Enumerator,
    GPEnumeration,
};
use crate::cursors::tree_length;
use crate::geo_median::{bumped, bumped_by};
use crate::graph::is_tree;
use crate::hyper_ellipsoid::HyperEllipsoid;
use crate::mst::spans;
use crate::point::Point;
use crate::rmt::{relaxable, GeoMedianIter, RMT};
use crate::scalar::Real;
use crate::sorter::{rearranged, same_dim, FurthestSiteOrdering};
use crate::space::{EuclideanSpace, MinkowskiSpace};
use crate::steiner_tree::{adj_of, lemma_relaxed_wf, moved, relaxed, NodeView, SteinerTree};
use crate::topology::lemma_moved_full_topology;
use crate::upper_bound::{LineTree, UpperBound};
use crate::uteshev::Uteshev;
use std::marker::PhantomData;
use std::time::Duration;
use vstd::prelude::*;

verus! {

/// What the branch and bound counts and times.
#[derive(Debug)]
pub struct SteinerBnBData {
    time: Duration,
    best_updates: u64,
}

/// The branch and bound over the topologies of the enumerator `E`, relaxed
/// by `K`, from the first tree of `U`.
#[verifier::reject_recursive_types(P)]
#[verifier::reject_recursive_types(M)]
pub struct SteinerBnB<P, M, K, E, U> {
    rmt: K,
    enumerator: E,
    upperbound: U,
    data: SteinerBnBData,
    _m: PhantomData<M>,
    _p: PhantomData<P>,
}

/// What a method for minimum Steiner trees counts and times.
pub trait SmtData {
    /// The time that the last search took.
    fn time(&self) -> (t: &Duration);

    /// The number of times that a shorter tree was found.
    fn best_updates(&self) -> u64;
}

/// A method that finds minimum Steiner trees.
pub trait SMT<P: Point, M: MinkowskiSpace<P>> {
    type D: SmtData;

    /// A short tree that joins the terminals `t`, with Steiner points where
    /// they help.
    fn find(&mut self, t: Vec<P>, geo: &M) -> (st: SteinerTree<P>)
        requires
            same_dim(t@),
            t@.len() <= usize::MAX / 8,
        ensures
            st.wf(),
            st.spec_terminal_count() == t@.len(),
            t@.len() >= 1 ==> is_tree(adj_of(st@)),
            carries(st@, coords_of(t@)),
    ;

    /// The figures of the method.
    spec fn figures(&self) -> Self::D;

    /// The figures of the method.
    fn data(&self) -> (d: &Self::D)
        ensures
            *d == self.figures(),
    ;
}

/// The best of `first` and the first `k` of `cands`: each in its turn takes
/// the place of the best so far if it is shorter.
pub open spec fn best_of<P: Point, M: MinkowskiSpace<P>>(
    first: Seq<NodeView<P::R>>,
    cands: Seq<Seq<NodeView<P::R>>>,
    geo: M,
    k: int,
) -> Seq<NodeView<P::R>>
    decreases k,
{
    if k <= 0 {
        first
    } else {
        let best = best_of::<P, M>(first, cands, geo, k - 1);
        if tree_length::<P, M>(cands[k - 1], &geo).lt_spec(tree_length::<P, M>(best, &geo)) {
            cands[k - 1]
        } else {
            best
        }
    }
}

/// How many of the first `k` of `cands` took the place of the best so far.
pub open spec fn gains<P: Point, M: MinkowskiSpace<P>>(
    first: Seq<NodeView<P::R>>,
    cands: Seq<Seq<NodeView<P::R>>>,
    geo: M,
    k: int,
) -> int
    decreases k,
{
    if k <= 0 {
        0
    } else {
        let best = best_of::<P, M>(first, cands, geo, k - 1);
        gains::<P, M>(first, cands, geo, k - 1) + if tree_length::<P, M>(
            cands[k - 1],
            &geo,
        ).lt_spec(tree_length::<P, M>(best, &geo)) {
            1int
        } else {
            0int
        }
    }
}

/// Whether `cands` are the trees that a search for `k` terminals held
/// against its best: what the method `rmt` - `worn` telling whether it is
/// worn out by now - made of the topologies `tops`, each of them one that an
/// enumerator hands out.
pub open spec fn tried<P: Point, M: MinkowskiSpace<P>, K: RMT<P, M>>(
    rmt: K,
    worn: bool,
    tops: Seq<SteinerTree<P>>,
    cands: Seq<Seq<NodeView<P::R>>>,
    k: nat,
    geo: M,
) -> bool {
    &&& tops.len() == cands.len()
    &&& forall|i: int|
        0 <= i < tops.len() ==> yields(#[trigger] tops[i], k) && moved(tops[i]@, cands[i])
    &&& !worn ==> forall|i: int|
        0 <= i < tops.len() ==> #[trigger] cands[i] == (rmt.find_law())(tops[i]@, geo)
}

/// Whether `st` is what a search for the terminals `t` comes to, and `n`
/// the number of times that it found a shorter tree: the best of `first`,
/// which joins the terminals alone, and of the trees `cands`, made of the
/// topologies `tops` in the order in which they came.
pub open spec fn found<P: Point, M: MinkowskiSpace<P>, K: RMT<P, M>>(
    st: Seq<NodeView<P::R>>,
    n: int,
    first: Seq<NodeView<P::R>>,
    tops: Seq<SteinerTree<P>>,
    cands: Seq<Seq<NodeView<P::R>>>,
    rmt: K,
    worn: bool,
    t: Seq<P>,
    geo: M,
) -> bool {
    &&& spans(first, t)
    &&& tried(rmt, worn, tops, cands, t.len(), geo)
    &&& st == best_of::<P, M>(first, cands, geo, cands.len() as int)
    &&& n == gains::<P, M>(first, cands, geo, cands.len() as int)
}

/// One tree more does not change what was the best before it, nor the
/// number of times that the best changed.
pub proof fn lemma_best_of_more<P: Point, M: MinkowskiSpace<P>>(
    first: Seq<NodeView<P::R>>,
    cands: Seq<Seq<NodeView<P::R>>>,
    c: Seq<NodeView<P::R>>,
    geo: M,
    k: int,
)
    requires
        k <= cands.len(),
    ensures
        best_of::<P, M>(first, cands.push(c), geo, k) == best_of::<P, M>(first, cands, geo, k),
        gains::<P, M>(first, cands.push(c), geo, k) == gains::<P, M>(first, cands, geo, k),
        gains::<P, M>(first, cands, geo, k) >= 0,
    decreases k,
{
    if k > 0 {
        lemma_best_of_more::<P, M>(first, cands, c, geo, k - 1);
        assert(cands.push(c)[k - 1] == cands[k - 1]);
    }
}

impl SteinerBnBData {
    /// The number of times that a shorter tree was found.
    pub closed spec fn spec_best_updates(&self) -> u64 {
        self.best_updates
    }

    /// The time that the last search took.
    pub closed spec fn spec_time(&self) -> Duration {
        self.time
    }

    /// Nothing counted yet, and no time taken.
    pub fn new() -> (d: Self)
        ensures
            d.spec_best_updates() == 0,
            span_nanos(d.spec_time()) == 0,
    {
        SteinerBnBData { time: no_time(), best_updates: 0 }
    }
}

impl Clone for SteinerBnBData {
    fn clone(&self) -> (r: Self)
        ensures
            r.spec_best_updates() == self.spec_best_updates(),
    {
        SteinerBnBData { time: self.time, best_updates: self.best_updates }
    }
}

impl SmtData for SteinerBnBData {
    fn time(&self) -> (t: &Duration)
        ensures
            *t == self.spec_time(),
    {
        &self.time
    }

    fn best_updates(&self) -> (n: u64)
        ensures
            n == self.spec_best_updates(),
    {
        self.best_updates
    }
}

impl<P, M, K, E, U> SteinerBnB<P, M, K, E, U> {
    /// The method for relatively minimal trees.
    pub closed spec fn spec_rmt(&self) -> K {
        self.rmt
    }

    /// The enumerator.
    pub closed spec fn spec_enumerator(&self) -> E {
        self.enumerator
    }

    /// The source of the first tree.
    pub closed spec fn spec_upperbound(&self) -> U {
        self.upperbound
    }

    /// The figures.
    pub closed spec fn spec_data(&self) -> SteinerBnBData {
        self.data
    }

    /// The branch and bound over the topologies of `enumerator`, relaxed by
    /// `rmt`, from the first tree of `u`.
    pub fn new(rmt: K, enumerator: E, u: U) -> (s: Self)
        ensures
            s.spec_rmt() == rmt,
            s.spec_enumerator() == enumerator,
            s.spec_data().spec_best_updates() == 0,
    {
        SteinerBnB {
            rmt,
            enumerator,
            upperbound: u,
            data: SteinerBnBData::new(),
            _m: PhantomData,
            _p: PhantomData,
        }
    }

    /// The method for relatively minimal trees.
    pub fn rmt_alg(&mut self) -> (k: &mut K)
        ensures
            *k == old(self).spec_rmt(),
            final(self).spec_rmt() == *final(k),
            final(self).spec_enumerator() == old(self).spec_enumerator(),
            final(self).spec_data() == old(self).spec_data(),
    {
        &mut self.rmt
    }

    /// The enumerator.
    pub fn enumerator(&mut self) -> (e: &mut E)
        ensures
            *e == old(self).spec_enumerator(),
            final(self).spec_enumerator() == *final(e),
            final(self).spec_rmt() == old(self).spec_rmt(),
            final(self).spec_data() == old(self).spec_data(),
    {
        &mut self.enumerator
    }
}

impl<P: Point, M: MinkowskiSpace<P>, K: RMT<P, M>, E: Enumerator<P>, U: UpperBound<P, M>> SMT<
    P,
    M,
> for SteinerBnB<P, M, K, E, U> {
    type D = SteinerBnBData;

    /// The best of the first tree of the upper bound and of what the
    /// method for relatively minimal trees makes of each topology that the
    /// enumerator hands out, in the order in which they come. The
    /// enumerator is set up for the terminals and asked until it has
    /// nothing more to hand out.
    fn find(&mut self, t: Vec<P>, geo: &M) -> (st: SteinerTree<P>)
        ensures
            exists|cands: Seq<Seq<NodeView<P::R>>>, n: int|
                #[trigger] found(
                    st@,
                    n,
                    (old(self).spec_upperbound().bound_law())(t@, *geo),
                    final(self).spec_enumerator().handed_out(),
                    cands,
                    old(self).spec_rmt(),
                    final(self).spec_rmt().worn_out(),
                    t@,
                    *geo,
                ) && final(self).spec_data().spec_best_updates() == bumped_by(
                    old(self).spec_data().spec_best_updates(),
                    n,
                ),
            final(self).spec_enumerator().remaining() == 0,
            rearranged(coords_of(t@), final(self).spec_enumerator().spec_given()),
            final(self).spec_upperbound() == old(self).spec_upperbound(),
            final(self).spec_rmt().find_law() == old(self).spec_rmt().find_law(),
            old(self).spec_rmt().worn_out() ==> final(self).spec_rmt().worn_out(),
            final(self).spec_data().spec_best_updates() >= old(self).spec_data().spec_best_updates(),
            final(self).spec_data().spec_best_updates() == old(self).spec_data().spec_best_updates()
                ==> spans(st@, t@) || old(self).spec_data().spec_best_updates() == u64::MAX,
            final(self).spec_data().spec_best_updates() > old(self).spec_data().spec_best_updates()
                ==> yields(st, t@.len()),
    {
        let start = now();
        let n = t.len();
        let copy = copy_points(&t);
        proof {
            assert(same_dim(copy@)) by {
                assert forall|i: int, j: int| 0 <= i < copy@.len() && 0 <= j < copy@.len() implies (
                #[trigger] copy@[i]).coords_spec().len() == (
                #[trigger] copy@[j]).coords_spec().len() by {
                    assert(copy@[i].coords_spec() == t@[i].coords_spec());
                    assert(copy@[j].coords_spec() == t@[j].coords_spec());
                }
            }
            assert(t@ + Seq::<P>::empty() =~= t@);
            assert(coords_of(copy@) =~= coords_of(t@));
        }
        let ghost given = t@;
        let mut best = self.upperbound.bound(t, geo);
        proof {
            let src = Seq::new(best@.len(), |i: int| i);
            assert(carried(best@, coords_of(given), src));
        }
        let mut best_len = best.len(geo);
        self.enumerator.init(copy, geo);
        let ghost mut changed = false;
        let ghost first = best@;
        let ghost law = self.rmt.find_law();
        let ghost mut tops: Seq<SteinerTree<P>> = Seq::empty();
        let ghost mut cands: Seq<Seq<NodeView<P::R>>> = Seq::empty();
        loop
            invariant
                spans(first, t@),
                first == (old(self).upperbound.bound_law())(t@, *geo),
                self.upperbound == old(self).upperbound,
                tops == self.enumerator.handed_out(),
                rearranged(coords_of(t@), self.enumerator.spec_given()),
                carries(best@, coords_of(t@)),
                self.rmt.find_law() == law,
                law == old(self).rmt.find_law(),
                old(self).rmt.worn_out() ==> self.rmt.worn_out(),
                tried(old(self).rmt, self.rmt.worn_out(), tops, cands, t@.len(), *geo),
                best@ == best_of::<P, M>(first, cands, *geo, cands.len() as int),
                best_len == tree_length::<P, M>(best@, geo),
                gains::<P, M>(first, cands, *geo, cands.len() as int) >= 0,
                self.data.best_updates == bumped_by(
                    old(self).data.best_updates,
                    gains::<P, M>(first, cands, *geo, cands.len() as int),
                ),
                self.enumerator.inv(),
                self.enumerator.spec_terminals() == n,
                n == t@.len(),
                best.wf(),
                best.spec_terminal_count() == n,
                n >= 1 ==> is_tree(adj_of(best@)),
                self.data.best_updates >= old(self).data.best_updates,
                !changed ==> spans(best@, t@)
                    && self.data.best_updates == old(self).data.best_updates,
                changed ==> self.data.best_updates > old(self).data.best_updates
                    || old(self).data.best_updates == u64::MAX,
                changed ==> yields(best, n as nat),
            ensures
                self.enumerator.remaining() == 0,
            decreases self.enumerator.remaining(),
        {
            if !self.enumerator.next(geo) {
                break ;
            }
            let full = self.enumerator.tree().terminals().len() == best.terminals().len();
            proof {
                assert(full);
            }
            if full {
                proof {
                    let tree = self.enumerator.spec_tree();
                    assert(relaxable(tree)) by {
                        if n < 3 {
                            assert forall|i: int|
                                0 <= i < tree@.len()
                                    && !(#[trigger] tree@[i]).is_terminal implies tree@[i].ns.len()
                                >= 3 by {
                                crate::enumerator::lemma_all_terminals(tree@, i);
                            }
                        }
                    }
                }
                let ghost before = self.enumerator.spec_tree();
                self.rmt.find(self.enumerator.tree_mut(), geo);
                proof {
                    lemma_relaxed_wf(before, self.enumerator.spec_tree());
                    if n >= 3 {
                        lemma_moved_full_topology(before@, self.enumerator.spec_tree()@, n as nat);
                    }
                }
                let len = self.enumerator.tree().len(geo);
                proof {
                    let c = self.enumerator.spec_tree()@;
                    lemma_best_of_more::<P, M>(first, cands, c, *geo, cands.len() as int);
                    assert(cands.push(c)[cands.len() as int] == c);
                    tops = tops.push(before);
                    cands = cands.push(c);
                    lemma_carries_moved(before@, c, self.enumerator.spec_given());
                    lemma_carries_rearranged(c, coords_of(t@), self.enumerator.spec_given());
                }
                if keep_better(self.enumerator.tree(), len, &mut best, &mut best_len, &mut self.data) {
                    proof {
                        changed = true;
                    }
                }
            }
        }
        self.data.time = since(&start);
        proof {
            assert(found(
                best@,
                gains::<P, M>(first, cands, *geo, cands.len() as int),
                (old(self).spec_upperbound().bound_law())(t@, *geo),
                self.spec_enumerator().handed_out(),
                cands,
                old(self).spec_rmt(),
                self.spec_rmt().worn_out(),
                t@,
                *geo,
            ));
            assert(self.spec_data().spec_best_updates() == bumped_by(
                old(self).spec_data().spec_best_updates(),
                gains::<P, M>(first, cands, *geo, cands.len() as int),
            ));
        }
        best
    }

    /// The figures, as `data` hands them out.
    open spec fn figures(&self) -> SteinerBnBData {
        self.spec_data()
    }

    fn data(&self) -> (d: &SteinerBnBData) {
        &self.data
    }
}

impl<P: Point> Default for SteinerBnB<
    P,
    EuclideanSpace,
    GeoMedianIter<P, EuclideanSpace, Uteshev>,
    GPEnumeration<P, FurthestSiteOrdering>,
    LineTree,
> {
    /// Uteshev's solution in Euclidean space, the Gilbert-Pollak
    /// enumeration in the order of the farthest sites, from the line tree.
    fn default() -> (s: Self)
        ensures
            s.spec_data().spec_best_updates() == 0,
    {
        SteinerBnB::new(
            GeoMedianIter::default(),
            GPEnumeration::default(),
            LineTree,
        )
    }
}

impl<P: Point, H: HyperEllipsoid<P>> SteinerBnB<
    P,
    H,
    GeoMedianIter<P, H, GeoMedianEllipsoid<P, Uteshev>>,
    GPEnumeration<P, FurthestSiteOrdering>,
    LineTree,
> {
    /// The branch and bound for a hyper-ellipsoid space.
    pub fn default_hyperellipsoid() -> (s: Self)
        ensures
            s.spec_data().spec_best_updates() == 0,
    {
        SteinerBnB::new(
            GeoMedianIter::default_with_geomedian(GeoMedianEllipsoid::default()),
            GPEnumeration::default_with_sorter(FurthestSiteOrdering),
            LineTree,
        )
    }
}

impl<P: Point, M, R> SteinerBnB<P, M, R, GPEnumeration<P, FurthestSiteOrdering>, LineTree> {
    /// The branch and bound with the method `rmt` for relatively minimal
    /// trees.
    pub fn default_rmt(rmt: R) -> (s: Self)
        ensures
            s.spec_rmt() == rmt,
            s.spec_data().spec_best_updates() == 0,
    {
        SteinerBnB::new(rmt, GPEnumeration::default_with_sorter(FurthestSiteOrdering), LineTree)
    }
}

/// A copy of the terminals.
pub fn copy_points<P: Point>(t: &Vec<P>) -> (c: Vec<P>)
    ensures
        c@.len() == t@.len(),
        forall|i: int|
            0 <= i < t@.len() ==> (#[trigger] c@[i]).coords_spec() == t@[i].coords_spec()
                && c@[i].id_spec() == t@[i].id_spec(),
{
    let mut c: Vec<P> = Vec::new();
    let mut i: usize = 0;
    while i < t.len()
        invariant
            i <= t@.len(),
            c@.len() == i,
            forall|j: int|
                0 <= j < i ==> (#[trigger] c@[j]).coords_spec() == t@[j].coords_spec()
                    && c@[j].id_spec() == t@[j].id_spec(),
        decreases t.len() - i,
    {
        c.push(t[i].duplicate());
        i += 1;
    }
    c
}

/// Whether a tree of length `len` is to take the place of the best so far,
/// of length `best_len`: whether it is shorter.
pub fn improves<R: Real>(len: R, best_len: R) -> (b: bool)
    ensures
        b == len.lt_spec(best_len),
{
    len.lt(best_len)
}

/// Takes `tree`, of length `len`, for the best tree if it is shorter than
/// the best so far, and counts that.
pub fn keep_better<P: Point>(
    tree: &SteinerTree<P>,
    len: P::R,
    best: &mut SteinerTree<P>,
    best_len: &mut P::R,
    data: &mut SteinerBnBData,
) -> (taken: bool)
    ensures
        taken == len.lt_spec(*old(best_len)),
        taken ==> final(best)@ == tree@ && final(best).spec_terminal_count()
            == tree.spec_terminal_count() && *final(best_len) == len
                && final(data).spec_best_updates() == bumped(old(data).spec_best_updates()),
        !taken ==> *final(best) == *old(best) && *final(best_len) == *old(best_len) && *final(data)
            == *old(data),
{
    if improves(len, *best_len) {
        if data.best_updates < u64::MAX {
            data.best_updates += 1;
        }
        *best = tree.clone();
        *best_len = len;
        true
    } else {
        false
    }
}

} // verus!
