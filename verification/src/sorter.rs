//! The order in which the terminals enter the enumeration.

use crate::point::Point;
use crate::scalar::Real;
use crate::space::{dist_spec, MinkowskiSpace};
use vstd::prelude::*;

verus! {

/// The order in which the terminals come.
#[derive(Debug)]
pub struct NoOrdering;

/// The three indices that lie farthest apart so far, and the sum of their
/// distances.
pub struct Seed<R> {
    pub max: R,
    pub i: usize,
    pub j: usize,
    pub k: usize,
}

/// The order of the farthest sites.
#[derive(Debug)]
pub struct FurthestSiteOrdering;

/// The orders that have a name: the terminals as they come, and the order
/// of the farthest sites. An order of its own kind is `Unnamed`.
pub enum Order {
    AsGiven,
    FurthestSites,
    Unnamed,
}

/// The terminals `t` in the order `o`, where that has a name.
pub open spec fn in_order<P: Point, M: MinkowskiSpace<P>>(o: Order, t: Seq<P>, geo: &M) -> Seq<P> {
    match o {
        Order::FurthestSites => furthest_site_order::<P, M>(t, geo),
        _ => t,
    }
}

/// An order for the terminals.
///
/// A sorter says which order it gives, and sorting does not change that.
pub trait TerminalSorter {
    /// The order that `sort` gives.
    spec fn order(&self) -> Order;

    /// Rearranges the terminals: into the order that the sorter names, or,
    /// if that is `Unnamed`, into some order.
    fn sort<P: Point, M: MinkowskiSpace<P>>(&mut self, t: &mut Vec<P>, geo: &M)
        requires
            same_dim(old(t)@),
        ensures
            rearranged(old(t)@, final(t)@),
            old(self).order() != Order::Unnamed ==> final(t)@ == in_order::<P, M>(
                old(self).order(),
                old(t)@,
                geo,
            ),
            final(self).order() == old(self).order(),
    ;
}

/// `s` with the entries at `a` and `b` exchanged.
pub open spec fn swapped<T>(s: Seq<T>, a: int, b: int) -> Seq<T> {
    s.update(a, s[b]).update(b, s[a])
}

/// Whether `pi` lists the indices below `n`, each once.
pub open spec fn is_permutation(pi: Seq<int>, n: nat) -> bool {
    &&& pi.len() == n
    &&& forall|i: int| 0 <= i < n ==> 0 <= #[trigger] pi[i] < n
    &&& forall|i: int, j: int| 0 <= i < j < n ==> #[trigger] pi[i] != #[trigger] pi[j]
}

/// Whether `new` holds the entries of `old` in some order, each as often.
#[verifier::opaque]
pub open spec fn rearranged<T>(old: Seq<T>, new: Seq<T>) -> bool {
    exists|pi: Seq<int>| #[trigger]
        is_permutation(pi, old.len()) && new.len() == old.len() && forall|i: int|
            0 <= i < new.len() ==> #[trigger] new[i] == old[pi[i]]
}

/// Whether all points have one dimension.
pub open spec fn same_dim<P: Point>(t: Seq<P>) -> bool {
    forall|i: int, j: int|
        0 <= i < t.len() && 0 <= j < t.len() ==> (#[trigger] t[i]).coords_spec().len() == (
        #[trigger] t[j]).coords_spec().len()
}

/// The distance in `geo` between the points at `a` and `b`.
pub open spec fn gap<P: Point, M: MinkowskiSpace<P>>(t: Seq<P>, geo: &M, a: int, b: int) -> P::R {
    dist_spec::<P, M>(geo, t[a].coords_spec(), t[b].coords_spec())
}

/// The seed after the triples `(i, j, k)`, `j < k < k_end`, were looked at:
/// a triple takes over where the sum of its three distances is above the
/// maximum so far.
pub open spec fn seed_k<P: Point, M: MinkowskiSpace<P>>(
    t: Seq<P>,
    geo: &M,
    st: Seed<P::R>,
    i: int,
    j: int,
    k_end: int,
) -> Seed<P::R>
    decreases k_end - j,
{
    if k_end <= j + 1 {
        st
    } else {
        let prev = seed_k::<P, M>(t, geo, st, i, j, k_end - 1);
        let k = k_end - 1;
        let sum = gap::<P, M>(t, geo, i, j).add_spec(gap::<P, M>(t, geo, i, k)).add_spec(
            gap::<P, M>(t, geo, k, j),
        );
        if prev.max.lt_spec(sum) {
            Seed { max: sum, i: i as usize, j: j as usize, k: k as usize }
        } else {
            prev
        }
    }
}

/// The seed after the triples `(i, j, k)`, `i < j < j_end`, were looked at.
pub open spec fn seed_j<P: Point, M: MinkowskiSpace<P>>(
    t: Seq<P>,
    geo: &M,
    st: Seed<P::R>,
    i: int,
    j_end: int,
) -> Seed<P::R>
    decreases j_end - i,
{
    if j_end <= i + 1 {
        st
    } else {
        seed_k::<P, M>(
            t,
            geo,
            seed_j::<P, M>(t, geo, st, i, j_end - 1),
            i,
            j_end - 1,
            t.len() as int,
        )
    }
}

/// The seed after all triples that begin below `i_end` were looked at, from
/// the maximum zero on.
pub open spec fn seed_i<P: Point, M: MinkowskiSpace<P>>(
    t: Seq<P>,
    geo: &M,
    i_end: int,
) -> Seed<P::R>
    decreases i_end,
{
    if i_end <= 0 {
        Seed { max: P::R::zero_spec(), i: 0, j: 0, k: 0 }
    } else {
        seed_j::<P, M>(t, geo, seed_i::<P, M>(t, geo, i_end - 1), i_end - 1, t.len() - 1)
    }
}

/// The terminals with the seed in front: the first three places exchanged,
/// one after the other, with the places of the seed.
pub open spec fn seed_first<P: Point, M: MinkowskiSpace<P>>(t: Seq<P>, geo: &M) -> Seq<P> {
    let seed = seed_i::<P, M>(t, geo, t.len() - 2);
    swapped(swapped(swapped(t, 0, seed.i as int), 1, seed.j as int), 2, seed.k as int)
}

/// The largest distance from the point at `p` to the first `a_end` points,
/// from zero on.
pub open spec fn far<P: Point, M: MinkowskiSpace<P>>(t: Seq<P>, geo: &M, p: int, a_end: int) -> P::R
    decreases a_end,
{
    if a_end <= 0 {
        P::R::zero_spec()
    } else {
        far::<P, M>(t, geo, p, a_end - 1).max_spec(gap::<P, M>(t, geo, p, a_end - 1))
    }
}

/// Among the `r_end` points from place `i` on, the offset of the one that is
/// farthest from the points before `i`, with that distance: a point takes
/// over where its distance is above the maximum so far, which starts at zero.
pub open spec fn pick<P: Point, M: MinkowskiSpace<P>>(t: Seq<P>, geo: &M, i: int, r_end: int) -> (
    usize,
    P::R,
)
    decreases r_end,
{
    if r_end <= 0 {
        (0, P::R::zero_spec())
    } else {
        let prev = pick::<P, M>(t, geo, i, r_end - 1);
        let md = far::<P, M>(t, geo, i + r_end - 1, i);
        if prev.1.lt_spec(md) {
            ((r_end - 1) as usize, md)
        } else {
            prev
        }
    }
}

/// The terminals after the places from 3 to below `i_end` were filled, each
/// with the point that `pick` finds.
pub open spec fn filled<P: Point, M: MinkowskiSpace<P>>(t: Seq<P>, geo: &M, i_end: int) -> Seq<P>
    decreases i_end,
{
    if i_end <= 3 {
        t
    } else {
        let prev = filled::<P, M>(t, geo, i_end - 1);
        let i = i_end - 1;
        swapped(prev, i, i + pick::<P, M>(prev, geo, i, prev.len() - i).0)
    }
}

/// The order of the farthest sites: the three terminals that lie farthest
/// apart come first, then, place by place but for the last, the terminal
/// farthest from those before it. Fewer than three terminals stay as they
/// are.
pub open spec fn furthest_site_order<P: Point, M: MinkowskiSpace<P>>(t: Seq<P>, geo: &M) -> Seq<P> {
    if t.len() < 3 {
        t
    } else {
        filled::<P, M>(seed_first::<P, M>(t, geo), geo, t.len() - 1)
    }
}

impl TerminalSorter for NoOrdering {
    /// The terminals as they come.
    open spec fn order(&self) -> Order {
        Order::AsGiven
    }

    fn sort<P: Point, M: MinkowskiSpace<P>>(&mut self, t: &mut Vec<P>, geo: &M)
        ensures
            final(t)@ == old(t)@,
    {
        proof {
            lemma_rearranged_refl(t@);
        }
    }
}

impl FurthestSiteOrdering {
    /// The largest distance from the point at `p` to the first `a_end` points.
    pub fn far_dist<P: Point, M: MinkowskiSpace<P>>(
        t: &Vec<P>,
        geo: &M,
        p: usize,
        a_end: usize,
    ) -> (r: P::R)
        requires
            same_dim(t@),
            p < t@.len(),
            a_end <= t@.len(),
        ensures
            r == far::<P, M>(t@, geo, p as int, a_end as int),
    {
        let mut m = P::R::zero();
        let mut a: usize = 0;
        while a < a_end
            invariant
                a <= a_end <= t@.len(),
                p < t@.len(),
                same_dim(t@),
                m == far::<P, M>(t@, geo, p as int, a as int),
            decreases a_end - a,
        {
            m = m.max(geo.dist(&t[p], &t[a]));
            a += 1;
        }
        m
    }

    /// The offset from `i` of the point that goes to place `i`.
    pub fn pick_next<P: Point, M: MinkowskiSpace<P>>(t: &Vec<P>, geo: &M, i: usize) -> (k: usize)
        requires
            same_dim(t@),
            i < t@.len(),
        ensures
            k == pick::<P, M>(t@, geo, i as int, t@.len() - i).0,
            i + k < t@.len(),
    {
        let n = t.len();
        let mut best: usize = 0;
        let mut max = P::R::zero();
        let mut r: usize = 0;
        while r < n - i
            invariant
                i < n,
                n == t@.len(),
                r <= n - i,
                same_dim(t@),
                (best, max) == pick::<P, M>(t@, geo, i as int, r as int),
            decreases n - i - r,
        {
            let md = Self::far_dist(t, geo, i + r, i);
            if max.lt(md) {
                best = r;
                max = md;
            }
            r += 1;
        }
        proof {
            lemma_pick_range::<P, M>(t@, geo, i as int, n - i);
        }
        best
    }

    /// The three places that lie farthest apart.
    pub fn find_seed<P: Point, M: MinkowskiSpace<P>>(t: &Vec<P>, geo: &M) -> (s: Seed<P::R>)
        requires
            same_dim(t@),
            t@.len() >= 3,
        ensures
            s == seed_i::<P, M>(t@, geo, t@.len() - 2),
            s.i < t@.len(),
            s.j < t@.len(),
            s.k < t@.len(),
    {
        let n = t.len();
        let mut st = Seed { max: P::R::zero(), i: 0, j: 0, k: 0 };
        let mut i: usize = 0;
        while i < n - 2
            invariant
                n == t@.len(),
                n >= 3,
                i <= n - 2,
                same_dim(t@),
                st == seed_i::<P, M>(t@, geo, i as int),
                st.i < n && st.j < n && st.k < n,
            decreases n - i,
        {
            let ghost st_i = st;
            let mut j: usize = i + 1;
            while j < n - 1
                invariant
                    n == t@.len(),
                    i < j <= n - 1,
                    i < n - 2,
                    same_dim(t@),
                    st == seed_j::<P, M>(t@, geo, st_i, i as int, j as int),
                    st.i < n && st.j < n && st.k < n,
                decreases n - j,
            {
                let ghost st_j = st;
                let dij = geo.dist(&t[i], &t[j]);
                let mut k: usize = j + 1;
                while k < n
                    invariant
                        n == t@.len(),
                        i < j < k <= n,
                        same_dim(t@),
                        dij == gap::<P, M>(t@, geo, i as int, j as int),
                        st == seed_k::<P, M>(t@, geo, st_j, i as int, j as int, k as int),
                        st.i < n && st.j < n && st.k < n,
                    decreases n - k,
                {
                    let dik = geo.dist(&t[i], &t[k]);
                    let dkj = geo.dist(&t[k], &t[j]);
                    let sum = dij.add(dik).add(dkj);
                    if st.max.lt(sum) {
                        st = Seed { max: sum, i, j, k };
                    }
                    k += 1;
                }
                j += 1;
            }
            i += 1;
        }
        st
    }
}

impl TerminalSorter for FurthestSiteOrdering {
    /// The order of the farthest sites.
    open spec fn order(&self) -> Order {
        Order::FurthestSites
    }

    fn sort<P: Point, M: MinkowskiSpace<P>>(&mut self, t: &mut Vec<P>, geo: &M)
        ensures
            final(t)@ == furthest_site_order::<P, M>(old(t)@, geo),
    {
        let n = t.len();
        proof {
            lemma_rearranged_refl(t@);
        }
        if n < 3 {
            return ;
        }
        let seed = Self::find_seed(t, geo);
        exchange(t, 0, seed.i, Ghost(old(t)@));
        exchange(t, 1, seed.j, Ghost(old(t)@));
        exchange(t, 2, seed.k, Ghost(old(t)@));
        let ghost start = t@;
        proof {
            assert(start == seed_first::<P, M>(old(t)@, geo));
            assert(filled::<P, M>(start, geo, 3) == start);
            assert(filled::<P, M>(start, geo, 2) == start);
        }
        let mut i: usize = 3;
        while i < n - 1
            invariant
                n == t@.len(),
                n >= 3,
                3 <= i,
                i <= n - 1 || n == 3,
                n == 3 ==> i == 3,
                start.len() == n,
                filled::<P, M>(start, geo, 2) == start,
                same_dim(old(t)@),
                same_dim(t@),
                rearranged(old(t)@, t@),
                t@ == filled::<P, M>(start, geo, i as int),
            decreases n - i,
        {
            let k = Self::pick_next(t, geo, i);
            exchange(t, i, i + k, Ghost(old(t)@));
            i += 1;
        }
        proof {
            assert(t@ == filled::<P, M>(start, geo, n - 1));
        }
    }
}

/// `<[T]>::swap`: exchanges the entries at `a` and `b`.
#[verifier::external_body]
pub(crate) fn swap<T>(v: &mut Vec<T>, a: usize, b: usize)
    requires
        a < old(v)@.len(),
        b < old(v)@.len(),
    ensures
        final(v)@ == swapped(old(v)@, a as int, b as int),
{
    v.swap(a, b)
}

/// Exchanges two of the terminals.
fn exchange<P: Point>(t: &mut Vec<P>, a: usize, b: usize, Ghost(origin): Ghost<Seq<P>>)
    requires
        rearranged(origin, old(t)@),
        same_dim(origin),
        a < old(t)@.len(),
        b < old(t)@.len(),
    ensures
        final(t)@ == swapped(old(t)@, a as int, b as int),
        final(t)@.len() == old(t)@.len(),
        rearranged(origin, final(t)@),
        same_dim(final(t)@),
{
    proof {
        lemma_swap_rearranged(origin, t@, a as int, b as int);
        lemma_rearranged_dim(origin, swapped(t@, a as int, b as int));
    }
    swap(t, a, b);
}

/// A rearrangement stays one when two entries are exchanged.
pub proof fn lemma_swap_rearranged<T>(old: Seq<T>, cur: Seq<T>, a: int, b: int)
    requires
        rearranged(old, cur),
        0 <= a < cur.len(),
        0 <= b < cur.len(),
    ensures
        rearranged(old, swapped(cur, a, b)),
{
    reveal(rearranged);
    let pi = choose|pi: Seq<int>| #[trigger]
        is_permutation(pi, old.len()) && cur.len() == old.len() && forall|i: int|
            0 <= i < cur.len() ==> #[trigger] cur[i] == old[pi[i]];
    let qi = swapped(pi, a, b);
    let new = swapped(cur, a, b);
    assert(is_permutation(qi, old.len())) by {
        assert forall|i: int, j: int| 0 <= i < j < old.len() implies #[trigger] qi[i]
            != #[trigger] qi[j] by {
            let i0 = if i == a {
                b
            } else if i == b {
                a
            } else {
                i
            };
            let j0 = if j == a {
                b
            } else if j == b {
                a
            } else {
                j
            };
            assert(qi[i] == pi[i0] && qi[j] == pi[j0]);
            if i0 < j0 {
                assert(pi[i0] != pi[j0]);
            } else {
                assert(pi[j0] != pi[i0]);
            }
        }
    }
    assert forall|i: int| 0 <= i < new.len() implies #[trigger] new[i] == old[qi[i]] by {
        if i == a {
            assert(cur[b] == old[pi[b]]);
        } else if i == b {
            assert(cur[a] == old[pi[a]]);
        } else {
            assert(cur[i] == old[pi[i]]);
        }
    }
    assert(is_permutation(qi, old.len()) && new.len() == old.len() && forall|i: int|
        0 <= i < new.len() ==> #[trigger] new[i] == old[qi[i]]);
}

/// Every list is a rearrangement of itself.
pub proof fn lemma_rearranged_refl<T>(s: Seq<T>)
    ensures
        rearranged(s, s),
{
    reveal(rearranged);
    let pi = Seq::new(s.len(), |i: int| i);
    assert(is_permutation(pi, s.len()) && s.len() == s.len() && forall|i: int|
        0 <= i < s.len() ==> #[trigger] s[i] == s[pi[i]]);
}

/// A rearrangement of points of one dimension has points of that dimension.
pub proof fn lemma_rearranged_dim<P: Point>(old: Seq<P>, new: Seq<P>)
    requires
        rearranged(old, new),
        same_dim(old),
    ensures
        same_dim(new),
        new.len() == old.len(),
        forall|i: int|
            0 <= i < new.len() ==> (#[trigger] new[i]).coords_spec().len()
                == old[0].coords_spec().len(),
{
    reveal(rearranged);
    let pi = choose|pi: Seq<int>| #[trigger]
        is_permutation(pi, old.len()) && new.len() == old.len() && forall|i: int|
            0 <= i < new.len() ==> #[trigger] new[i] == old[pi[i]];
    assert forall|i: int| 0 <= i < new.len() implies (#[trigger] new[i]).coords_spec().len()
        == old[0].coords_spec().len() by {
        assert(new[i] == old[pi[i]]);
        assert(old[pi[i]].coords_spec().len() == old[0].coords_spec().len());
    }
}

/// The seed names three places of the list.
pub proof fn lemma_seed_k_range<P: Point, M: MinkowskiSpace<P>>(
    t: Seq<P>,
    geo: &M,
    st: Seed<P::R>,
    i: int,
    j: int,
    k_end: int,
)
    requires
        0 <= i < j < t.len() <= usize::MAX,
        k_end <= t.len(),
        st.i < t.len() && st.j < t.len() && st.k < t.len(),
    ensures
        seed_k::<P, M>(t, geo, st, i, j, k_end).i < t.len(),
        seed_k::<P, M>(t, geo, st, i, j, k_end).j < t.len(),
        seed_k::<P, M>(t, geo, st, i, j, k_end).k < t.len(),
    decreases k_end - j,
{
    if k_end > j + 1 {
        lemma_seed_k_range::<P, M>(t, geo, st, i, j, k_end - 1);
    }
}

/// The offset that `pick` finds lies among the points that it looks at.
pub proof fn lemma_pick_range<P: Point, M: MinkowskiSpace<P>>(
    t: Seq<P>,
    geo: &M,
    i: int,
    r_end: int,
)
    requires
        r_end <= usize::MAX,
    ensures
        pick::<P, M>(t, geo, i, r_end).0 < r_end || pick::<P, M>(t, geo, i, r_end).0 == 0,
    decreases r_end,
{
    if r_end > 0 {
        lemma_pick_range::<P, M>(t, geo, i, r_end - 1);
    }
}

} // verus!
