//! The depth-first search of the enumeration as a function: from one stand
//! of tree, edge list and cursors to the next.

use crate::enumerator_data::capped;
use crate::point::Point;
use crate::pruning::{prune_verdict, Bounds, Verdict};
use crate::space::MinkowskiSpace;
use crate::steiner_tree::NodeView;
use crate::topology::{split_edges, split_view, unsplit_edges, unsplit_view};
use vstd::prelude::*;

verus! {

/// Where the search stands: the tree, its edges in the order of the
/// enumeration, and the cursors, one for each level reached.
pub struct Stand<R> {
    pub v: Seq<NodeView<R>>,
    pub edges: Seq<(usize, usize)>,
    pub top: Seq<usize>,
}

/// What the search works with: where each terminal lies, by its identity,
/// and the bounds of the tests.
pub struct Setting<R> {
    pub terminals: Seq<Seq<R>>,
    pub bounds: Bounds<R>,
}

/// The number of terminals that wait to be put in.
pub open spec fn waiting<R>(s: Stand<R>, c: Setting<R>) -> int {
    c.terminals.len() - 2 - s.top.len()
}

/// The stand after the next terminal was put in: the edge under the cursor
/// on top is split, that cursor moves on, and a new one is set on top.
pub open spec fn put_in<P: Point>(s: Stand<P::R>, c: Setting<P::R>) -> Stand<P::R> {
    let ei = s.top.last();
    let l = waiting(s, c) - 1;
    Stand {
        v: split_view(s.v, s.edges[ei as int].0, s.edges[ei as int].1, c.terminals[l], l as usize),
        edges: split_edges(s.edges, ei as int, (s.v.len() + 1) as usize),
        top: s.top.update(s.top.len() - 1, (ei + 1) as usize).push(0),
    }
}

/// The verdict of the tests on a stand that a terminal was just put into.
/// With both tests off every topology is kept.
pub open spec fn judged<P: Point, M: MinkowskiSpace<P>>(
    s: Stand<P::R>,
    c: Setting<P::R>,
    geo: &M,
) -> Verdict {
    if c.bounds.e_bsd || c.bounds.e_ss {
        prune_verdict::<P, M>(
            s.v,
            geo,
            Bounds { j: waiting(s, c) as usize, ..c.bounds },
            (s.v.len() - 1) as usize,
            (s.v.len() - 2) as usize,
        )
    } else {
        Verdict::Keep
    }
}

/// The stand after the last split was undone.
pub open spec fn popped<R>(s: Stand<R>) -> Stand<R> {
    let ei = s.top[s.top.len() - 2] - 1;
    Stand {
        v: unsplit_view(s.v, s.edges[ei].0, s.edges.last().0),
        edges: unsplit_edges(s.edges, ei),
        top: s.top.drop_last(),
    }
}

/// Whether the cursor on top stands behind the last edge.
pub open spec fn exhausted<R>(s: Stand<R>) -> bool {
    s.top.last() == s.edges.len()
}

/// The stand after every level whose cursor stands behind the last edge was
/// undone, from the top down to the first level that has an edge left, or to
/// the seed.
pub open spec fn unwound<R>(s: Stand<R>) -> Stand<R>
    decreases s.top.len(),
{
    if s.top.len() >= 2 && exhausted(s) {
        unwound(popped(s))
    } else {
        s
    }
}

/// One step of the search from a stand that has an edge left and a terminal
/// waiting: the terminal is put in and the topology tested. A topology that
/// passes stays; the answer is `Some(true)` where it is full and `None`
/// where terminals still wait. One that is given up is undone, and the
/// search goes back to the next edge that is left; the answer is
/// `Some(false)` where there is none, and else `None`.
pub open spec fn stepped<P: Point, M: MinkowskiSpace<P>>(
    s: Stand<P::R>,
    c: Setting<P::R>,
    geo: &M,
) -> (Stand<P::R>, Option<bool>) {
    let put = put_in::<P>(s, c);
    if judged::<P, M>(put, c, geo) == Verdict::Keep {
        (
            put,
            if waiting(put, c) == 0 {
                Some(true)
            } else {
                None
            },
        )
    } else {
        let back = unwound(popped(put));
        (
            back,
            if exhausted(back) {
                Some(false)
            } else {
                None
            },
        )
    }
}

/// The stand that the search reaches within `fuel` steps, and whether it is
/// a full topology - or nothing, where more steps are needed.
pub open spec fn searched<P: Point, M: MinkowskiSpace<P>>(
    s: Stand<P::R>,
    c: Setting<P::R>,
    geo: &M,
    fuel: nat,
) -> Option<(Stand<P::R>, bool)>
    decreases fuel,
{
    if fuel == 0 {
        None
    } else {
        let (next, answer) = stepped::<P, M>(s, c, geo);
        match answer {
            Some(b) => Some((next, b)),
            None => searched::<P, M>(next, c, geo, (fuel - 1) as nat),
        }
    }
}

/// What the search counts: the topologies built and kept, and those given
/// up by the bottleneck test and by the sphere test, level by level.
pub struct Tally {
    pub nodes: usize,
    pub bsd: Seq<usize>,
    pub ss: Seq<usize>,
}

/// The counts after one step of the search: a topology that passes the tests
/// is counted as built; one that is given up is counted for the test that
/// objected, at the level of the terminal put in.
pub open spec fn counted<P: Point, M: MinkowskiSpace<P>>(
    s: Stand<P::R>,
    c: Setting<P::R>,
    geo: &M,
    n: Tally,
) -> Tally {
    let put = put_in::<P>(s, c);
    let level = put.top.len() - 2;
    match judged::<P, M>(put, c, geo) {
        Verdict::Keep => Tally { nodes: capped(n.nodes + 1), ..n },
        Verdict::Bsd => Tally { bsd: n.bsd.update(level, capped(n.bsd[level] + 1)), ..n },
        Verdict::Ss => Tally { ss: n.ss.update(level, capped(n.ss[level] + 1)), ..n },
    }
}

/// The counts after the steps that `searched` takes within `fuel` steps.
pub open spec fn tallied<P: Point, M: MinkowskiSpace<P>>(
    s: Stand<P::R>,
    c: Setting<P::R>,
    geo: &M,
    n: Tally,
    fuel: nat,
) -> Tally
    decreases fuel,
{
    if fuel == 0 {
        n
    } else {
        let (next, answer) = stepped::<P, M>(s, c, geo);
        let m = counted::<P, M>(s, c, geo, n);
        match answer {
            Some(b) => m,
            None => tallied::<P, M>(next, c, geo, m, (fuel - 1) as nat),
        }
    }
}

/// One step more in front of a search is a search.
pub proof fn lemma_searched_step<P: Point, M: MinkowskiSpace<P>>(
    s: Stand<P::R>,
    c: Setting<P::R>,
    geo: &M,
    fuel: nat,
)
    requires
        stepped::<P, M>(s, c, geo).1 is None,
    ensures
        searched::<P, M>(s, c, geo, fuel + 1) == searched::<P, M>(
            stepped::<P, M>(s, c, geo).0,
            c,
            geo,
            fuel,
        ),
        forall|n: Tally|
            #[trigger] tallied::<P, M>(s, c, geo, n, fuel + 1) == tallied::<P, M>(
                stepped::<P, M>(s, c, geo).0,
                c,
                geo,
                counted::<P, M>(s, c, geo, n),
                fuel,
            ),
{
}

} // verus!
