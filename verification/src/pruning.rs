//! The pruning tests of the enumeration: whether the terminals that a new
//! Steiner point brings together lie too far apart for any completion of the
//! topology to be worth its length.

use crate::point::{seq_sub, Point};
use crate::scalar::Real;
use crate::space::MinkowskiSpace;
use crate::steiner_tree::{adj_of, view_wf, NodeView, SteinerTree};
use vstd::prelude::*;

verus! {

/// What the tests say of a topology.
#[derive(Clone, Copy, Debug, PartialEq, Eq, Structural)]
pub enum Verdict {
    /// Neither test objects.
    Keep,
    /// The bottleneck test gives it up.
    Bsd,
    /// The sphere test gives it up.
    Ss,
}

/// The bounds and switches that the tests work with: the bottleneck
/// distances and sphere radii by terminal identity, which tests are on, and
/// the number of terminals still to come.
pub struct Bounds<R> {
    pub bsd: Seq<Seq<R>>,
    pub ss: Seq<R>,
    pub e_bsd: bool,
    pub e_ss: bool,
    pub j: usize,
}

/// Whether the bounds cover the terminals of `v` and all counts fit.
pub open spec fn bounds_ok<R>(v: Seq<NodeView<R>>, c: Bounds<R>) -> bool {
    &&& view_wf(v)
    &&& 2 * v.len() + c.j + 3 <= usize::MAX
    &&& forall|i: int|
        0 <= i < v.len() && (#[trigger] v[i]).is_terminal ==> v[i].point_id < c.bsd.len() && (
        c.e_ss ==> v[i].point_id < c.ss.len())
    &&& forall|i: int| 0 <= i < c.bsd.len() ==> (#[trigger] c.bsd[i]).len() == c.bsd.len()
}

/// The verdict on the terminals at the nodes `p1` and `p2`, which the tree
/// joins by a path of `k` edges. With `j` terminals to come, their distance
/// `d` and their bottleneck distance `b`, the bottleneck test objects where
/// `d > (k + j + 1) b`, and else the sphere test where
/// `d > ss(p1) + ss(p2) + (k + j - 1) b`.
pub open spec fn pair_verdict<P: Point, M: MinkowskiSpace<P>>(
    v: Seq<NodeView<P::R>>,
    geo: &M,
    c: Bounds<P::R>,
    p1: usize,
    p2: usize,
    k: int,
) -> Verdict {
    let d = geo.norm_spec(seq_sub(v[p1 as int].coords, v[p2 as int].coords));
    let id1 = v[p1 as int].point_id as int;
    let id2 = v[p2 as int].point_id as int;
    let b = c.bsd[id1][id2];
    if c.e_bsd && P::R::from_usize_spec((k + c.j + 1) as usize).mul_spec(b).lt_spec(d) {
        Verdict::Bsd
    } else if c.e_ss && c.ss[id1].add_spec(c.ss[id2]).add_spec(
        P::R::from_usize_spec((k + c.j - 1) as usize).mul_spec(b),
    ).lt_spec(d) {
        Verdict::Ss
    } else {
        Verdict::Keep
    }
}

/// The first objection met when the tree is walked from `cur` away from
/// `prev`, `k` edges from the terminal at `other`, each terminal met being
/// tested against that terminal. A terminal that passes is, where
/// `second` names a branch and the Steiner point, tested against every
/// terminal of that branch as well. Neighbours are tried in order from the
/// `idx`-th on, `fuel` edges deep.
pub open spec fn walk<P: Point, M: MinkowskiSpace<P>>(
    v: Seq<NodeView<P::R>>,
    geo: &M,
    c: Bounds<P::R>,
    cur: usize,
    prev: usize,
    other: usize,
    k: int,
    fuel: nat,
    second: Option<(usize, usize)>,
    idx: int,
) -> Verdict
    decreases
            if second is Some {
                1int
            } else {
                0int
            },
            fuel,
            if cur < v.len() {
                v[cur as int].ns.len() - idx
            } else {
                0
            },
{
    if cur >= v.len() {
        Verdict::Keep
    } else if v[cur as int].is_terminal {
        let h = pair_verdict::<P, M>(v, geo, c, cur, other, k);
        if h != Verdict::Keep {
            h
        } else {
            match second {
                Some((n2, s)) => walk::<P, M>(v, geo, c, n2, s, cur, k, v.len(), None, 0),
                None => Verdict::Keep,
            }
        }
    } else if idx < 0 || idx >= v[cur as int].ns.len() {
        Verdict::Keep
    } else {
        let n = v[cur as int].ns[idx];
        if n == prev || fuel == 0 {
            walk::<P, M>(v, geo, c, cur, prev, other, k, fuel, second, idx + 1)
        } else {
            let h = walk::<P, M>(v, geo, c, n, cur, other, k + 1, (fuel - 1) as nat, second, 0);
            if h != Verdict::Keep {
                h
            } else {
                walk::<P, M>(v, geo, c, cur, prev, other, k, fuel, second, idx + 1)
            }
        }
    }
}

/// The two neighbours of the Steiner point `s` other than `t`, in the order
/// in which `s` lists them.
pub open spec fn branches<R>(v: Seq<NodeView<R>>, s: usize, t: usize) -> (usize, usize) {
    let ns = v[s as int].ns;
    if ns[0] == t {
        (ns[1], ns[2])
    } else if ns[1] == t {
        (ns[0], ns[2])
    } else {
        (ns[0], ns[1])
    }
}

/// The verdict on the topology that the Steiner point `s` and its terminal
/// `t` were just put into: the first objection met when the terminals of the
/// first branch are tested against `t` and against those of the second
/// branch, and then the terminals of the second branch against `t`.
pub open spec fn prune_verdict<P: Point, M: MinkowskiSpace<P>>(
    v: Seq<NodeView<P::R>>,
    geo: &M,
    c: Bounds<P::R>,
    s: usize,
    t: usize,
) -> Verdict {
    let (n1, n2) = branches(v, s, t);
    let h = walk::<P, M>(v, geo, c, n1, s, t, 2, v.len(), Some((n2, s)), 0);
    if h != Verdict::Keep {
        h
    } else {
        walk::<P, M>(v, geo, c, n2, s, t, 2, v.len(), None, 0)
    }
}

/// Tests the terminals at `p1` and `p2`.
pub fn test_pair<P: Point, M: MinkowskiSpace<P>>(
    tree: &SteinerTree<P>,
    geo: &M,
    bsd: &Vec<Vec<P::R>>,
    ss: &Vec<P::R>,
    e_bsd: bool,
    e_ss: bool,
    j: usize,
    p1: usize,
    p2: usize,
    k: usize,
) -> (h: Verdict)
    requires
        bounds_ok(tree@, Bounds { bsd: crate::bottleneck::rows(bsd@), ss: ss@, e_bsd, e_ss, j }),
        p1 < tree@.len(),
        p2 < tree@.len(),
        tree@[p1 as int].is_terminal,
        tree@[p2 as int].is_terminal,
        1 <= k,
        k + j + 1 <= usize::MAX,
    ensures
        h == pair_verdict::<P, M>(
            tree@,
            geo,
            Bounds { bsd: crate::bottleneck::rows(bsd@), ss: ss@, e_bsd, e_ss, j },
            p1,
            p2,
            k as int,
        ),
{
    let ghost c = Bounds { bsd: crate::bottleneck::rows(bsd@), ss: ss@, e_bsd, e_ss, j };
    proof {
        assert(tree@[p1 as int].coords.len() == tree@[0].coords.len());
        assert(tree@[p2 as int].coords.len() == tree@[0].coords.len());
        assert(tree@[p1 as int].point_id < c.bsd.len());
        assert(tree@[p2 as int].point_id < c.bsd.len());
        assert(c.bsd[tree@[p1 as int].point_id as int].len() == c.bsd.len());
    }
    let a = tree.i(p1).p();
    let b = tree.i(p2).p();
    let d = geo.dist(a, b);
    let id1 = a.id();
    let id2 = b.id();
    let bn = bsd[id1][id2];
    if e_bsd && P::R::from_usize(k + j + 1).mul(bn).lt(d) {
        Verdict::Bsd
    } else if e_ss && ss[id1].add(ss[id2]).add(P::R::from_usize(k + j - 1).mul(bn)).lt(d) {
        Verdict::Ss
    } else {
        Verdict::Keep
    }
}

/// Walks the tree from `cur` away from `prev`.
pub fn walk_paths<P: Point, M: MinkowskiSpace<P>>(
    tree: &SteinerTree<P>,
    geo: &M,
    bsd: &Vec<Vec<P::R>>,
    ss: &Vec<P::R>,
    e_bsd: bool,
    e_ss: bool,
    j: usize,
    cur: usize,
    prev: usize,
    other: usize,
    k: usize,
    fuel: usize,
    second: Option<(usize, usize)>,
) -> (h: Verdict)
    requires
        bounds_ok(tree@, Bounds { bsd: crate::bottleneck::rows(bsd@), ss: ss@, e_bsd, e_ss, j }),
        cur < tree@.len(),
        other < tree@.len(),
        tree@[other as int].is_terminal,
        second matches Some(pair) ==> pair.0 < tree@.len(),
        1 <= k,
        fuel <= tree@.len(),
        second is Some ==> k + fuel <= tree@.len() + 2,
        second is None ==> k + fuel <= 2 * tree@.len() + 2,
    ensures
        h == walk::<P, M>(
            tree@,
            geo,
            Bounds { bsd: crate::bottleneck::rows(bsd@), ss: ss@, e_bsd, e_ss, j },
            cur,
            prev,
            other,
            k as int,
            fuel as nat,
            second,
            0,
        ),
    decreases
            if second is Some {
                1int
            } else {
                0int
            },
            fuel,
{
    let ghost c = Bounds { bsd: crate::bottleneck::rows(bsd@), ss: ss@, e_bsd, e_ss, j };
    let node = tree.i(cur);
    if node.is_terminal() {
        let h = test_pair(tree, geo, bsd, ss, e_bsd, e_ss, j, cur, other, k);
        if h != Verdict::Keep {
            return h;
        }
        return match second {
            Some((n2, s)) => walk_paths(
                tree,
                geo,
                bsd,
                ss,
                e_bsd,
                e_ss,
                j,
                n2,
                s,
                cur,
                k,
                tree.node_count(),
                None,
            ),
            None => Verdict::Keep,
        };
    }
    let d = node.degree();
    let mut idx: usize = 0;
    while idx < d
        invariant
            idx <= d,
            bounds_ok(tree@, c),
            c == (Bounds { bsd: crate::bottleneck::rows(bsd@), ss: ss@, e_bsd, e_ss, j }),
            cur < tree@.len(),
            other < tree@.len(),
            tree@[other as int].is_terminal,
            second matches Some(pair) ==> pair.0 < tree@.len(),
            1 <= k,
            fuel <= tree@.len(),
            second is Some ==> k + fuel <= tree@.len() + 2,
            second is None ==> k + fuel <= 2 * tree@.len() + 2,
            node@ == tree@[cur as int],
            !tree@[cur as int].is_terminal,
            d == tree@[cur as int].ns.len(),
            walk::<P, M>(tree@, geo, c, cur, prev, other, k as int, fuel as nat, second, 0)
                == walk::<P, M>(
                tree@,
                geo,
                c,
                cur,
                prev,
                other,
                k as int,
                fuel as nat,
                second,
                idx as int,
            ),
        decreases d - idx,
    {
        let n = node.neighbour(idx);
        proof {
            assert(adj_of(tree@)[cur as int][idx as int] < tree@.len());
        }
        if n != prev && fuel > 0 {
            let h = walk_paths(
                tree,
                geo,
                bsd,
                ss,
                e_bsd,
                e_ss,
                j,
                n,
                cur,
                other,
                k + 1,
                fuel - 1,
                second,
            );
            if h != Verdict::Keep {
                return h;
            }
        }
        idx += 1;
    }
    Verdict::Keep
}

/// Tests the topology that the Steiner point `s` and its terminal `t` were
/// just put into.
pub fn prune_paths_check<P: Point, M: MinkowskiSpace<P>>(
    tree: &SteinerTree<P>,
    geo: &M,
    bsd: &Vec<Vec<P::R>>,
    ss: &Vec<P::R>,
    e_bsd: bool,
    e_ss: bool,
    j: usize,
    s: usize,
    t: usize,
) -> (h: Verdict)
    requires
        bounds_ok(tree@, Bounds { bsd: crate::bottleneck::rows(bsd@), ss: ss@, e_bsd, e_ss, j }),
        s < tree@.len(),
        t < tree@.len(),
        tree@[t as int].is_terminal,
        tree@[s as int].ns.len() == 3,
    ensures
        h == prune_verdict::<P, M>(
            tree@,
            geo,
            Bounds { bsd: crate::bottleneck::rows(bsd@), ss: ss@, e_bsd, e_ss, j },
            s,
            t,
        ),
{
    let node = tree.i(s);
    let a = node.neighbour(0);
    let b = node.neighbour(1);
    let c = node.neighbour(2);
    let (n1, n2) = if a == t {
        (b, c)
    } else if b == t {
        (a, c)
    } else {
        (a, b)
    };
    proof {
        assert(adj_of(tree@)[s as int][0] < tree@.len());
        assert(adj_of(tree@)[s as int][1] < tree@.len());
        assert(adj_of(tree@)[s as int][2] < tree@.len());
    }
    let n = tree.node_count();
    let h = walk_paths(tree, geo, bsd, ss, e_bsd, e_ss, j, n1, s, t, 2, n, Some((n2, s)));
    if h != Verdict::Keep {
        return h;
    }
    walk_paths(tree, geo, bsd, ss, e_bsd, e_ss, j, n2, s, t, 2, n, None)
}

} // verus!
