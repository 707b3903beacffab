//! The two bounds that the enumeration prunes with: for each terminal the
//! distance to the nearest other, and for each two terminals the longest
//! edge on the way between them in the minimum spanning tree.

use crate::mst::{kruskal_tree, Kruskal, MST};
use crate::point::{seq_sub, Point};
use crate::scalar::Real;
use crate::sorter::{gap, same_dim};
use crate::space::MinkowskiSpace;
use crate::steiner_tree::{adj_of, NodeView, SteinerTree};
use vstd::prelude::*;

verus! {

/// The least distance from terminal `i` to the terminals before `j_end`,
/// itself left out: the first distance met, then each that is below the
/// least so far.
pub open spec fn nearest<P: Point, M: MinkowskiSpace<P>>(
    t: Seq<P>,
    geo: &M,
    i: int,
    j_end: int,
) -> Option<P::R>
    decreases j_end,
{
    if j_end <= 0 {
        None
    } else {
        let prev = nearest::<P, M>(t, geo, i, j_end - 1);
        let j = j_end - 1;
        if j == i {
            prev
        } else {
            let dd = gap::<P, M>(t, geo, j, i);
            match prev {
                None => Some(dd),
                Some(d) => if dd.lt_spec(d) {
                    Some(dd)
                } else {
                    Some(d)
                },
            }
        }
    }
}

/// The radius of the smallest sphere of terminal `i`: the distance to its
/// nearest other terminal, or zero where it is alone.
pub open spec fn sphere_radius<P: Point, M: MinkowskiSpace<P>>(t: Seq<P>, geo: &M, i: int) -> P::R {
    match nearest::<P, M>(t, geo, i, t.len() as int) {
        Some(d) => d,
        None => P::R::zero_spec(),
    }
}

/// The radii of the smallest spheres of all terminals.
pub open spec fn sphere_radii<P: Point, M: MinkowskiSpace<P>>(t: Seq<P>, geo: &M) -> Seq<P::R> {
    Seq::new(t.len(), |i: int| sphere_radius::<P, M>(t, geo, i))
}

/// Whether `goal` is found from `start` without going back to `prev`, and the
/// largest edge length met on the way there, `b` included. The neighbours of
/// `start` are tried in order from the `idx`-th on; the search goes `fuel`
/// edges deep, which in a tree of that many nodes is every depth there is.
pub open spec fn bottleneck_from<P: Point, M: MinkowskiSpace<P>>(
    v: Seq<NodeView<P::R>>,
    geo: &M,
    start: usize,
    goal: usize,
    prev: usize,
    b: P::R,
    fuel: nat,
    idx: int,
) -> (bool, P::R)
    decreases fuel, if start < v.len() {
        v[start as int].ns.len() - idx
    } else {
        0
    },
{
    if start >= v.len() || idx < 0 || idx >= v[start as int].ns.len() {
        (false, P::R::zero_spec())
    } else {
        let n = v[start as int].ns[idx];
        if n == prev {
            bottleneck_from::<P, M>(v, geo, start, goal, prev, b, fuel, idx + 1)
        } else {
            let nb = b.max_spec(geo.norm_spec(seq_sub(v[start as int].coords, v[n as int].coords)));
            if n == goal {
                (true, nb)
            } else {
                let sub = if fuel == 0 {
                    (false, P::R::zero_spec())
                } else {
                    bottleneck_from::<P, M>(v, geo, n, goal, start, nb, (fuel - 1) as nat, 0)
                };
                if sub.0 {
                    sub
                } else {
                    bottleneck_from::<P, M>(v, geo, start, goal, prev, b, fuel, idx + 1)
                }
            }
        }
    }
}

/// The bottleneck distance between the nodes `i` and `j` of the tree `v`:
/// zero for a node and itself, else the largest edge length on the way from
/// the lower to the higher.
pub open spec fn bottleneck_between<P: Point, M: MinkowskiSpace<P>>(
    v: Seq<NodeView<P::R>>,
    geo: &M,
    i: int,
    j: int,
) -> P::R {
    if i == j {
        P::R::zero_spec()
    } else if i < j {
        bottleneck_from::<P, M>(v, geo, i as usize, j as usize, i as usize, P::R::zero_spec(), v.len(), 0).1
    } else {
        bottleneck_from::<P, M>(v, geo, j as usize, i as usize, j as usize, P::R::zero_spec(), v.len(), 0).1
    }
}

/// The bottleneck distances between all nodes of the tree `v`.
pub open spec fn bottleneck_matrix<P: Point, M: MinkowskiSpace<P>>(
    v: Seq<NodeView<P::R>>,
    geo: &M,
) -> Seq<Seq<P::R>> {
    Seq::new(v.len(), |i: int| Seq::new(v.len(), |j: int| bottleneck_between::<P, M>(v, geo, i, j)))
}

/// The bottleneck Steiner distances of the terminals `t`: the bottleneck
/// distances in their minimum spanning tree.
pub open spec fn bottleneck_distances<P: Point, M: MinkowskiSpace<P>>(
    t: Seq<P>,
    geo: &M,
) -> Seq<Seq<P::R>> {
    bottleneck_matrix::<P, M>(kruskal_tree::<P, M>(t, geo), geo)
}

/// The rows of a matrix, as lists.
pub open spec fn rows<R>(m: Seq<Vec<R>>) -> Seq<Seq<R>> {
    Seq::new(m.len(), |i: int| m[i]@)
}

/// The radii of the smallest spheres of all terminals.
pub fn smallest_spheres<P: Point, M: MinkowskiSpace<P>>(terms: &[P], geo: &M) -> (ss: Vec<P::R>)
    requires
        same_dim(terms@),
    ensures
        ss@ == sphere_radii::<P, M>(terms@, geo),
{
    let n = terms.len();
    let mut ss: Vec<P::R> = Vec::new();
    let mut i: usize = 0;
    while i < n
        invariant
            i <= n,
            n == terms@.len(),
            same_dim(terms@),
            ss@.len() == i,
            forall|a: int| 0 <= a < i
                ==> #[trigger] ss@[a] == sphere_radius::<P, M>(terms@, geo, a),
        decreases n - i,
    {
        let mut best: Option<P::R> = None;
        let mut j: usize = 0;
        while j < n
            invariant
                j <= n,
                i < n,
                n == terms@.len(),
                same_dim(terms@),
                best == nearest::<P, M>(terms@, geo, i as int, j as int),
            decreases n - j,
        {
            if j != i {
                let dd = geo.dist(&terms[j], &terms[i]);
                best = match best {
                    None => Some(dd),
                    Some(d) => if dd.lt(d) {
                        Some(dd)
                    } else {
                        Some(d)
                    },
                };
            }
            j += 1;
        }
        let r = match best {
            Some(d) => d,
            None => P::R::zero(),
        };
        ss.push(r);
        i += 1;
    }
    proof {
        assert(ss@ =~= sphere_radii::<P, M>(terms@, geo));
    }
    ss
}

/// Searches the way from `start` to `goal`.
pub fn bottleneck<P: Point, M: MinkowskiSpace<P>>(
    tree: &SteinerTree<P>,
    geo: &M,
    start: usize,
    goal: usize,
    prev: usize,
    b: P::R,
    fuel: usize,
) -> (r: (bool, P::R))
    requires
        tree.wf(),
        start < tree@.len(),
    ensures
        r == bottleneck_from::<P, M>(tree@, geo, start, goal, prev, b, fuel as nat, 0),
    decreases fuel,
{
    let node = tree.i(start);
    let d = node.degree();
    let mut idx: usize = 0;
    while idx < d
        invariant
            idx <= d,
            tree.wf(),
            start < tree@.len(),
            node@ == tree@[start as int],
            d == tree@[start as int].ns.len(),
            bottleneck_from::<P, M>(tree@, geo, start, goal, prev, b, fuel as nat, 0)
                == bottleneck_from::<P, M>(tree@, geo, start, goal, prev, b, fuel as nat, idx as int),
        decreases d - idx,
    {
        let n = node.neighbour(idx);
        proof {
            assert(adj_of(tree@)[start as int][idx as int] < tree@.len());
            assert(tree@[start as int].coords.len() == tree@[0].coords.len());
            assert(tree@[n as int].coords.len() == tree@[0].coords.len());
        }
        if n != prev {
            let nb = b.max(geo.dist(node.p(), tree.i(n).p()));
            if n == goal {
                return (true, nb);
            }
            if fuel > 0 {
                let sub = bottleneck(tree, geo, n, goal, start, nb, fuel - 1);
                if sub.0 {
                    return sub;
                }
            }
        }
        idx += 1;
    }
    (false, P::R::zero())
}

/// The bottleneck distances between all nodes of `tree`.
pub fn bottlenecks<P: Point, M: MinkowskiSpace<P>>(
    tree: &SteinerTree<P>,
    geo: &M,
) -> (m: Vec<Vec<P::R>>)
    requires
        tree.wf(),
    ensures
        rows(m@) == bottleneck_matrix::<P, M>(tree@, geo),
{
    let n = tree.node_count();
    let mut m: Vec<Vec<P::R>> = Vec::new();
    let mut i: usize = 0;
    while i < n
        invariant
            i <= n,
            n == tree@.len(),
            tree.wf(),
            m@.len() == i,
            forall|a: int|
                0 <= a < i ==> (#[trigger] m@[a])@ == Seq::new(
                    n as nat,
                    |j: int| bottleneck_between::<P, M>(tree@, geo, a, j),
                ),
        decreases n - i,
    {
        let mut row: Vec<P::R> = Vec::new();
        let mut j: usize = 0;
        while j < n
            invariant
                j <= n,
                i < n,
                n == tree@.len(),
                tree.wf(),
                row@.len() == j,
                forall|c: int|
                    0 <= c < j ==> #[trigger] row@[c] == bottleneck_between::<P, M>(
                        tree@,
                        geo,
                        i as int,
                        c,
                    ),
            decreases n - j,
        {
            let b = if i == j {
                P::R::zero()
            } else if i < j {
                bottleneck(tree, geo, i, j, i, P::R::zero(), n).1
            } else {
                bottleneck(tree, geo, j, i, j, P::R::zero(), n).1
            };
            row.push(b);
            j += 1;
        }
        proof {
            assert(row@ =~= Seq::new(
                n as nat,
                |j: int| bottleneck_between::<P, M>(tree@, geo, i as int, j),
            ));
        }
        m.push(row);
        i += 1;
    }
    proof {
        assert(rows(m@) =~= bottleneck_matrix::<P, M>(tree@, geo));
    }
    m
}

/// The bottleneck Steiner distances of the terminals.
pub fn bottleneck_steiner_distances<P: Point, M: MinkowskiSpace<P>>(
    terms: &[P],
    geo: &M,
) -> (m: Vec<Vec<P::R>>)
    requires
        same_dim(terms@),
    ensures
        rows(m@) == bottleneck_distances::<P, M>(terms@, geo),
        rows(m@).len() == terms@.len(),
        forall|i: int| 0 <= i < terms@.len() ==> (#[trigger] rows(m@)[i]).len() == terms@.len(),
{
    proof {
        assert(terms@ + Seq::<P>::empty() =~= terms@);
    }
    let mut k = Kruskal::new();
    let mst = k.find(terms, geo);
    bottlenecks(&mst, geo)
}

} // verus!
