//! Full Steiner topologies as they grow: from three terminals round one
//! Steiner point, by splitting an edge for each further terminal.

use crate::graph::{
    adjacent, connected, degree_sum, is_tree, lemma_reach_edge, lemma_reach_refl, lemma_reach_sym,
    lemma_reach_trans, lemma_reach_transfer, reaches,
};
use crate::graph::{lemma_swap_removed, swap_removed};
use crate::scalar::Real;
use crate::steiner_tree::{
    adj_of, count_terminals, edge_added, edge_list_ok, edge_removed, edges_added, lemma_add_edge_wf,
    lemma_count_terminals_same, lemma_edges_added, lemma_moved_wf, lemma_pop_wf, lemma_push_wf,
    lemma_remove_edge_wf, listed, moved, node_popped, node_pushed, same_edge, view_wf, NodeView,
};
use vstd::prelude::*;

verus! {

/// The edges of the seed: terminals 0, 1 and 2 round the Steiner point 3.
pub open spec fn seed_edges() -> Seq<(usize, usize)> {
    seq![(0usize, 3usize), (1usize, 3usize), (2usize, 3usize)]
}

/// The edge list after edge `ei = (a, b)` was split by the Steiner point
/// `s`, which also holds the terminal `s - 1`: `(a, s)` in its place, then
/// `(s - 1, s)` and `(b, s)` at the end.
pub open spec fn split_edges(edges: Seq<(usize, usize)>, ei: int, s: usize) -> Seq<(usize, usize)> {
    edges.update(ei, (edges[ei].0, s)).push(((s - 1) as usize, s)).push((edges[ei].1, s))
}

/// The edge list before its last split, which was at `ei`.
pub open spec fn unsplit_edges(edges: Seq<(usize, usize)>, ei: int) -> Seq<(usize, usize)> {
    edges.drop_last().drop_last().update(ei, (edges[ei].0, edges.last().0))
}

/// Whether `edges` is what the seed becomes when, level by level, the edge
/// `chosen[l] - 1` is split.
pub open spec fn frames_ok(edges: Seq<(usize, usize)>, chosen: Seq<usize>) -> bool
    decreases chosen.len(),
{
    if chosen.len() == 0 {
        edges == seed_edges()
    } else {
        let d = chosen.len() as int;
        let s = 3 + 2 * d;
        let ei = chosen.last() - 1;
        &&& edges.len() == 3 + 2 * d
        &&& 0 <= ei < 1 + 2 * d
        &&& edges[ei].1 == s
        &&& edges[edges.len() - 2] == ((s - 1) as usize, s as usize)
        &&& edges[edges.len() - 1].1 == s
        &&& frames_ok(unsplit_edges(edges, ei), chosen.drop_last())
    }
}

/// Whether the neighbours in `v` are exactly the pairs that `edges` lists.
pub open spec fn edges_match<R>(v: Seq<NodeView<R>>, edges: Seq<(usize, usize)>) -> bool {
    forall|i: usize, j: usize|
        adjacent(adj_of(v), i, j) <==> #[trigger] listed(edges, edges.len() as int, i, j)
}

/// Whether node `i` of a growing topology is a terminal: the first three
/// are, the fourth is the first Steiner point, and then terminals and
/// Steiner points alternate.
pub open spec fn is_terminal_at(i: int) -> bool {
    i < 3 || (i >= 4 && i % 2 == 0)
}

/// Whether the nodes are of the kinds of a growing topology, terminals with
/// one neighbour and Steiner points with three.
pub open spec fn kinds_ok<R>(v: Seq<NodeView<R>>) -> bool {
    forall|i: int|
        0 <= i < v.len() ==> (#[trigger] v[i]).is_terminal == is_terminal_at(i) && v[i].ns.len()
            == if is_terminal_at(i) {
            1nat
        } else {
            3nat
        }
}

/// Whether the tree is a full Steiner topology on `k` terminals: a tree of
/// `k` terminals with one neighbour each and `k - 2` Steiner points with
/// three.
pub open spec fn full_topology<R>(v: Seq<NodeView<R>>, k: nat) -> bool {
    &&& k >= 3
    &&& view_wf(v)
    &&& is_tree(adj_of(v))
    &&& v.len() == 2 * k - 2
    &&& count_terminals(v) == k
    &&& forall|i: int|
        0 <= i < v.len() ==> (#[trigger] v[i]).ns.len() == if v[i].is_terminal {
            1nat
        } else {
            3nat
        }
}

/// The nodes of a graph without edges, to add edges to.
pub open spec fn blank(n: nat) -> Seq<NodeView<int>> {
    Seq::new(
        n,
        |i: int|
            NodeView {
                coords: Seq::<int>::empty(),
                point_id: 0,
                ns: Seq::<usize>::empty(),
                is_terminal: false,
                id: i as usize,
            },
    )
}

/// Whether `v`, `edges` and the cursors `top` are a growing topology in the
/// middle of the enumeration: `top.len() - 1` terminals have been put in
/// after the seed, each where the cursor of its level said, and the tree has
/// the edges of the list.
pub open spec fn dfs_ok<R>(
    v: Seq<NodeView<R>>,
    edges: Seq<(usize, usize)>,
    top: Seq<usize>,
) -> bool {
    &&& top.len() >= 1
    &&& top.len() < usize::MAX / 4
    &&& v.len() == 2 + 2 * top.len()
    &&& view_wf(v)
    &&& frames_ok(edges, top.drop_last())
    &&& edges_match(v, edges)
    &&& kinds_ok(v)
    &&& top.last() <= 1 + 2 * top.len()
}

/// The nodes after the edge between `a` and `b` was split: the edge is gone,
/// a terminal at `coords` is the new node `v.len()`, and a Steiner point is
/// the node after it, joined to `a`, `b` and the terminal, in this order, and
/// placed at the centre of the three.
pub open spec fn split_view<R: Real>(
    v: Seq<NodeView<R>>,
    a: usize,
    b: usize,
    coords: Seq<R>,
    point_id: usize,
) -> Seq<NodeView<R>> {
    let cut = edge_removed(v, a, b);
    let with_terminal = node_pushed(cut, coords, point_id, Seq::<usize>::empty(), true);
    node_pushed(with_terminal, coords, point_id, seq![a, b, v.len() as usize], false)
}

/// The nodes after a split was undone: `a` and `b` are joined again, and the
/// last two nodes are gone.
pub open spec fn unsplit_view<R>(v: Seq<NodeView<R>>, a: usize, b: usize) -> Seq<NodeView<R>> {
    node_popped(node_popped(edge_added(v, a, b)))
}

/// Whether two trees are the same but for the order in which nodes list
/// their neighbours.
pub open spec fn same_shape<R>(v: Seq<NodeView<R>>, w: Seq<NodeView<R>>) -> bool {
    &&& v.len() == w.len()
    &&& forall|i: int|
        0 <= i < v.len() ==> (#[trigger] v[i]).coords == w[i].coords && v[i].point_id
            == w[i].point_id && v[i].is_terminal == w[i].is_terminal && v[i].id == w[i].id
            && v[i].ns.len() == w[i].ns.len()
    &&& forall|i: usize, j: usize| #[trigger] adjacent(adj_of(v), i, j)
        <==> adjacent(adj_of(w), i, j)
}

/// The number of edges that a topology has at level `l`, each a place for
/// the next terminal.
pub open spec fn radix(l: int) -> int {
    3 + 2 * l
}

/// The number of full topologies on `m + 3` terminals that grow from one
/// topology of level `l`.
pub open spec fn leaves(l: int, m: int) -> int
    decreases m - l,
{
    if l >= m {
        1
    } else {
        radix(l) * leaves(l + 1, m)
    }
}

/// The number of splits and of splits undone that it takes to go through all
/// that grows from a fresh topology of level `l`, and to undo it.
pub open spec fn subtree_steps(l: int, m: int) -> int
    decreases m - l,
{
    if l >= m {
        1
    } else {
        radix(l) * (1 + subtree_steps(l + 1, m)) + 1
    }
}

/// The steps that a topology of level `l` with cursor `x` still takes.
pub open spec fn frame_cost(l: int, x: int, m: int) -> int {
    if l >= m {
        1
    } else {
        (radix(l) - x) * (1 + subtree_steps(l + 1, m)) + 1
    }
}

/// The steps that the enumeration still takes from the cursors `top`.
pub open spec fn steps_left(top: Seq<usize>, m: int) -> int
    decreases top.len(),
{
    if top.len() == 0 {
        0
    } else {
        steps_left(top.drop_last(), m) + frame_cost(top.len() - 1, top.last() as int, m)
    }
}

/// The number of full topologies that the enumeration has behind it at the
/// cursors `top`, those given up with a topology that they grow from
/// included: the rank of the next one among all.
pub open spec fn passed(top: Seq<usize>, m: int) -> int
    decreases top.len(),
{
    if top.len() == 0 {
        0
    } else if top.len() == 1 {
        top.last() * leaves(1, m)
    } else {
        passed(top.drop_last(), m) - leaves(top.len() - 1, m) + top.last() * leaves(
            top.len() as int,
            m,
        )
    }
}

/// `n!`.
pub open spec fn factorial(n: nat) -> nat
    decreases n,
{
    if n == 0 {
        1
    } else {
        n * factorial((n - 1) as nat)
    }
}

/// `2^n`.
pub open spec fn power_of_two(n: nat) -> nat
    decreases n,
{
    if n == 0 {
        1
    } else {
        2 * power_of_two((n - 1) as nat)
    }
}

/// Whether `top` are cursors in the middle of a search over `m` levels:
/// every cursor below the top has moved on, none beyond the edges of its
/// level, and where all levels are reached the cursor on top has not moved.
pub open spec fn cursors_ok(top: Seq<usize>, m: int) -> bool {
    &&& 1 <= top.len() <= m + 1
    &&& forall|l: int| 0 <= l < top.len() - 1 ==> 1 <= #[trigger] top[l] <= radix(l)
    &&& top.last() <= radix(top.len() - 1)
    &&& top.len() == m + 1 ==> top.last() == 0
}

/// Whether `top` are the cursors of a full topology.
pub open spec fn leaf_cursors(top: Seq<usize>, m: int) -> bool {
    cursors_ok(top, m) && top.len() == m + 1
}

/// What a grown edge list is: as long as it must be, each edge between two
/// different nodes, no pair twice.
pub proof fn lemma_frames_edges(edges: Seq<(usize, usize)>, chosen: Seq<usize>)
    requires
        frames_ok(edges, chosen),
        chosen.len() < usize::MAX / 4,
    ensures
        edges.len() == 3 + 2 * chosen.len(),
        edge_list_ok(edges, 4 + 2 * chosen.len()),
        forall|l: int| 0 <= l < chosen.len() ==> 1 <= #[trigger] chosen[l] <= 3 + 2 * l,
    decreases chosen.len(),
{
    if chosen.len() == 0 {
    } else {
        let d = chosen.len() as int;
        let s = (3 + 2 * d) as usize;
        let ei = chosen.last() - 1;
        let prev = unsplit_edges(edges, ei);
        lemma_frames_edges(prev, chosen.drop_last());
        assert forall|k: int| 0 <= k < edges.len() implies (#[trigger] edges[k]).0 < 4 + 2 * d
            && edges[k].1 < 4 + 2 * d && edges[k].0 != edges[k].1 by {
            if k < edges.len() - 2 {
                assert(prev[k].0 < 2 + 2 * d);
                if k != ei {
                    assert(edges[k] == prev[k]);
                } else {
                    assert(prev[ei].0 == edges[ei].0);
                }
            } else if k == edges.len() - 1 {
                assert(prev[ei].1 == edges[k].0);
                assert(prev[ei].1 < 2 + 2 * d);
            }
        }
        assert forall|k: int, m: int| 0 <= k < m < edges.len() implies !same_edge(
            #[trigger] edges[k],
            #[trigger] edges[m],
        ) by {
            assert(prev[ei].0 == edges[ei].0);
            assert(prev[ei].1 == edges[edges.len() - 1].0);
            assert(prev[ei].0 != prev[ei].1);
            assert(prev[ei].0 < 2 + 2 * d && prev[ei].1 < 2 + 2 * d);
            if m < edges.len() - 2 {
                assert(prev[k].0 < 2 + 2 * d && prev[k].1 < 2 + 2 * d);
                assert(prev[m].0 < 2 + 2 * d && prev[m].1 < 2 + 2 * d);
                if k != ei && m != ei {
                    assert(!same_edge(prev[k], prev[m]));
                }
            } else {
                if k < edges.len() - 2 {
                    assert(prev[k].0 < 2 + 2 * d && prev[k].1 < 2 + 2 * d);
                }
            }
        }
        assert forall|l: int| 0 <= l < chosen.len() implies 1 <= #[trigger] chosen[l] <= 3 + 2
            * l by {
            if l < d - 1 {
                assert(chosen.drop_last()[l] == chosen[l]);
            }
        }
    }
}

/// A graph whose neighbours are the pairs of a grown edge list is connected.
pub proof fn lemma_frames_connected(
    a: Seq<Seq<usize>>,
    edges: Seq<(usize, usize)>,
    chosen: Seq<usize>,
)
    requires
        frames_ok(edges, chosen),
        chosen.len() < usize::MAX / 4,
        a.len() == 4 + 2 * chosen.len(),
        forall|i: usize, j: usize|
            adjacent(a, i, j) <==> #[trigger] listed(edges, edges.len() as int, i, j),
    ensures
        connected(a),
    decreases chosen.len(),
{
    lemma_frames_edges(edges, chosen);
    assert forall|u: usize, v: usize| #[trigger] adjacent(a, u, v) implies adjacent(a, v, u) by {
        assert(listed(edges, edges.len() as int, u, v));
        let m = choose|m: int|
            0 <= m < edges.len() && m < edges.len() && same_edge(#[trigger] edges[m], (u, v));
        assert(same_edge(edges[m], (v, u)));
        assert(listed(edges, edges.len() as int, v, u));
    }
    if chosen.len() == 0 {
        assert forall|i: usize| i < 4 implies reaches(a, i, 3) by {
            if i == 3 {
                lemma_reach_refl(a, 3);
            } else {
                assert(same_edge(edges[i as int], (i, 3usize)));
                assert(listed(edges, edges.len() as int, i, 3));
                lemma_reach_edge(a, i, 3);
            }
        }
        assert forall|i: usize, j: usize| i < a.len() && j < a.len() implies #[trigger] reaches(
            a,
            i,
            j,
        ) by {
            lemma_reach_sym(a, j, 3);
            lemma_reach_trans(a, i, 3, j);
        }
    } else {
        let d = chosen.len() as int;
        let s = (3 + 2 * d) as usize;
        let t = (s - 1) as usize;
        let ei = chosen.last() - 1;
        let prev = unsplit_edges(edges, ei);
        let x = prev[ei].0;
        let y = prev[ei].1;
        lemma_frames_edges(prev, chosen.drop_last());
        let n0 = (2 + 2 * d) as nat;
        let b0 = blank(n0);
        assert forall|i: usize, j: usize| !adjacent(adj_of(b0), i, j) by {
            if i < n0 {
                assert(adj_of(b0)[i as int].len() == 0);
            }
        }
        assert(view_wf(b0));
        lemma_edges_added(b0, prev, prev.len() as int);
        let a0 = adj_of(edges_added(b0, prev, prev.len() as int));
        lemma_frames_connected(a0, prev, chosen.drop_last());
        assert(edges[ei] == (x, s));
        assert(edges[edges.len() - 1] == (y, s));
        assert(same_edge(edges[ei], (x, s)));
        assert(same_edge(edges[ei], (s, x)));
        assert(same_edge(edges[edges.len() - 1], (y, s)));
        assert(same_edge(edges[edges.len() - 1], (s, y)));
        assert(same_edge(edges[edges.len() - 2], (t, s)));
        assert(listed(edges, edges.len() as int, x, s));
        assert(listed(edges, edges.len() as int, s, x));
        assert(listed(edges, edges.len() as int, y, s));
        assert(listed(edges, edges.len() as int, s, y));
        assert(listed(edges, edges.len() as int, t, s));
        lemma_reach_edge(a, x, s);
        lemma_reach_edge(a, s, x);
        lemma_reach_edge(a, s, y);
        lemma_reach_edge(a, y, s);
        lemma_reach_edge(a, t, s);
        lemma_reach_trans(a, x, s, y);
        lemma_reach_trans(a, y, s, x);
        lemma_reach_trans(a, t, s, x);
        assert forall|u: usize, v: usize| #[trigger] adjacent(a0, u, v)
            implies reaches(a, u, v) by {
            assert(listed(prev, prev.len() as int, u, v));
            let m = choose|m: int|
                0 <= m < prev.len() && m < prev.len() && same_edge(#[trigger] prev[m], (u, v));
            if m == ei {
            } else {
                assert(edges[m] == prev[m]);
                assert(same_edge(edges[m], (u, v)));
                assert(listed(edges, edges.len() as int, u, v));
                lemma_reach_edge(a, u, v);
            }
        }
        assert forall|i: usize| i < a.len() implies reaches(a, i, x) by {
            if i < n0 {
                assert(reaches(a0, i, x));
                lemma_reach_transfer(a0, a, i, x);
            } else if i == t {
            } else {
            }
        }
        assert forall|i: usize, j: usize| i < a.len() && j < a.len() implies #[trigger] reaches(
            a,
            i,
            j,
        ) by {
            lemma_reach_sym(a, j, x);
            lemma_reach_trans(a, i, x, j);
        }
    }
}

/// The degree sum of the first `n` nodes of a growing topology.
pub proof fn lemma_kinds_degree_sum(a: Seq<Seq<usize>>, n: int)
    requires
        0 <= n <= a.len(),
        forall|i: int|
            0 <= i < a.len() ==> (#[trigger] a[i]).len() == if is_terminal_at(i) {
                1nat
            } else {
                3nat
            },
    ensures
        degree_sum(a.take(n)) == if n <= 3 {
            n
        } else if n % 2 == 0 {
            2 * (n - 1)
        } else {
            2 * n - 3
        },
    decreases n,
{
    if n > 0 {
        lemma_kinds_degree_sum(a, n - 1);
        assert(a.take(n).drop_last() =~= a.take(n - 1));
        assert(a.take(n).last() == a[n - 1]);
    }
}

/// The number of terminals among the first `n` nodes of a growing topology.
pub proof fn lemma_kinds_count<R>(v: Seq<NodeView<R>>, n: int)
    requires
        0 <= n <= v.len(),
        forall|i: int| 0 <= i < v.len() ==> (#[trigger] v[i]).is_terminal == is_terminal_at(i),
    ensures
        count_terminals(v.take(n)) == if n <= 3 {
            n
        } else {
            (n + 1) / 2 + 1
        },
    decreases n,
{
    if n > 0 {
        lemma_kinds_count(v, n - 1);
        assert(v.take(n).drop_last() =~= v.take(n - 1));
        assert(v.take(n).last() == v[n - 1]);
    }
}

/// A growing topology is a tree, with one terminal more than it has Steiner
/// points but for one.
pub proof fn lemma_dfs_tree<R>(v: Seq<NodeView<R>>, edges: Seq<(usize, usize)>, top: Seq<usize>)
    requires
        dfs_ok(v, edges, top),
    ensures
        is_tree(adj_of(v)),
        count_terminals(v) == top.len() + 2,
        edges.len() == 1 + 2 * top.len(),
        edge_list_ok(edges, v.len()),
        full_topology(v, top.len() + 2),
{
    let a = adj_of(v);
    lemma_frames_edges(edges, top.drop_last());
    lemma_frames_connected(a, edges, top.drop_last());
    assert(a.take(a.len() as int) =~= a);
    assert(v.take(v.len() as int) =~= v);
    lemma_kinds_degree_sum(a, a.len() as int);
    lemma_kinds_count(v, v.len() as int);
}

/// What a split does to a well-formed tree.
pub proof fn lemma_split_view<R: Real>(
    v: Seq<NodeView<R>>,
    a: usize,
    b: usize,
    coords: Seq<R>,
    point_id: usize,
)
    requires
        view_wf(v),
        adjacent(adj_of(v), a, b),
        v.len() + 2 <= usize::MAX,
        coords.len() == v[0].coords.len(),
    ensures
        view_wf(split_view(v, a, b, coords, point_id)),
        split_view(v, a, b, coords, point_id).len() == v.len() + 2,
        forall|i: usize, j: usize| #[trigger]
            adjacent(adj_of(split_view(v, a, b, coords, point_id)), i, j) <==> ((adjacent(
                adj_of(v),
                i,
                j,
            ) && !same_edge((i, j), (a, b))) || same_edge((i, j), (a, (v.len() + 1) as usize))
                || same_edge((i, j), (b, (v.len() + 1) as usize)) || same_edge(
                (i, j),
                (v.len() as usize, (v.len() + 1) as usize),
            )),
        forall|i: int|
            0 <= i < v.len() ==> (#[trigger] split_view(v, a, b, coords, point_id)[i]).coords
                == v[i].coords && split_view(v, a, b, coords, point_id)[i].point_id == v[i].point_id
                && split_view(v, a, b, coords, point_id)[i].is_terminal == v[i].is_terminal
                && split_view(v, a, b, coords, point_id)[i].ns.len() == v[i].ns.len(),
        split_view(v, a, b, coords, point_id)[v.len() as int].is_terminal,
        split_view(v, a, b, coords, point_id)[v.len() as int].coords == coords,
        split_view(v, a, b, coords, point_id)[v.len() as int].point_id == point_id,
        split_view(v, a, b, coords, point_id)[v.len() as int].ns == seq![(v.len() + 1) as usize],
        !split_view(v, a, b, coords, point_id)[v.len() as int + 1].is_terminal,
        split_view(v, a, b, coords, point_id)[v.len() as int + 1].ns
            == seq![a, b, v.len() as usize],
{
    let n = v.len() as usize;
    let s = (n + 1) as usize;
    let cut = edge_removed(v, a, b);
    let wt = node_pushed(cut, coords, point_id, Seq::<usize>::empty(), true);
    let ns = seq![a, b, n];
    let r = split_view(v, a, b, coords, point_id);
    lemma_remove_edge_wf(v, a, b);
    assert(adjacent(adj_of(v), b, a));
    assert(a != b) by {
        let k = choose|k: int| 0 <= k < adj_of(v)[a as int].len() && adj_of(v)[a as int][k] == b;
        assert(adj_of(v)[a as int][k] != a as int);
    }
    assert(cut.len() == v.len());
    assert(cut[0].coords == v[0].coords);
    lemma_push_wf(cut, coords, point_id, Seq::<usize>::empty(), true);
    assert(ns.no_duplicates());
    assert(wt.len() == n + 1);
    assert(wt[0].coords == v[0].coords);
    lemma_push_wf(wt, coords, point_id, ns, false);
    assert(ns.contains(a)) by {
        assert(ns[0] == a);
    }
    assert(ns.contains(b)) by {
        assert(ns[1] == b);
    }
    assert(ns.contains(n)) by {
        assert(ns[2] == n);
    }
    assert forall|i: usize, j: usize| #[trigger]
        adjacent(adj_of(r), i, j) <==> ((adjacent(adj_of(v), i, j) && !same_edge((i, j), (a, b)))
            || same_edge((i, j), (a, s)) || same_edge((i, j), (b, s)) || same_edge(
            (i, j),
            (n, s),
        )) by {
        assert(!Seq::<usize>::empty().contains(i));
        assert(!Seq::<usize>::empty().contains(j));
        if adjacent(adj_of(v), i, j) {
            assert(i < n && j < n);
        }
    }
    assert(adj_of(v)[a as int].no_duplicates());
    assert(adj_of(v)[b as int].no_duplicates());
    lemma_swap_removed(v[a as int].ns, b);
    lemma_swap_removed(v[b as int].ns, a);
    assert forall|i: int| 0 <= i < v.len() implies (#[trigger] r[i]).coords == v[i].coords
        && r[i].point_id == v[i].point_id && r[i].is_terminal == v[i].is_terminal && r[i].ns.len()
        == v[i].ns.len() by {
        assert(!Seq::<usize>::empty().contains(i as usize));
        assert(wt[i] == cut[i]);
        if i == a || i == b {
        } else {
            assert(cut[i] == v[i]);
            assert(!ns.contains(i as usize));
        }
    }
    assert(wt[n as int].ns =~= Seq::<usize>::empty());
    assert(r[n as int].ns =~= seq![s]);
}

/// What undoing a split does to a well-formed tree whose last two nodes are a
/// terminal and the Steiner point that joins it to `a` and `b`.
pub proof fn lemma_unsplit_view<R>(v: Seq<NodeView<R>>, a: usize, b: usize, t: usize, s: usize)
    requires
        view_wf(v),
        4 <= v.len() <= usize::MAX,
        t == v.len() - 2,
        s == v.len() - 1,
        a < v.len() - 2,
        b < v.len() - 2,
        a != b,
        !adjacent(adj_of(v), a, b),
        adjacent(adj_of(v), a, s),
        adjacent(adj_of(v), b, s),
        forall|j: usize| #[trigger] adjacent(adj_of(v), t, j) ==> j == s,
        forall|j: usize| #[trigger] adjacent(adj_of(v), s, j) ==> j == a || j == b || j == t,
    ensures
        view_wf(unsplit_view(v, a, b)),
        unsplit_view(v, a, b).len() == v.len() - 2,
        forall|i: usize, j: usize| #[trigger]
            adjacent(adj_of(unsplit_view(v, a, b)), i, j) <==> (i < v.len() - 2 && j < v.len() - 2
                && (adjacent(adj_of(v), i, j) || same_edge((i, j), (a, b)))),
        forall|i: int|
            0 <= i < v.len() - 2 ==> (#[trigger] unsplit_view(v, a, b)[i]).coords == v[i].coords
                && unsplit_view(v, a, b)[i].point_id == v[i].point_id && unsplit_view(
                v,
                a,
                b,
            )[i].is_terminal == v[i].is_terminal && unsplit_view(v, a, b)[i].ns.len()
                == v[i].ns.len(),
{
    let n = v.len();
    let joined = edge_added(v, a, b);
    let p1 = node_popped(joined);
    let r = unsplit_view(v, a, b);
    lemma_add_edge_wf(v, a, b);
    lemma_pop_wf(joined);
    lemma_pop_wf(p1);
    assert forall|i: usize, j: usize| #[trigger]
        adjacent(adj_of(r), i, j) <==> (i < n - 2 && j < n - 2 && (adjacent(adj_of(v), i, j)
            || same_edge((i, j), (a, b)))) by {
        if adjacent(adj_of(v), i, j) {
            assert(i < n && j < n);
        }
    }
    assert forall|i: int| 0 <= i < n - 2 implies (#[trigger] r[i]).coords == v[i].coords
        && r[i].point_id == v[i].point_id && r[i].is_terminal == v[i].is_terminal && r[i].ns.len()
        == v[i].ns.len() by {
        let l0 = v[i].ns;
        let l1 = joined[i].ns;
        let l2 = p1[i].ns;
        let l3 = r[i].ns;
        assert(adj_of(joined)[i].no_duplicates());
        assert(adj_of(p1)[i].no_duplicates());
        lemma_swap_removed(l1, s);
        lemma_swap_removed(l2, t);
        assert(l2 == swap_removed(l1, s));
        assert(l3 == swap_removed(l2, t));
        // Nobody but the last node lists the terminal before it.
        assert(!l2.contains(t)) by {
            if l2.contains(t) {
                assert(l1.contains(t));
                assert(adjacent(adj_of(joined), i as usize, t));
                assert(adjacent(adj_of(v), i as usize, t));
                assert(adjacent(adj_of(v), t, i as usize));
            }
        }
        if i == a || i == b {
            assert(adjacent(adj_of(joined), i as usize, s));
            assert(l1.contains(s));
            assert(l1.len() == l0.len() + 1);
        } else {
            assert(l1 == l0);
            assert(!l1.contains(s)) by {
                if l1.contains(s) {
                    assert(adjacent(adj_of(v), i as usize, s));
                    assert(adjacent(adj_of(v), s, i as usize));
                }
            }
        }
    }
}

/// A split that is undone leaves the tree as it was, but for the order in
/// which the two ends of the edge list their neighbours.
pub proof fn lemma_split_unsplit<R: Real>(
    v: Seq<NodeView<R>>,
    a: usize,
    b: usize,
    coords: Seq<R>,
    point_id: usize,
)
    requires
        view_wf(v),
        adjacent(adj_of(v), a, b),
        2 <= v.len(),
        v.len() + 2 <= usize::MAX,
        coords.len() == v[0].coords.len(),
    ensures
        same_shape(unsplit_view(split_view(v, a, b, coords, point_id), a, b), v),
        view_wf(unsplit_view(split_view(v, a, b, coords, point_id), a, b)),
{
    let w = split_view(v, a, b, coords, point_id);
    let n = v.len() as usize;
    let s = (n + 1) as usize;
    lemma_split_view(v, a, b, coords, point_id);
    assert(adjacent(adj_of(v), b, a));
    assert(a != b) by {
        let k = choose|k: int| 0 <= k < adj_of(v)[a as int].len() && adj_of(v)[a as int][k] == b;
        assert(adj_of(v)[a as int][k] != a as int);
    }
    assert(same_edge((a, s), (a, s)));
    assert(same_edge((b, s), (b, s)));
    assert(adjacent(adj_of(w), a, s));
    assert(adjacent(adj_of(w), b, s));
    assert(!adjacent(adj_of(w), a, b));
    assert forall|j: usize| #[trigger] adjacent(adj_of(w), n, j) implies j == s by {
        if adjacent(adj_of(v), n, j) {
            assert(n < v.len());
        }
    }
    assert forall|j: usize| #[trigger] adjacent(adj_of(w), s, j) implies j == a || j == b || j
        == n by {
        if adjacent(adj_of(v), s, j) {
            assert(s < v.len());
        }
    }
    lemma_unsplit_view(w, a, b, n, s);
    let u = unsplit_view(w, a, b);
    assert forall|i: int| 0 <= i < u.len() implies (#[trigger] u[i]).coords == v[i].coords
        && u[i].point_id == v[i].point_id && u[i].is_terminal == v[i].is_terminal && u[i].id
        == v[i].id && u[i].ns.len() == v[i].ns.len() by {
        assert(w[i].coords == v[i].coords);
    }
    assert forall|i: usize, j: usize| #[trigger]
        adjacent(adj_of(u), i, j) <==> adjacent(adj_of(v), i, j) by {
        if adjacent(adj_of(v), i, j) {
            assert(i < n && j < n);
        }
    }
}

/// Splitting the edge under the cursor of a growing topology gives a growing
/// topology, with the cursor moved on and a new cursor on top.
pub proof fn lemma_split_dfs<R: Real>(
    v: Seq<NodeView<R>>,
    edges: Seq<(usize, usize)>,
    top: Seq<usize>,
    coords: Seq<R>,
    point_id: usize,
)
    requires
        dfs_ok(v, edges, top),
        top.last() < edges.len(),
        top.len() + 1 < usize::MAX / 4,
        coords.len() == v[0].coords.len(),
    ensures
        edges.len() == 1 + 2 * top.len(),
        edges[top.last() as int].0 < v.len(),
        edges[top.last() as int].1 < v.len(),
        adjacent(adj_of(v), edges[top.last() as int].0, edges[top.last() as int].1),
        dfs_ok(
            split_view(
                v,
                edges[top.last() as int].0,
                edges[top.last() as int].1,
                coords,
                point_id,
            ),
            split_edges(edges, top.last() as int, (v.len() + 1) as usize),
            top.update(top.len() - 1, (top.last() + 1) as usize).push(0),
        ),
{
    let ei = top.last() as int;
    let a = edges[ei].0;
    let b = edges[ei].1;
    let n = v.len() as usize;
    let s = (n + 1) as usize;
    let w = split_view(v, a, b, coords, point_id);
    let e2 = split_edges(edges, ei, s);
    let top2 = top.update(top.len() - 1, (top.last() + 1) as usize).push(0);
    lemma_dfs_tree(v, edges, top);
    assert(same_edge(edges[ei], (a, b)));
    assert(listed(edges, edges.len() as int, a, b));
    lemma_split_view(v, a, b, coords, point_id);
    // The edge list.
    let chosen2 = top2.drop_last();
    assert(chosen2.drop_last() =~= top.drop_last());
    assert(unsplit_edges(e2, ei) =~= edges);
    assert(frames_ok(e2, chosen2));
    // The tree has the edges of the list.
    assert forall|i: usize, j: usize|
        adjacent(adj_of(w), i, j) <==> #[trigger] listed(e2, e2.len() as int, i, j) by {
        if adjacent(adj_of(w), i, j) {
            if adjacent(adj_of(v), i, j) && !same_edge((i, j), (a, b)) {
                assert(listed(edges, edges.len() as int, i, j));
                let m = choose|m: int|
                    0 <= m < edges.len() && m < edges.len() && same_edge(
                        #[trigger] edges[m],
                        (i, j),
                    );
                assert(m != ei);
                assert(same_edge(e2[m], (i, j)));
            } else if same_edge((i, j), (a, s)) {
                assert(same_edge(e2[ei], (i, j)));
            } else if same_edge((i, j), (b, s)) {
                assert(same_edge(e2[e2.len() - 1], (i, j)));
            } else {
                assert(same_edge(e2[e2.len() - 2], (i, j)));
            }
        }
        if listed(e2, e2.len() as int, i, j) {
            let m = choose|m: int|
                0 <= m < e2.len() && m < e2.len() && same_edge(#[trigger] e2[m], (i, j));
            if m == ei {
                assert(same_edge((i, j), (a, s)));
            } else if m == e2.len() - 1 {
                assert(same_edge((i, j), (b, s)));
            } else if m == e2.len() - 2 {
                assert(same_edge((i, j), (n, s)));
            } else {
                assert(e2[m] == edges[m]);
                assert(same_edge(edges[m], (i, j)));
                assert(listed(edges, edges.len() as int, i, j));
                if same_edge((i, j), (a, b)) {
                    if m < ei {
                        assert(!same_edge(edges[m], edges[ei]));
                    } else {
                        assert(!same_edge(edges[ei], edges[m]));
                    }
                }
            }
        }
    }
    assert forall|i: int| 0 <= i < w.len() implies (#[trigger] w[i]).is_terminal == is_terminal_at(
        i,
    ) && w[i].ns.len() == if is_terminal_at(i) {
        1nat
    } else {
        3nat
    } by {
        if i < n {
            assert(v[i].is_terminal == is_terminal_at(i));
        }
    }
}

/// Undoing the last split of a growing topology gives a growing topology,
/// the cursor on top being dropped.
pub proof fn lemma_unsplit_dfs<R>(v: Seq<NodeView<R>>, edges: Seq<(usize, usize)>, top: Seq<usize>)
    requires
        dfs_ok(v, edges, top),
        top.len() >= 2,
    ensures
        edges.len() == 1 + 2 * top.len(),
        1 <= top[top.len() - 2] <= edges.len() - 2,
        edges.last().1 == v.len() - 1,
        edges[edges.len() - 2] == ((v.len() - 2) as usize, (v.len() - 1) as usize),
        edges[top[top.len() - 2] - 1].0 < v.len() - 2,
        edges.last().0 < v.len() - 2,
        edges[top[top.len() - 2] - 1].0 != edges.last().0,
        !adjacent(adj_of(v), edges[top[top.len() - 2] - 1].0, edges.last().0),
        dfs_ok(
            unsplit_view(v, edges[top[top.len() - 2] - 1].0, edges.last().0),
            unsplit_edges(edges, top[top.len() - 2] - 1),
            top.drop_last(),
        ),
        forall|i: int|
            0 <= i < v.len() - 2 ==> (#[trigger] unsplit_view(
                v,
                edges[top[top.len() - 2] - 1].0,
                edges.last().0,
            )[i]).coords == v[i].coords && unsplit_view(
                v,
                edges[top[top.len() - 2] - 1].0,
                edges.last().0,
            )[i].point_id == v[i].point_id,
{
    let chosen = top.drop_last();
    let d = chosen.len() as int;
    let n = v.len();
    let s = (n - 1) as usize;
    let t = (n - 2) as usize;
    let ei = chosen.last() - 1;
    assert(chosen.last() == top[top.len() - 2]);
    let a = edges[ei].0;
    let b = edges.last().0;
    let prev = unsplit_edges(edges, ei);
    lemma_dfs_tree(v, edges, top);
    lemma_frames_edges(edges, chosen);
    lemma_frames_edges(prev, chosen.drop_last());
    assert(prev[ei] == (a, b));
    assert(edges[ei] == (a, s));
    assert(edges[edges.len() - 1] == (b, s));
    assert(edges[edges.len() - 2] == (t, s));
    assert(!adjacent(adj_of(v), a, b)) by {
        if adjacent(adj_of(v), a, b) {
            assert(listed(edges, edges.len() as int, a, b));
            let m = choose|m: int|
                0 <= m < edges.len() && m < edges.len() && same_edge(#[trigger] edges[m], (a, b));
            assert(m < edges.len() - 2 && m != ei);
            assert(prev[m] == edges[m]);
            if m < ei {
                assert(!same_edge(prev[m], prev[ei]));
            } else {
                assert(!same_edge(prev[ei], prev[m]));
            }
        }
    }
    assert(same_edge(edges[ei], (a, s)));
    assert(listed(edges, edges.len() as int, a, s));
    assert(same_edge(edges[edges.len() - 1], (b, s)));
    assert(listed(edges, edges.len() as int, b, s));
    assert forall|j: usize| #[trigger] adjacent(adj_of(v), t, j) implies j == s by {
        assert(listed(edges, edges.len() as int, t, j));
        let m = choose|m: int|
            0 <= m < edges.len() && m < edges.len() && same_edge(#[trigger] edges[m], (t, j));
        if m < edges.len() - 2 && m != ei {
            assert(prev[m] == edges[m]);
            assert(prev[m].0 < n - 2 && prev[m].1 < n - 2);
        }
    }
    assert forall|j: usize| #[trigger] adjacent(adj_of(v), s, j) implies j == a || j == b || j
        == t by {
        assert(listed(edges, edges.len() as int, s, j));
        let m = choose|m: int|
            0 <= m < edges.len() && m < edges.len() && same_edge(#[trigger] edges[m], (s, j));
        if m < edges.len() - 2 && m != ei {
            assert(prev[m] == edges[m]);
            assert(prev[m].0 < n - 2 && prev[m].1 < n - 2);
        }
    }
    lemma_unsplit_view(v, a, b, t, s);
    let u = unsplit_view(v, a, b);
    assert forall|i: usize, j: usize|
        adjacent(adj_of(u), i, j) <==> #[trigger] listed(prev, prev.len() as int, i, j) by {
        if adjacent(adj_of(u), i, j) {
            if same_edge((i, j), (a, b)) {
                assert(same_edge(prev[ei], (i, j)));
            } else {
                assert(listed(edges, edges.len() as int, i, j));
                let m = choose|m: int|
                    0 <= m < edges.len() && m < edges.len() && same_edge(
                        #[trigger] edges[m],
                        (i, j),
                    );
                assert(m < edges.len() - 2 && m != ei);
                assert(same_edge(prev[m], (i, j)));
            }
        }
        if listed(prev, prev.len() as int, i, j) {
            let m = choose|m: int|
                0 <= m < prev.len() && m < prev.len() && same_edge(#[trigger] prev[m], (i, j));
            assert(prev[m].0 < n - 2 && prev[m].1 < n - 2);
            if m != ei {
                assert(same_edge(edges[m], (i, j)));
                assert(listed(edges, edges.len() as int, i, j));
            }
        }
    }
    assert forall|i: int| 0 <= i < u.len() implies (#[trigger] u[i]).is_terminal == is_terminal_at(
        i,
    ) && u[i].ns.len() == if is_terminal_at(i) {
        1nat
    } else {
        3nat
    } by {
        assert(v[i].is_terminal == is_terminal_at(i));
    }
}

/// Going through a topology takes at least one step, and at least one full
/// topology grows from it.
pub proof fn lemma_steps_positive(l: int, m: int)
    requires
        0 <= l,
    ensures
        subtree_steps(l, m) >= 1,
        leaves(l, m) >= 1,
        l < m ==> subtree_steps(l, m) == frame_cost(l, 0, m),
    decreases m - l,
{
    if l < m {
        lemma_steps_positive(l + 1, m);
        let s = subtree_steps(l + 1, m);
        let r = radix(l);
        assert(r * (1 + s) >= 0) by (nonlinear_arith)
            requires
                r >= 0,
                s >= 0,
        ;
        let v = leaves(l + 1, m);
        assert(r * v >= 1) by (nonlinear_arith)
            requires
                r >= 1,
                v >= 1,
        ;
    }
}

/// A cursor within its bounds costs at least one step.
pub proof fn lemma_frame_cost(l: int, x: int, m: int)
    requires
        0 <= l,
        0 <= x <= radix(l),
    ensures
        frame_cost(l, x, m) >= 1,
        l < m && x < radix(l) ==> frame_cost(l, x + 1, m) + 1 + subtree_steps(l + 1, m)
            == frame_cost(l, x, m),
{
    if l < m {
        lemma_steps_positive(l + 1, m);
        let s = subtree_steps(l + 1, m);
        let r = radix(l);
        assert((r - x) * (1 + s) >= 0) by (nonlinear_arith)
            requires
                r - x >= 0,
                s >= 0,
        ;
        assert((r - (x + 1)) * (1 + s) + 1 + s == (r - x) * (1 + s)) by (nonlinear_arith);
    }
}

/// What a split does to the steps that are left and to the rank: one step
/// less, the rank as it was.
pub proof fn lemma_split_steps(top: Seq<usize>, m: int)
    requires
        top.len() >= 1,
        top.len() <= m,
        m < usize::MAX / 4,
        top.last() < radix(top.len() - 1),
    ensures
        steps_left(top.update(top.len() - 1, (top.last() + 1) as usize).push(0), m) + 1
            == steps_left(top, m),
        passed(top.update(top.len() - 1, (top.last() + 1) as usize).push(0), m) == passed(top, m),
{
    let d = top.len() - 1;
    let x = top.last() as int;
    let moved = top.update(d, (x + 1) as usize);
    let top2 = moved.push(0);
    assert(top2.drop_last() =~= moved);
    assert(moved.drop_last() =~= top.drop_last());
    lemma_frame_cost(d, x, m);
    if d + 1 < m {
        lemma_steps_positive(d + 1, m);
    }
    assert(frame_cost(d + 1, 0, m) == subtree_steps(d + 1, m));
    assert(top2.last() == 0);
    assert(moved.last() == x + 1);
    assert(steps_left(top2, m) == steps_left(moved, m) + frame_cost(d + 1, 0, m));
    assert(steps_left(moved, m) == steps_left(top.drop_last(), m) + frame_cost(d, x + 1, m));
    assert(steps_left(top, m) == steps_left(top.drop_last(), m) + frame_cost(d, x, m));
    let w = leaves(d + 1, m);
    assert((x + 1) * w == x * w + w) by (nonlinear_arith);
    assert(0 * leaves(d + 2, m) == 0);
    if top.len() == 1 {
        assert(passed(moved, m) == (x + 1) * leaves(1, m));
        assert(passed(top2, m) == passed(moved, m) - leaves(1, m) + 0 * leaves(2, m));
    } else {
        assert(passed(top2, m) == passed(moved, m) - leaves(d + 1, m) + 0 * leaves(d + 2, m));
    }
}

/// What undoing a split does: fewer steps are left, and the rank rises by
/// what the cursor on top had not reached of all that grows from the
/// topology undone.
pub proof fn lemma_unsplit_steps(top: Seq<usize>, m: int)
    requires
        top.len() >= 2,
        top.len() <= m + 1,
        top.last() <= radix(top.len() - 1),
    ensures
        steps_left(top.drop_last(), m) < steps_left(top, m),
        top.len() <= m ==> passed(top.drop_last(), m) == passed(top, m) + (radix(top.len() - 1)
            - top.last()) * leaves(top.len() as int, m),
        top.len() == m + 1 ==> passed(top.drop_last(), m) == passed(top, m) + 1 - top.last(),
{
    let d = top.len() - 1;
    let x = top.last() as int;
    lemma_frame_cost(d, x, m);
    let w = leaves(d + 1, m);
    if d < m {
        assert((radix(d) - x) * w == radix(d) * w - x * w) by (nonlinear_arith);
    } else {
        assert(x * 1 == x);
        assert(leaves(d, m) == 1);
        assert(leaves(d + 1, m) == 1);
    }
}

/// Cursors within their bounds leave no negative number of steps.
pub proof fn lemma_steps_left(top: Seq<usize>, m: int)
    requires
        forall|l: int| 0 <= l < top.len() ==> #[trigger] top[l] <= radix(l),
    ensures
        steps_left(top, m) >= top.len(),
    decreases top.len(),
{
    if top.len() > 0 {
        let d = top.drop_last();
        assert forall|l: int| 0 <= l < d.len() implies #[trigger] d[l] <= radix(l) by {
            assert(d[l] == top[l]);
        }
        lemma_steps_left(d, m);
        lemma_frame_cost(top.len() - 1, top.last() as int, m);
    }
}

/// The cursors of a growing topology are within their bounds.
pub proof fn lemma_dfs_cursors<R>(v: Seq<NodeView<R>>, edges: Seq<(usize, usize)>, top: Seq<usize>)
    requires
        dfs_ok(v, edges, top),
    ensures
        forall|l: int| 0 <= l < top.len() ==> #[trigger] top[l] <= radix(l),
        edges.len() == radix(top.len() - 1),
{
    lemma_frames_edges(edges, top.drop_last());
    assert forall|l: int| 0 <= l < top.len() implies #[trigger] top[l] <= radix(l) by {
        if l < top.len() - 1 {
            assert(top.drop_last()[l] == top[l]);
        }
    }
}

/// One level more multiplies the number of full topologies by the number of
/// edges at the last level.
pub proof fn lemma_leaves_extend(l: int, m: int)
    requires
        0 <= l <= m,
    ensures
        leaves(l, m + 1) == leaves(l, m) * radix(m),
    decreases m - l,
{
    if l < m {
        lemma_leaves_extend(l + 1, m);
        let a = radix(l);
        let b = leaves(l + 1, m);
        let c = radix(m);
        assert(a * (b * c) == (a * b) * c) by (nonlinear_arith);
    } else {
        assert(leaves(m + 1, m + 1) == 1);
        assert(leaves(m, m) == 1);
        assert(radix(m) * 1 == 1 * radix(m)) by (nonlinear_arith);
    }
}

/// The number of full Steiner topologies on `k >= 3` terminals is
/// `(2k - 4)! / (2^(k - 2) (k - 2)!)`: multiplied by the divisor, it gives
/// the dividend.
pub proof fn lemma_topology_count(k: nat)
    requires
        k >= 3,
    ensures
        leaves(0, k - 3) * power_of_two((k - 2) as nat) * factorial((k - 2) as nat) == factorial(
            (2 * k - 4) as nat,
        ),
    decreases k,
{
    if k == 3 {
        assert(leaves(0, 0) == 1);
        assert(power_of_two(1) == 2) by {
            assert(power_of_two(0) == 1);
        }
        assert(factorial(1) == 1) by {
            assert(factorial(0) == 1);
        }
        assert(factorial(2) == 2) by {
            assert(factorial(1) == 1 * factorial(0));
            assert(factorial(0) == 1);
        }
    } else {
        let j = (k - 1) as nat;
        lemma_topology_count(j);
        lemma_leaves_extend(0, j - 3);
        let f = leaves(0, j - 3);
        let p = power_of_two((j - 2) as nat);
        let q = factorial((j - 2) as nat);
        let r = factorial((2 * j - 4) as nat);
        assert(leaves(0, k - 3) == f * radix(j - 3));
        assert(radix(j - 3) == 2 * j - 3);
        assert(power_of_two((k - 2) as nat) == 2 * p);
        assert(factorial((k - 2) as nat) == (j - 1) * q);
        assert(factorial((2 * k - 4) as nat) == (2 * j - 2) * factorial((2 * j - 3) as nat));
        assert(factorial((2 * j - 3) as nat) == (2 * j - 3) * r);
        assert((f * (2 * j - 3)) * (2 * p) * ((j - 1) * q) == (2 * j - 2) * ((2 * j - 3) * (f * p
            * q))) by (nonlinear_arith);
    }
}

/// Moving the Steiner points of a full topology leaves a full topology.
pub proof fn lemma_moved_full_topology<R>(v: Seq<NodeView<R>>, w: Seq<NodeView<R>>, k: nat)
    requires
        full_topology(v, k),
        moved(v, w),
    ensures
        full_topology(w, k),
{
    lemma_moved_wf(v, w);
    lemma_count_terminals_same(v, w);
    assert forall|i: int| 0 <= i < w.len() implies (#[trigger] w[i]).ns.len()
        == if w[i].is_terminal {
        1nat
    } else {
        3nat
    } by {
        assert(v[i].ns.len() == if v[i].is_terminal {
            1nat
        } else {
            3nat
        });
    }
}

/// A grown edge list is its last split of what it was before.
pub proof fn lemma_frames_split(edges: Seq<(usize, usize)>, chosen: Seq<usize>)
    requires
        frames_ok(edges, chosen),
        0 < chosen.len() < usize::MAX / 4,
    ensures
        edges == split_edges(
            unsplit_edges(edges, chosen.last() - 1),
            chosen.last() - 1,
            (3 + 2 * chosen.len()) as usize,
        ),
{
    let ei = chosen.last() - 1;
    let s = (3 + 2 * chosen.len()) as usize;
    let prev = unsplit_edges(edges, ei);
    assert(prev[ei] == (edges[ei].0, edges.last().0));
    assert(edges =~= split_edges(prev, ei, s));
}

/// The cursors tell the edge list: the same splits give the same edges.
pub proof fn lemma_cursors_tell_edges(
    e1: Seq<(usize, usize)>,
    e2: Seq<(usize, usize)>,
    chosen: Seq<usize>,
)
    requires
        frames_ok(e1, chosen),
        frames_ok(e2, chosen),
        chosen.len() < usize::MAX / 4,
    ensures
        e1 == e2,
    decreases chosen.len(),
{
    if chosen.len() > 0 {
        let ei = chosen.last() - 1;
        lemma_cursors_tell_edges(unsplit_edges(e1, ei), unsplit_edges(e2, ei), chosen.drop_last());
        lemma_frames_split(e1, chosen);
        lemma_frames_split(e2, chosen);
    }
}

/// The edge list tells the cursors: different splits give different edges.
pub proof fn lemma_edges_tell_cursors(edges: Seq<(usize, usize)>, c1: Seq<usize>, c2: Seq<usize>)
    requires
        frames_ok(edges, c1),
        frames_ok(edges, c2),
        c1.len() < usize::MAX / 4,
        c2.len() < usize::MAX / 4,
    ensures
        c1 == c2,
    decreases c1.len(),
{
    lemma_frames_edges(edges, c1);
    lemma_frames_edges(edges, c2);
    assert(c1.len() == c2.len());
    if c1.len() > 0 {
        let d = c1.len() as int;
        let i1 = c1.last() - 1;
        let i2 = c2.last() - 1;
        let p1 = unsplit_edges(edges, i1);
        lemma_frames_edges(p1, c1.drop_last());
        if i1 != i2 {
            assert(p1[i2] == edges[i2]);
            assert(p1[i2].1 < 2 + 2 * d);
        }
        lemma_edges_tell_cursors(p1, c1.drop_last(), c2.drop_last());
        assert(c1 =~= c1.drop_last().push(c1.last()));
        assert(c2 =~= c2.drop_last().push(c2.last()));
    }
}

/// The rank of what grows from the first `k` levels lies in the block of
/// those levels: not above the rank of their cursors, and not more than one
/// topology of level `k` below it.
pub proof fn lemma_passed_block(top: Seq<usize>, m: int, k: int)
    requires
        cursors_ok(top, m),
        1 <= k < top.len(),
    ensures
        passed(top.take(k), m) - leaves(k, m) + top.last() * leaves(top.len() as int, m) <= passed(
            top,
            m,
        ),
        passed(top, m) <= passed(top.take(k), m),
        top.len() == m + 1 ==> passed(top, m) < passed(top.take(k), m),
    decreases top.len(),
{
    let d = top.len() - 1;
    let x = top.last() as int;
    let down = top.drop_last();
    assert(down =~= top.take(d));
    lemma_steps_positive(d, m);
    lemma_steps_positive(d + 1, m);
    let w = leaves(d + 1, m);
    // What the cursor on top adds is no more than one topology of its level.
    assert(0 <= x * w <= leaves(d, m)) by {
        if d < m {
            assert(leaves(d, m) == radix(d) * w);
            assert(0 <= x * w <= radix(d) * w) by (nonlinear_arith)
                requires
                    0 <= x <= radix(d),
                    w >= 1,
            ;
        } else {
            assert(x * w == 0) by (nonlinear_arith)
                requires
                    x == 0,
            ;
        }
    }
    assert(passed(top, m) == passed(down, m) - leaves(d, m) + x * w);
    if k < d {
        assert(cursors_ok(down, m)) by {
            assert forall|l: int| 0 <= l < down.len() - 1 implies 1 <= #[trigger] down[l] <= radix(
                l,
            ) by {
                assert(down[l] == top[l]);
            }
            assert(down.last() == top[d - 1]);
        }
        lemma_passed_block(down, m, k);
        assert(down.take(k) =~= top.take(k));
        let y = down.last() as int;
        let u = leaves(d, m);
        assert(y * u >= u) by (nonlinear_arith)
            requires
                y >= 1,
                u >= 1,
        ;
    }
}

/// Full topologies with different cursors have different ranks: as far as
/// the ranks agree, the cursors agree.
pub proof fn lemma_rank_tells_cursors(a: Seq<usize>, b: Seq<usize>, m: int, k: int)
    requires
        leaf_cursors(a, m),
        leaf_cursors(b, m),
        passed(a, m) == passed(b, m),
        0 <= k <= m + 1,
    ensures
        a.take(k) == b.take(k),
    decreases k,
{
    if k == 0 {
        assert(a.take(0) =~= b.take(0));
    } else {
        lemma_rank_tells_cursors(a, b, m, k - 1);
        let l = k - 1;
        if l < m && a[l] != b[l] {
            let (lo, hi) = if a[l] < b[l] {
                (a, b)
            } else {
                (b, a)
            };
            assert(lo.take(l) == hi.take(l));
            lemma_passed_block(lo, m, k);
            lemma_passed_block(hi, m, k);
            let w = leaves(k, m);
            lemma_steps_positive(k, m);
            let x = lo[l] as int;
            let y = hi[l] as int;
            assert(y * w >= x * w + w) by (nonlinear_arith)
                requires
                    y >= x + 1,
                    w >= 1,
            ;
            let pl = lo.take(k);
            let ph = hi.take(k);
            assert(pl.drop_last() =~= lo.take(l));
            assert(ph.drop_last() =~= hi.take(l));
            assert(pl.last() == x && ph.last() == y);
            if k == 1 {
                assert(passed(pl, m) == x * leaves(1, m));
                assert(passed(ph, m) == y * leaves(1, m));
            } else {
                assert(passed(pl, m) == passed(lo.take(l), m) - leaves(l, m) + x * w);
                assert(passed(ph, m) == passed(hi.take(l), m) - leaves(l, m) + y * w);
            }
            assert(hi.last() * leaves(hi.len() as int, m) == 0) by (nonlinear_arith)
                requires
                    hi.last() == 0,
            ;
            assert(passed(lo, m) < passed(hi, m));
        }
        assert(a.take(k) =~= a.take(k - 1).push(a[l]));
        assert(b.take(k) =~= b.take(k - 1).push(b[l]));
    }
}

} // verus!
