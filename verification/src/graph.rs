//! Undirected graphs as neighbour lists: the shape of a Steiner tree, apart
//! from where its points lie.

use vstd::prelude::*;

verus! {

/// Whether `j` is listed as a neighbour of `i`.
pub open spec fn adjacent(a: Seq<Seq<usize>>, i: usize, j: usize) -> bool {
    i < a.len() && j < a.len() && a[i as int].contains(j)
}

/// Whether the lists describe a simple undirected graph: every neighbour is a
/// node, no node is its own neighbour or lists a neighbour twice, and whoever
/// lists a node is listed by it.
pub open spec fn adj_wf(a: Seq<Seq<usize>>) -> bool {
    &&& forall|i: int, k: int|
        0 <= i < a.len() && 0 <= k < a[i].len() ==> (#[trigger] a[i][k]) < a.len() && a[i][k] != i
    &&& forall|i: int| 0 <= i < a.len() ==> (#[trigger] a[i]).no_duplicates()
    &&& forall|i: usize, j: usize| #[trigger] adjacent(a, i, j) ==> adjacent(a, j, i)
}

/// The list `s` after the first `x` in it, if there is one, has been replaced
/// by the last entry and the list shortened by one.
pub open spec fn swap_removed(s: Seq<usize>, x: usize) -> Seq<usize> {
    if s.contains(x) {
        let k = first_index(s, x);
        s.update(k, s.last()).drop_last()
    } else {
        s
    }
}

/// The least index at which `x` stands in `s`.
pub open spec fn first_index(s: Seq<usize>, x: usize) -> int {
    choose|k: int| 0 <= k < s.len() && s[k] == x && forall|j: int| 0 <= j < k ==> s[j] != x
}

/// Whether `p` walks along edges: it names at least one node, only nodes,
/// and each next one is a neighbour of the one before.
pub open spec fn is_path(a: Seq<Seq<usize>>, p: Seq<usize>) -> bool {
    &&& p.len() > 0
    &&& forall|k: int| 0 <= k < p.len() ==> (#[trigger] p[k]) < a.len()
    &&& forall|k: int| 0 <= k < p.len() - 1 ==> adjacent(a, #[trigger] p[k], p[k + 1])
}

/// Whether a path leads from `i` to `j`.
pub open spec fn reaches(a: Seq<Seq<usize>>, i: usize, j: usize) -> bool {
    exists|p: Seq<usize>| #[trigger] is_path(a, p) && p[0] == i && p.last() == j
}

/// Whether a path leads from every node to every other.
pub open spec fn connected(a: Seq<Seq<usize>>) -> bool {
    forall|i: usize, j: usize| i < a.len() && j < a.len() ==> #[trigger] reaches(a, i, j)
}

/// The sum of the lengths of the neighbour lists: twice the number of edges.
pub open spec fn degree_sum(a: Seq<Seq<usize>>) -> nat
    decreases a.len(),
{
    if a.len() == 0 {
        0
    } else {
        degree_sum(a.drop_last()) + a.last().len()
    }
}

/// Whether the graph is a tree: connected, with one edge less than it has
/// nodes.
pub open spec fn is_tree(a: Seq<Seq<usize>>) -> bool {
    &&& adj_wf(a)
    &&& a.len() > 0
    &&& connected(a)
    &&& degree_sum(a) == 2 * (a.len() - 1)
}

/// `first_index` is `k` where `x` stands at `k` and nowhere before.
pub proof fn lemma_first_index(s: Seq<usize>, x: usize, k: int)
    requires
        0 <= k < s.len(),
        s[k] == x,
        forall|j: int| 0 <= j < k ==> s[j] != x,
    ensures
        s.contains(x),
        first_index(s, x) == k,
{
    let f = first_index(s, x);
    assert(0 <= f < s.len() && s[f] == x && forall|j: int| 0 <= j < f ==> s[j] != x);
    if f < k {
        assert(s[f] != x);
    }
    if k < f {
        assert(s[k] != x);
    }
}

/// What a list without repetitions holds once `x` is swap-removed: the
/// others, each once.
pub proof fn lemma_swap_removed(s: Seq<usize>, x: usize)
    requires
        s.no_duplicates(),
    ensures
        swap_removed(s, x).no_duplicates(),
        forall|y: usize| #[trigger] swap_removed(s, x).contains(y) <==> (s.contains(y) && y != x),
        s.contains(x) ==> swap_removed(s, x).len() == s.len() - 1,
        !s.contains(x) ==> swap_removed(s, x) == s,
{
    let r = swap_removed(s, x);
    if s.contains(x) {
        let w = choose|k: int| 0 <= k < s.len() && s[k] == x;
        // A least witness exists below w.
        lemma_least_index(s, x, w);
        let k = first_index(s, x);
        assert(0 <= k < s.len() && s[k] == x);
        assert forall|y: usize| #[trigger] r.contains(y) <==> (s.contains(y) && y != x) by {
            if r.contains(y) {
                let m = choose|m: int| 0 <= m < r.len() && r[m] == y;
                if m == k {
                    assert(s[s.len() - 1] == y);
                } else {
                    assert(s[m] == y);
                }
            }
            if s.contains(y) && y != x {
                let m = choose|m: int| 0 <= m < s.len() && s[m] == y;
                if m == s.len() - 1 {
                    assert(r[k] == y);
                } else {
                    assert(r[m] == y);
                }
            }
        }
    }
}

/// Below any index that holds `x` there is a least one.
pub proof fn lemma_least_index(s: Seq<usize>, x: usize, w: int)
    requires
        0 <= w < s.len(),
        s[w] == x,
    ensures
        exists|k: int| 0 <= k <= w && s[k] == x && forall|j: int| 0 <= j < k ==> s[j] != x,
    decreases w,
{
    if exists|j: int| 0 <= j < w && s[j] == x {
        let j = choose|j: int| 0 <= j < w && s[j] == x;
        lemma_least_index(s, x, j);
    } else {
        assert(forall|j: int| 0 <= j < w ==> s[j] != x);
    }
}

/// Every node reaches itself.
pub proof fn lemma_reach_refl(a: Seq<Seq<usize>>, i: usize)
    requires
        i < a.len(),
    ensures
        reaches(a, i, i),
{
    let p = seq![i];
    assert(is_path(a, p) && p[0] == i && p.last() == i);
}

/// Neighbours reach each other.
pub proof fn lemma_reach_edge(a: Seq<Seq<usize>>, i: usize, j: usize)
    requires
        adjacent(a, i, j),
    ensures
        reaches(a, i, j),
{
    let p = seq![i, j];
    assert(is_path(a, p) && p[0] == i && p.last() == j);
}

/// Reaching is transitive.
pub proof fn lemma_reach_trans(a: Seq<Seq<usize>>, i: usize, j: usize, k: usize)
    requires
        reaches(a, i, j),
        reaches(a, j, k),
    ensures
        reaches(a, i, k),
{
    let p = choose|p: Seq<usize>| #[trigger] is_path(a, p) && p[0] == i && p.last() == j;
    let q = choose|q: Seq<usize>| #[trigger] is_path(a, q) && q[0] == j && q.last() == k;
    let r = p + q.drop_first();
    assert forall|m: int| 0 <= m < r.len() - 1 implies adjacent(a, #[trigger] r[m], r[m + 1]) by {
        if m < p.len() - 1 {
            assert(adjacent(a, p[m], p[m + 1]));
        } else if m == p.len() - 1 {
            assert(r[m] == q[0]);
            assert(r[m + 1] == q[1]);
            assert(adjacent(a, q[0int], q[0int + 1]));
        } else {
            let w = m - p.len() + 1;
            assert(r[m] == q[w]);
            assert(r[m + 1] == q[w + 1]);
            assert(adjacent(a, q[w], q[w + 1]));
        }
    }
    assert forall|m: int| 0 <= m < r.len() implies (#[trigger] r[m]) < a.len() by {
        if m < p.len() {
            assert(r[m] == p[m]);
        } else {
            assert(r[m] == q[m - p.len() + 1]);
        }
    }
    assert(r[0] == p[0]);
    if q.len() == 1 {
        assert(r =~= p);
    } else {
        assert(r.last() == q.last());
    }
    assert(is_path(a, r) && r[0] == i && r.last() == k);
}

/// Where neighbours list each other, reaching is symmetric.
pub proof fn lemma_reach_sym(a: Seq<Seq<usize>>, i: usize, j: usize)
    requires
        forall|u: usize, v: usize| #[trigger] adjacent(a, u, v) ==> adjacent(a, v, u),
        reaches(a, i, j),
    ensures
        reaches(a, j, i),
{
    let p = choose|p: Seq<usize>| #[trigger] is_path(a, p) && p[0] == i && p.last() == j;
    let r = Seq::new(p.len(), |m: int| p[p.len() - 1 - m]);
    assert forall|m: int| 0 <= m < r.len() - 1 implies adjacent(a, #[trigger] r[m], r[m + 1]) by {
        let w = p.len() - 2 - m;
        assert(adjacent(a, p[w], p[w + 1]));
    }
    assert(is_path(a, r) && r[0] == j && r.last() == i);
}

/// If the ends of every edge of `a0` reach each other in `a1`, then whoever
/// reaches another in `a0` does so in `a1`.
pub proof fn lemma_reach_transfer(a0: Seq<Seq<usize>>, a1: Seq<Seq<usize>>, i: usize, j: usize)
    requires
        a0.len() <= a1.len(),
        forall|u: usize, v: usize| #[trigger] adjacent(a0, u, v) ==> reaches(a1, u, v),
        reaches(a0, i, j),
    ensures
        reaches(a1, i, j),
{
    let p = choose|p: Seq<usize>| #[trigger] is_path(a0, p) && p[0] == i && p.last() == j;
    lemma_path_transfer(a0, a1, p);
}

/// The step of `lemma_reach_transfer`, along one path.
pub proof fn lemma_path_transfer(a0: Seq<Seq<usize>>, a1: Seq<Seq<usize>>, p: Seq<usize>)
    requires
        a0.len() <= a1.len(),
        forall|u: usize, v: usize| #[trigger] adjacent(a0, u, v) ==> reaches(a1, u, v),
        is_path(a0, p),
    ensures
        reaches(a1, p[0], p.last()),
    decreases p.len(),
{
    if p.len() == 1 {
        lemma_reach_refl(a1, p[0]);
    } else {
        let q = p.drop_last();
        assert forall|k: int| 0 <= k < q.len() - 1
            implies adjacent(a0, #[trigger] q[k], q[k + 1]) by {
            assert(adjacent(a0, p[k], p[k + 1]));
        }
        assert(is_path(a0, q));
        lemma_path_transfer(a0, a1, q);
        let m = p.len() - 2;
        assert(adjacent(a0, p[m], p[m + 1]));
        lemma_reach_trans(a1, p[0], q.last(), p.last());
    }
}

/// Replacing one list changes the degree sum by the change of its length.
pub proof fn lemma_degree_sum_update(a: Seq<Seq<usize>>, i: int, s: Seq<usize>)
    requires
        0 <= i < a.len(),
    ensures
        degree_sum(a.update(i, s)) == degree_sum(a) - a[i].len() + s.len(),
    decreases a.len(),
{
    if i == a.len() - 1 {
        assert(a.update(i, s).drop_last() =~= a.drop_last());
    } else {
        assert(a.update(i, s).drop_last() =~= a.drop_last().update(i, s));
        lemma_degree_sum_update(a.drop_last(), i, s);
    }
}

} // verus!
