//! Minimum spanning trees of the terminals, by Kruskal's algorithm.

use crate::cursors::pairs_from;
use crate::forest::{forest_find, forest_make_set, forest_new, forest_tags, forest_union};
use crate::graph::{
    adjacent, connected, degree_sum, is_path, is_tree, lemma_degree_sum_update, lemma_reach_edge,
    lemma_reach_refl, lemma_reach_sym, lemma_reach_trans, lemma_reach_transfer, reaches,
};
use crate::point::{seq_sub, Point};
use crate::scalar::Real;
use crate::space::MinkowskiSpace;
use crate::steiner_tree::{
    adj_of, edge_added, initial_nodes, lemma_add_edge_wf, lemma_initial_nodes, one_dimension,
    NodeView, SteinerTree,
};

use vstd::prelude::*;

verus! {

/// An edge that may enter the spanning tree, with its length.
#[derive(Debug)]
pub struct Link<R> {
    pub len: R,
    pub from: usize,
    pub to: usize,
}

/// Kruskal's algorithm.
#[derive(Debug)]
pub struct Kruskal {}

/// A spanning tree of the terminals.
pub trait MST<P: Point, M: MinkowskiSpace<P>> {
    /// A tree on the terminals alone that joins them all.
    fn find(&mut self, terminals: &[P], geo: &M) -> (st: SteinerTree<P>)
        requires
            one_dimension(terminals@, Seq::<P>::empty()),
        ensures
            st.wf(),
            spans(st@, terminals@),
            st.spec_terminal_count() == terminals@.len(),
            terminals@.len() > 0 ==> is_tree(adj_of(st@)),
    ;
}

/// Whether `a` comes before `b`: by length, then by the lower end, then by the
/// upper one.
pub open spec fn link_before<R: Real>(a: Link<R>, b: Link<R>) -> bool {
    a.len.lt_spec(b.len) || (a.len.equals_spec(b.len) && (a.from < b.from || (a.from == b.from
        && a.to < b.to)))
}

/// `s` with `x` put in from the right: past every link that `x` comes before,
/// up to the first that it does not.
pub open spec fn insert_sorted<R: Real>(s: Seq<Link<R>>, x: Link<R>) -> Seq<Link<R>>
    decreases s.len(),
{
    if s.len() == 0 || !link_before(x, s.last()) {
        s.push(x)
    } else {
        insert_sorted(s.drop_last(), x).push(s.last())
    }
}

/// The links of `s` in rising order: each, from the first on, put into those
/// before it. Where `link_before` is a strict total order this is the one
/// sorted arrangement of `s`.
pub open spec fn sorted_links<R: Real>(s: Seq<Link<R>>) -> Seq<Link<R>>
    decreases s.len(),
{
    if s.len() == 0 {
        s
    } else {
        insert_sorted(sorted_links(s.drop_last()), s.last())
    }
}

/// The links between the points `t`, one for each of `pairs`, in that order.
pub open spec fn links_of<P: Point, M: MinkowskiSpace<P>>(
    t: Seq<P>,
    geo: &M,
    pairs: Seq<(usize, usize)>,
) -> Seq<Link<P::R>> {
    Seq::new(
        pairs.len(),
        |k: int|
            Link {
                len: geo.norm_spec(
                    seq_sub(t[pairs[k].0 as int].coords_spec(), t[pairs[k].1 as int].coords_spec()),
                ),
                from: pairs[k].0,
                to: pairs[k].1,
            },
    )
}

/// The nodes after the edge `e` was offered: it is added unless its ends
/// reach each other already.
pub open spec fn kruskal_step<R>(v: Seq<NodeView<R>>, e: Link<R>) -> Seq<NodeView<R>> {
    if reaches(adj_of(v), e.from, e.to) {
        v
    } else {
        edge_added(v, e.from, e.to)
    }
}

/// The nodes after the first `k` of `es` were offered in turn.
pub open spec fn kruskal_fold<R>(v: Seq<NodeView<R>>, es: Seq<Link<R>>, k: int) -> Seq<NodeView<R>>
    decreases k,
{
    if k <= 0 {
        v
    } else {
        kruskal_step(kruskal_fold(v, es, k - 1), es[k - 1])
    }
}

/// The spanning tree that Kruskal's algorithm finds for the terminals `t`: all
/// pairs of terminals, sorted, offered in turn to the graph without edges.
pub open spec fn kruskal_tree<P: Point, M: MinkowskiSpace<P>>(
    t: Seq<P>,
    geo: &M,
) -> Seq<NodeView<P::R>> {
    let links = sorted_links(links_of::<P, M>(t, geo, pairs_from(t.len() as int, 0, 1)));
    kruskal_fold(initial_nodes(t, Seq::<P>::empty()), links, links.len() as int)
}

/// Whether the nodes are the terminals `t`, in order, and nothing else.
pub open spec fn spans<P: Point>(v: Seq<NodeView<P::R>>, t: Seq<P>) -> bool {
    &&& v.len() == t.len()
    &&& forall|i: int|
        0 <= i < v.len() ==> (#[trigger] v[i]).coords == t[i].coords_spec() && v[i].point_id
            == t[i].id_spec() && v[i].is_terminal
}

impl<R: Copy> Clone for Link<R> {
    fn clone(&self) -> (r: Self)
        ensures
            r == *self,
    {
        *self
    }
}

impl<R: Copy> Copy for Link<R> {

}

impl Kruskal {
    /// Kruskal's algorithm.
    pub fn new() -> (k: Self) {
        Kruskal {  }
    }
}

impl<P: Point, M: MinkowskiSpace<P>> MST<P, M> for Kruskal {
    /// The tree of `kruskal_tree`: the shortest link first, a link being
    /// skipped where its ends are joined already.
    fn find(&mut self, terminals: &[P], geo: &M) -> (st: SteinerTree<P>)
        ensures
            st@ == kruskal_tree::<P, M>(terminals@, geo),
    {
        let n = terminals.len();
        let none: Vec<P> = Vec::new();
        let no_edges: Vec<(usize, usize)> = Vec::new();
        let ghost v0 = initial_nodes(terminals@, Seq::<P>::empty());
        proof {
            assert(none@ =~= Seq::<P>::empty());
            lemma_initial_nodes(terminals@, none@);
            lemma_pairs_from(n as int, 0, 1);
        }
        let mut st = SteinerTree::new(terminals, none.as_slice(), no_edges.as_slice());
        assert(st@ == v0);
        // All pairs, with their lengths.
        let ghost pairs = pairs_from(n as int, 0, 1);
        let mut links: Vec<Link<P::R>> = Vec::new();
        let mut c = st.node_pairs();
        let ghost mut done: Seq<(usize, usize)> = Seq::empty();
        proof {
            assert(done + c.remaining() =~= pairs);
        }
        let mut e = c.next();
        while e.is_some()
            invariant
                n == terminals@.len(),
                pairs == pairs_from(n as int, 0, 1),
                one_dimension(terminals@, Seq::<P>::empty()),
                forall|m: int|
                    0 <= m < pairs.len() ==> (#[trigger] pairs[m]).0 < pairs[m].1 && pairs[m].1 < n,
                links@ == links_of::<P, M>(terminals@, geo, done),
                e is Some ==> done + seq![e->0] + c.remaining() == pairs,
                e is None ==> done == pairs,
            decreases c.remaining().len() + if e is Some { 1int } else { 0int },
        {
            let (i, j) = e.unwrap();
            proof {
                let m = done.len() as int;
                assert((done + seq![(i, j)] + c.remaining())[m] == (i, j));
                assert(pairs[m] == (i, j));
                assert((terminals@ + Seq::<P>::empty())[i as int] == terminals@[i as int]);
                assert((terminals@ + Seq::<P>::empty())[j as int] == terminals@[j as int]);
            }
            let len = geo.dist(&terminals[i], &terminals[j]);
            links.push(Link { len, from: i, to: j });
            let ghost rest = c.remaining();
            proof {
                assert(links@ =~= links_of::<P, M>(terminals@, geo, done.push((i, j))));
                done = done.push((i, j));
            }
            e = c.next();
            proof {
                if e is Some {
                    assert(done + seq![e->0] + c.remaining() =~= done + rest);
                } else {
                    assert(done =~= done + rest);
                }
                assert(done + rest =~= done.drop_last() + seq![(i, j)] + rest);
            }
        }
        let ghost unsorted = links@;
        sort_links(&mut links);
        let ghost sorted = links@;
        proof {
            lemma_sorted_contains(unsorted);
            assert forall|m: int| 0 <= m < sorted.len() implies (#[trigger] sorted[m]).from
                < sorted[m].to && sorted[m].to < n by {
                assert(sorted.contains(sorted[m]));
                assert(unsorted.contains(sorted[m]));
                let w = choose|w: int| 0 <= w < unsorted.len() && unsorted[w] == sorted[m];
                assert(pairs[w].0 < pairs[w].1);
            }
        }
        // The forest: every terminal in a set of its own.
        let mut forest = forest_new();
        let ghost mut classes: Set<usize> = Set::empty();
        let mut i: usize = 0;
        while i < n
            invariant
                i <= n,
                forest_tags(forest).dom() =~= Set::new(|x: usize| x < i),
                forall|x: usize, y: usize|
                    x < i && y < i && x != y ==> forest_tags(forest)[x] != forest_tags(forest)[y],
                classes.finite(),
                classes.len() == i,
                forall|x: usize| x < i ==> classes.contains(#[trigger] forest_tags(forest)[x]),
                forall|t: usize|
                    classes.contains(t) ==> exists|x: usize| x < i && forest_tags(forest)[x] == t,
            decreases n - i,
        {
            let ghost before_tags = forest_tags(forest);
            forest_make_set(&mut forest, i);
            proof {
                let tags = forest_tags(forest);
                let fresh = tags[i];
                assert(!before_tags.contains_key(i));
                assert(!classes.contains(fresh)) by {
                    if classes.contains(fresh) {
                        let x = choose|x: usize| x < i && before_tags[x] == fresh;
                        assert(before_tags.contains_key(x));
                    }
                }
                assert forall|x: usize| x < i implies before_tags.contains_key(x) && tags[x]
                    == before_tags[x] && tags[i] != before_tags[x] by {
                    assert(before_tags.dom().contains(x));
                }
                assert forall|t: usize| classes.insert(fresh).contains(t) implies exists|x: usize|
                    x < i + 1 && tags[x] == t by {
                    if t == fresh {
                        assert(tags[i] == t);
                    } else {
                        let x = choose|x: usize| x < i && before_tags[x] == t;
                        assert(tags[x] == t);
                    }
                }
                classes = classes.insert(fresh);
            }
            i += 1;
        }
        // The links in rising order, each taken unless its ends are joined.
        let mut k: usize = 0;
        let mut taken: usize = 0;
        proof {
            assert forall|u: usize, v: usize| u < n && v < n implies (forest_tags(forest)[u]
                == forest_tags(forest)[v] <==> #[trigger] reaches(adj_of(st@), u, v)) by {
                if u == v {
                    lemma_reach_refl(adj_of(st@), u);
                } else if reaches(adj_of(st@), u, v) {
                    let p = choose|p: Seq<usize>| #[trigger]
                        is_path(adj_of(st@), p) && p[0] == u && p.last() == v;
                    assert(adjacent(adj_of(st@), p[0], p[0int + 1]));
                }
            }
            lemma_degree_sum_none(adj_of(st@));
        }
        while k < links.len() && n - taken > 1
            invariant
                k <= links.len(),
                n == terminals@.len(),
                n == v0.len(),
                v0 == initial_nodes(terminals@, Seq::<P>::empty()),
                sorted == links@,
                forall|m: int|
                    0 <= m < sorted.len() ==> (#[trigger] sorted[m]).from < sorted[m].to
                        && sorted[m].to < n,
                st.wf(),
                st.spec_terminal_count() == n,
                st@ == kruskal_fold(v0, sorted, k as int),
                spans(st@, terminals@),
                forest_tags(forest).dom() =~= Set::new(|x: usize| x < n),
                forall|u: usize, v: usize|
                    u < n && v < n ==> (forest_tags(forest)[u] == forest_tags(forest)[v]
                        <==> #[trigger] reaches(adj_of(st@), u, v)),
                forall|m: int|
                    0 <= m < k ==> reaches(adj_of(st@), (#[trigger] sorted[m]).from, sorted[m].to),
                classes.finite(),
                classes.len() + taken == n,
                forall|x: usize| x < n ==> classes.contains(#[trigger] forest_tags(forest)[x]),
                forall|t: usize|
                    classes.contains(t) ==> exists|x: usize| x < n && forest_tags(forest)[x] == t,
                degree_sum(adj_of(st@)) == 2 * taken,
            decreases links.len() - k,
        {
            let link = links[k];
            let ghost tags = forest_tags(forest);
            let ghost a0 = adj_of(st@);
            let ghost w0 = st@;
            proof {
                assert(sorted[k as int].from < sorted[k as int].to);
                assert(tags.dom().contains(link.from));
                assert(tags.dom().contains(link.to));
            }
            let r1 = forest_find(&mut forest, link.from);
            let r2 = forest_find(&mut forest, link.to);
            if r1 != r2 {
                proof {
                    assert(tags[link.from] != tags[link.to]);
                    assert(!reaches(a0, link.from, link.to));
                    if adjacent(a0, link.from, link.to) {
                        lemma_reach_edge(a0, link.from, link.to);
                    }
                    lemma_add_edge_wf(st@, link.from, link.to);
                }
                st.add_edge((link.from, link.to));
                let joined = forest_union(&mut forest, link.from, link.to);
                proof {
                    let a1 = adj_of(st@);
                    let tags1 = forest_tags(forest);
                    let rx = tags[link.from];
                    let ry = tags[link.to];
                    assert forall|z: usize| z < n implies tags1[z] == if tags[z] == rx {
                        ry
                    } else {
                        tags[z]
                    } by {
                        assert(tags.dom().contains(z));
                        assert(tags.contains_key(z));
                    }
                    assert forall|u: usize, v: usize| #[trigger] adjacent(a0, u, v) implies reaches(
                        a1,
                        u,
                        v,
                    ) by {
                        assert(adjacent(a1, u, v));
                        lemma_reach_edge(a1, u, v);
                    }
                    assert(adjacent(a1, link.from, link.to));
                    lemma_reach_edge(a1, link.from, link.to);
                    lemma_reach_edge(a1, link.to, link.from);
                    assert forall|u: usize, v: usize| #[trigger] adjacent(a1, u, v) implies tags1[u]
                        == tags1[v] by {
                        if adjacent(a0, u, v) {
                            lemma_reach_edge(a0, u, v);
                        }
                    }
                    assert forall|u: usize, v: usize| u < n && v < n implies (tags1[u] == tags1[v]
                        <==> #[trigger] reaches(a1, u, v)) by {
                        if reaches(a1, u, v) {
                            let p = choose|p: Seq<usize>| #[trigger]
                                is_path(a1, p) && p[0] == u && p.last() == v;
                            lemma_path_one_tag(a1, tags1, p);
                        }
                        if tags1[u] == tags1[v] {
                            if tags[u] == tags[v] {
                                assert(reaches(a0, u, v));
                                lemma_reach_transfer(a0, a1, u, v);
                            } else if tags[u] == rx {
                                assert(reaches(a0, u, link.from));
                                assert(reaches(a0, link.to, v));
                                lemma_reach_transfer(a0, a1, u, link.from);
                                lemma_reach_transfer(a0, a1, link.to, v);
                                lemma_reach_trans(a1, u, link.from, link.to);
                                lemma_reach_trans(a1, u, link.to, v);
                            } else {
                                assert(reaches(a0, u, link.to));
                                assert(reaches(a0, link.from, v));
                                lemma_reach_transfer(a0, a1, u, link.to);
                                lemma_reach_transfer(a0, a1, link.from, v);
                                lemma_reach_trans(a1, u, link.to, link.from);
                                lemma_reach_trans(a1, u, link.from, v);
                            }
                        }
                    }
                    assert forall|m: int| 0 <= m < k + 1 implies reaches(
                        a1,
                        (#[trigger] sorted[m]).from,
                        sorted[m].to,
                    ) by {
                        if m < k {
                            lemma_reach_transfer(a0, a1, sorted[m].from, sorted[m].to);
                        }
                    }
                    // One set less.
                    assert(classes.contains(rx));
                    assert(classes.contains(ry));
                    let fewer = classes.remove(rx);
                    assert forall|x: usize| x < n implies fewer.contains(#[trigger] tags1[x]) by {
                        assert(classes.contains(tags[x]));
                    }
                    assert forall|t: usize| fewer.contains(t) implies exists|x: usize|
                        x < n && tags1[x] == t by {
                        let x = choose|x: usize| x < n && tags[x] == t;
                        assert(tags1[x] == t);
                    }
                    classes = fewer;
                    // Two more ends.
                    let va = w0.update(
                        link.from as int,
                        NodeView { ns: w0[link.from as int].ns.push(link.to), ..w0[link.from as int] },
                    );
                    assert(adj_of(va) =~= a0.update(
                        link.from as int,
                        a0[link.from as int].push(link.to),
                    ));
                    assert(a1 =~= adj_of(va).update(
                        link.to as int,
                        adj_of(va)[link.to as int].push(link.from),
                    ));
                    lemma_degree_sum_update(
                        a0,
                        link.from as int,
                        a0[link.from as int].push(link.to),
                    );
                    lemma_degree_sum_update(
                        adj_of(va),
                        link.to as int,
                        adj_of(va)[link.to as int].push(link.from),
                    );
                    assert forall|i: int| 0 <= i < n implies (#[trigger] st@[i]).coords
                        == terminals@[i].coords_spec() && st@[i].point_id == terminals@[i].id_spec()
                        && st@[i].is_terminal by {
                        assert(w0[i].is_terminal);
                    }
                }
                taken += 1;
            } else {
                proof {
                    assert(tags[link.from] == tags[link.to]);
                    assert(reaches(a0, link.from, link.to));
                }
            }
            k += 1;
        }
        proof {
            let a = adj_of(st@);
            let tags = forest_tags(forest);
            if n > 0 {
                if n - taken > 1 {
                    // Every pair was offered, so every node reaches every other.
                    assert forall|u: usize, v: usize| u < n && v < n implies #[trigger] reaches(
                        a,
                        u,
                        v,
                    ) by {
                        if u == v {
                            lemma_reach_refl(a, u);
                        } else {
                            let (x, y) = if u < v {
                                (u, v)
                            } else {
                                (v, u)
                            };
                            assert(pairs.contains((x, y)));
                            let w = choose|w: int| 0 <= w < pairs.len() && pairs[w] == (x, y);
                            assert(unsorted[w].from == x && unsorted[w].to == y);
                            assert(unsorted.contains(unsorted[w]));
                            assert(sorted.contains(unsorted[w]));
                            let m = choose|m: int| 0 <= m < sorted.len()
                                && sorted[m] == unsorted[w];
                            assert(reaches(a, sorted[m].from, sorted[m].to));
                            if u > v {
                                lemma_reach_sym(a, v, u);
                            }
                        }
                    }
                    assert(classes =~= set![tags[0]]) by {
                        assert forall|t: usize| classes.contains(t) implies t == tags[0] by {
                            let x = choose|x: usize| x < n && tags[x] == t;
                            assert(reaches(a, x, 0));
                        }
                    }
                    assert(false);
                } else {
                    // One set is left, so every node reaches every other.
                    assert(classes.len() == 1);
                    assert forall|u: usize, v: usize| u < n && v < n implies #[trigger] reaches(
                        a,
                        u,
                        v,
                    ) by {
                        if tags[u] != tags[v] {
                            assert(classes.contains(tags[u]));
                            assert(classes.contains(tags[v]));
                            assert(classes.remove(tags[u]).len() == 0);
                            assert(classes.remove(tags[u]).contains(tags[v]));
                        }
                    }
                    lemma_fold_connected(v0, sorted, k as int, sorted.len() as int);
                }
                assert(connected(a));
            }
        }
        st
    }
}

/// Whether `x` comes before `y`.
pub fn before<R: Real>(x: &Link<R>, y: &Link<R>) -> (b: bool)
    ensures
        b == link_before(*x, *y),
{
    x.len.lt(y.len) || (x.len.equals(y.len) && (x.from < y.from || (x.from == y.from && x.to
        < y.to)))
}

/// Sorts the links into rising order.
pub fn sort_links<R: Real>(v: &mut Vec<Link<R>>)
    ensures
        final(v)@ == sorted_links(old(v)@),
{
    let n = v.len();
    let mut i: usize = 0;
    proof {
        assert(v@.take(0) =~= Seq::empty());
    }
    while i < n
        invariant
            i <= n,
            n == v@.len(),
            n == old(v)@.len(),
            v@.take(i as int) == sorted_links(old(v)@.take(i as int)),
            v@.skip(i as int) == old(v)@.skip(i as int),
        decreases n - i,
    {
        let x = v[i];
        let ghost s = v@.take(i as int);
        let ghost whole = v@;
        let mut j: usize = i;
        while j > 0 && before(&x, &v[j - 1])
            invariant
                j <= i < n,
                n == v@.len(),
                s.len() == i,
                v@.take(j as int) == s.take(j as int),
                forall|m: int| j < m <= i ==> v@[m] == s[m - 1],
                forall|m: int| j <= m < i ==> link_before(x, #[trigger] s[m]),
                v@.skip(i + 1) == whole.skip(i + 1),
            decreases j,
        {
            let ghost prev = v@;
            v[j] = v[j - 1];
            proof {
                assert(prev.take(j as int)[j - 1] == s.take(j as int)[j - 1]);
                let lhs = v@.take(j - 1);
                let rhs = s.take(j - 1);
                assert(lhs =~= rhs) by {
                    assert forall|m: int| 0 <= m < j - 1 implies #[trigger] lhs[m] == rhs[m] by {
                        assert(prev.take(j as int)[m] == s.take(j as int)[m]);
                    }
                }
                assert(v@.skip(i + 1) =~= prev.skip(i + 1));
            }
            j -= 1;
        }
        let ghost prev = v@;
        v[j] = x;
        proof {
            lemma_insert_past(s, x, j as int);
            if j > 0 {
                assert(prev.take(j as int)[j - 1] == s.take(j as int)[j - 1]);
                assert(s.take(j as int).last() == s[j - 1]);
            }
            assert(insert_sorted(s.take(j as int), x) == s.take(j as int).push(x));
            let lhs = v@.take(i + 1);
            let rhs = s.take(j as int).push(x) + s.skip(j as int);
            assert(lhs =~= rhs) by {
                assert forall|m: int| 0 <= m < i + 1 implies #[trigger] lhs[m] == rhs[m] by {
                    if m < j {
                        assert(prev.take(j as int)[m] == s.take(j as int)[m]);
                    }
                }
            }
            assert(old(v)@.take(i + 1).drop_last() =~= old(v)@.take(i as int));
            assert(old(v)@.take(i + 1).last() == old(v)@[i as int]);
            assert(whole.skip(i as int)[0] == old(v)@.skip(i as int)[0]);
            let tail = v@.skip(i + 1);
            let old_tail = old(v)@.skip(i + 1);
            assert(tail =~= old_tail) by {
                assert forall|m: int| 0 <= m < n - i - 1 implies #[trigger] tail[m]
                    == old_tail[m] by {
                    assert(tail[m] == whole.skip(i + 1)[m]);
                    assert(whole.skip(i as int)[m + 1] == old(v)@.skip(i as int)[m + 1]);
                }
            }
        }
        i += 1;
    }
    proof {
        assert(v@.take(n as int) =~= v@);
        assert(old(v)@.take(n as int) =~= old(v)@);
    }
}

/// Putting `x` in past a run of links that it comes before.
proof fn lemma_insert_past<R: Real>(s: Seq<Link<R>>, x: Link<R>, j: int)
    requires
        0 <= j <= s.len(),
        forall|m: int| j <= m < s.len() ==> link_before(x, #[trigger] s[m]),
    ensures
        insert_sorted(s, x) == insert_sorted(s.take(j), x) + s.skip(j),
    decreases s.len() - j,
{
    if j == s.len() {
        assert(s.take(j) =~= s);
        assert(insert_sorted(s, x) + s.skip(j) =~= insert_sorted(s, x));
    } else {
        let d = s.drop_last();
        assert(link_before(x, s[s.len() - 1]));
        lemma_insert_past(d, x, j);
        assert(d.take(j) =~= s.take(j));
        assert((insert_sorted(d.take(j), x) + d.skip(j)).push(s.last()) =~= insert_sorted(
            s.take(j),
            x,
        ) + s.skip(j));
    }
}

/// What `insert_sorted` holds: what was there, and `x`.
pub proof fn lemma_insert_contains<R: Real>(s: Seq<Link<R>>, x: Link<R>)
    ensures
        insert_sorted(s, x).len() == s.len() + 1,
        forall|y: Link<R>| #[trigger] insert_sorted(s, x).contains(y) <==> (s.contains(y)
            || y == x),
    decreases s.len(),
{
    let r = insert_sorted(s, x);
    if s.len() == 0 || !link_before(x, s.last()) {
        assert forall|y: Link<R>| #[trigger] r.contains(y) <==> (s.contains(y) || y == x) by {
            if r.contains(y) {
                let m = choose|m: int| 0 <= m < r.len() && r[m] == y;
                if m < s.len() {
                    assert(s[m] == y);
                }
            }
            if s.contains(y) {
                let m = choose|m: int| 0 <= m < s.len() && s[m] == y;
                assert(r[m] == y);
            }
            if y == x {
                assert(r[s.len() as int] == y);
            }
        }
    } else {
        let d = s.drop_last();
        lemma_insert_contains(d, x);
        let q = insert_sorted(d, x);
        assert forall|y: Link<R>| #[trigger] r.contains(y) <==> (s.contains(y) || y == x) by {
            if r.contains(y) {
                let m = choose|m: int| 0 <= m < r.len() && r[m] == y;
                if m < q.len() {
                    assert(q[m] == y);
                    assert(q.contains(y));
                    if d.contains(y) {
                        let w = choose|w: int| 0 <= w < d.len() && d[w] == y;
                        assert(s[w] == y);
                    }
                } else {
                    assert(s[s.len() - 1] == y);
                }
            }
            if s.contains(y) {
                let m = choose|m: int| 0 <= m < s.len() && s[m] == y;
                if m < d.len() {
                    assert(d[m] == y);
                    assert(q.contains(y));
                    let w = choose|w: int| 0 <= w < q.len() && q[w] == y;
                    assert(r[w] == y);
                } else {
                    assert(r[q.len() as int] == y);
                }
            }
            if y == x {
                assert(q.contains(x));
                let w = choose|w: int| 0 <= w < q.len() && q[w] == x;
                assert(r[w] == y);
            }
        }
    }
}

/// Sorting keeps the links: the same ones, as many.
pub proof fn lemma_sorted_contains<R: Real>(s: Seq<Link<R>>)
    ensures
        sorted_links(s).len() == s.len(),
        forall|y: Link<R>| #[trigger] sorted_links(s).contains(y) <==> s.contains(y),
    decreases s.len(),
{
    if s.len() > 0 {
        let d = s.drop_last();
        lemma_sorted_contains(d);
        lemma_insert_contains(sorted_links(d), s.last());
        assert forall|y: Link<R>| #[trigger] sorted_links(s).contains(y) <==> s.contains(y) by {
            if s.contains(y) {
                let m = choose|m: int| 0 <= m < s.len() && s[m] == y;
                if m < d.len() {
                    assert(d[m] == y);
                }
            }
            if d.contains(y) {
                let m = choose|m: int| 0 <= m < d.len() && d[m] == y;
                assert(s[m] == y);
            }
            if y == s.last() {
                assert(s[s.len() - 1] == y);
            }
        }
    }
}

/// The pairs from a pair on: each rising and below `n`, and every such pair
/// that is not before the first is among them.
pub proof fn lemma_pairs_from(n: int, i1: int, i2: int)
    requires
        n <= usize::MAX,
    ensures
        forall|m: int|
            0 <= m < pairs_from(n, i1, i2).len() ==> (#[trigger] pairs_from(n, i1, i2)[m]).0
                < pairs_from(n, i1, i2)[m].1 && pairs_from(n, i1, i2)[m].1 < n,
        forall|a: usize, b: usize|
            0 <= i1 < i2 && (i2 < n || i1 + 1 >= n) && a < b && b < n && (a > i1 || (a == i1 && b
                >= i2)) ==> pairs_from(n, i1, i2).contains((a, b)),
    decreases n - i1, n - i2,
{
    let here = pairs_from(n, i1, i2);
    if i1 < 0 || i2 <= i1 || i2 >= n {
    } else {
        let (j1, j2) = if i2 + 1 == n {
            (i1 + 1, i1 + 2)
        } else {
            (i1, i2 + 1)
        };
        lemma_pairs_from(n, j1, j2);
        let rest = pairs_from(n, j1, j2);
        assert(here =~= seq![(i1 as usize, i2 as usize)] + rest);
        assert forall|m: int| 0 <= m < here.len() implies (#[trigger] here[m]).0 < here[m].1
            && here[m].1 < n by {
            if m > 0 {
                assert(here[m] == rest[m - 1]);
            }
        }
        assert forall|a: usize, b: usize|
            0 <= i1 < i2 && (i2 < n || i1 + 1 >= n) && a < b && b < n && (a > i1 || (a == i1 && b
                >= i2)) implies here.contains((a, b)) by {
            if a == i1 && b == i2 {
                assert(here[0] == (a, b));
            } else {
                assert(rest.contains((a, b)));
                let m = choose|m: int| 0 <= m < rest.len() && rest[m] == (a, b);
                assert(here[m + 1] == (a, b));
            }
        }
    }
}

/// Who reaches another along edges whose ends carry one tag carries the tag
/// of the other.
pub proof fn lemma_path_one_tag(a: Seq<Seq<usize>>, tags: Map<usize, usize>, p: Seq<usize>)
    requires
        is_path(a, p),
        forall|u: usize, v: usize| #[trigger] adjacent(a, u, v) ==> tags[u] == tags[v],
    ensures
        tags[p[0]] == tags[p.last()],
    decreases p.len(),
{
    if p.len() > 1 {
        let q = p.drop_last();
        assert forall|k: int| 0 <= k < q.len() - 1
            implies adjacent(a, #[trigger] q[k], q[k + 1]) by {
            assert(adjacent(a, p[k], p[k + 1]));
        }
        assert(is_path(a, q));
        lemma_path_one_tag(a, tags, q);
        let m = p.len() - 2;
        assert(adjacent(a, p[m], p[m + 1]));
    }
}

/// Offering edges to a connected graph changes nothing.
pub proof fn lemma_fold_connected<R>(v: Seq<NodeView<R>>, es: Seq<Link<R>>, k0: int, k: int)
    requires
        0 <= k0 <= k <= es.len(),
        connected(adj_of(kruskal_fold(v, es, k0))),
        forall|m: int| 0 <= m < es.len()
            ==> (#[trigger] es[m]).from < v.len() && es[m].to < v.len(),
        kruskal_fold(v, es, k0).len() == v.len(),
    ensures
        kruskal_fold(v, es, k) == kruskal_fold(v, es, k0),
    decreases k - k0,
{
    if k > k0 {
        lemma_fold_connected(v, es, k0, k - 1);
        let w = kruskal_fold(v, es, k - 1);
        assert(es[k - 1].from < v.len());
        assert(reaches(adj_of(w), es[k - 1].from, es[k - 1].to));
    }
}

/// A graph without edges has degree sum zero.
pub proof fn lemma_degree_sum_none(a: Seq<Seq<usize>>)
    requires
        forall|i: int| 0 <= i < a.len() ==> (#[trigger] a[i]).len() == 0,
    ensures
        degree_sum(a) == 0,
    decreases a.len(),
{
    if a.len() > 0 {
        lemma_degree_sum_none(a.drop_last());
    }
}

} // verus!
