use std::collections::HashSet;
use steiner_tree::bottleneck::{bottleneck_steiner_distances, smallest_spheres};
use steiner_tree::enumerator::{Enumerator, GPEnumeration};
use steiner_tree::enumerator_data::{EnumeratorData, GPEnumerationData};
use steiner_tree::mst::{before, sort_links, Kruskal, Link, MST};
use steiner_tree::point::{Point, Point2d};
use steiner_tree::prune_test::{PruneTest, UpperBoundPruning};
use steiner_tree::pruning::{prune_paths_check, test_pair, Verdict};
use steiner_tree::rmt::{GeoMedianIter, RMT};
use steiner_tree::scalar::Real;
use steiner_tree::sorter::{FurthestSiteOrdering, NoOrdering, TerminalSorter};
use steiner_tree::space::EuclideanSpace;
use steiner_tree::steiner_bnb::{SmtData, SteinerBnB, SMT};
use steiner_tree::steiner_tree::SteinerTree;
use steiner_tree::upper_bound::{LineTree, MSTBound, UpperBound};
use steiner_tree::uteshev::Uteshev;

#[derive(Clone, Copy, Debug, PartialEq)]
struct F(f64);

impl Real for F {
    fn zero() -> Self {
        F(0.0)
    }

    fn one() -> Self {
        F(1.0)
    }

    fn from_usize(n: usize) -> Self {
        F(n as f64)
    }

    fn neg(self) -> Self {
        F(-self.0)
    }

    fn abs(self) -> Self {
        F(self.0.abs())
    }

    fn recip(self) -> Self {
        F(self.0.recip())
    }

    fn sqrt(self) -> Self {
        F(self.0.sqrt())
    }

    fn add(self, o: Self) -> Self {
        F(self.0 + o.0)
    }

    fn sub(self, o: Self) -> Self {
        F(self.0 - o.0)
    }

    fn mul(self, o: Self) -> Self {
        F(self.0 * o.0)
    }

    fn div(self, o: Self) -> Self {
        F(self.0 / o.0)
    }

    fn max(self, o: Self) -> Self {
        F(self.0.max(o.0))
    }

    fn min(self, o: Self) -> Self {
        F(self.0.min(o.0))
    }

    fn pow(self, o: Self) -> Self {
        F(self.0.powf(o.0))
    }

    fn lt(self, o: Self) -> bool {
        self.0 < o.0
    }

    fn le(self, o: Self) -> bool {
        self.0 <= o.0
    }

    fn equals(self, o: Self) -> bool {
        self.0 == o.0
    }

    fn is_number(self) -> bool {
        self.0.is_finite()
    }
}

fn pt(x: f64, y: f64) -> Point2d<F> {
    Point2d::new([F(x), F(y)])
}

fn close(a: f64, b: f64, tol: f64) -> bool {
    (a - b).abs() <= tol
}

fn listed_neighbours(tree: &SteinerTree<Point2d<F>>, i: usize) -> Vec<usize> {
    let node = tree.i(i);
    (0..node.degree()).map(|k| node.neighbour(k)).collect()
}

fn four() -> Vec<Point2d<F>> {
    vec![pt(0.0, 0.0), pt(1.0, 0.0), pt(3.0, 0.0), pt(3.0, 1.0)]
}

fn row() -> Vec<Point2d<F>> {
    vec![pt(0.0, 0.0), pt(1.0, 0.1), pt(2.0, 0.0), pt(3.0, 0.1), pt(4.0, 0.0), pt(5.0, 0.1)]
}

fn spread(k: usize) -> Vec<Point2d<F>> {
    let all = [
        pt(0.0, 0.0),
        pt(4.0, 0.5),
        pt(1.0, 3.0),
        pt(5.0, 4.0),
        pt(2.5, 6.0),
        pt(6.5, 1.5),
        pt(0.5, 5.5),
    ];
    all[..k].to_vec()
}

/// The topology of a tree as the set of the splits of its terminals that
/// its edges make: for each edge, the terminals on the side without
/// terminal 0, as a bit mask over their identities.
fn splits(tree: &SteinerTree<Point2d<F>>) -> Vec<u64> {
    fn side(tree: &SteinerTree<Point2d<F>>, cur: usize, prev: usize) -> u64 {
        let node = tree.i(cur);
        if node.is_terminal() {
            return 1u64 << node.p().id();
        }
        let mut m = 0;
        for k in 0..node.degree() {
            let n = node.neighbour(k);
            if n != prev {
                m |= side(tree, n, cur);
            }
        }
        m
    }
    let mut all = Vec::new();
    let mut c = tree.edges();
    while let Some(e) = c.next() {
        let (a, b) = e.nodes();
        let m = side(tree, a, b);
        let w = side(tree, b, a);
        all.push(if m & 1 == 0 { m } else { w });
    }
    all.sort();
    all
}

fn check_full_topology(tree: &SteinerTree<Point2d<F>>, k: usize) {
    let n = tree.node_count();
    assert_eq!(n, 2 * k - 2);
    assert_eq!(tree.terminal_count(), k);
    let mut terminals = 0;
    let mut degrees = 0;
    for i in 0..n {
        let node = tree.i(i);
        assert_eq!(node.id(), i);
        let ns = listed_neighbours(tree, i);
        if node.is_terminal() {
            terminals += 1;
            assert_eq!(ns.len(), 1);
        } else {
            assert_eq!(ns.len(), 3);
        }
        degrees += ns.len();
        for m in ns {
            assert!(m < n);
            assert!(listed_neighbours(tree, m).contains(&i));
        }
    }
    assert_eq!(terminals, k);
    assert_eq!(degrees, 2 * (n - 1));
    // Every node is reached from the first.
    let mut seen = vec![false; n];
    let mut stack = vec![0];
    seen[0] = true;
    while let Some(i) = stack.pop() {
        for m in listed_neighbours(tree, i) {
            if !seen[m] {
                seen[m] = true;
                stack.push(m);
            }
        }
    }
    assert!(seen.iter().all(|s| *s));
}

fn count_topologies(k: usize) -> usize {
    let mut e = GPEnumeration::new(false, false, NoOrdering);
    e.init(spread(k), &EuclideanSpace);
    let mut seen = HashSet::new();
    let mut count = 0;
    while e.next(&EuclideanSpace) {
        check_full_topology(e.tree(), k);
        assert!(seen.insert(splits(e.tree())));
        count += 1;
    }
    assert!(!e.next(&EuclideanSpace));
    assert_eq!(e.data().nodes() > 0, k > 3);
    assert_eq!(e.data().pruned(), 0);
    count
}

#[test]
fn three_terminals_have_one_topology() {
    assert_eq!(count_topologies(3), 1);
}

#[test]
fn four_terminals_have_three_topologies() {
    assert_eq!(count_topologies(4), 3);
}

#[test]
fn five_terminals_have_fifteen_topologies() {
    assert_eq!(count_topologies(5), 15);
}

#[test]
fn six_terminals_have_a_hundred_and_five_topologies() {
    assert_eq!(count_topologies(6), 105);
}

#[test]
fn seven_terminals_have_nine_hundred_and_forty_five_topologies() {
    assert_eq!(count_topologies(7), 945);
}

#[test]
fn fewer_than_three_terminals_are_handed_out_once() {
    for k in 0..3 {
        let mut e = GPEnumeration::default_with_sorter(FurthestSiteOrdering);
        e.init(spread(k), &EuclideanSpace);
        assert!(e.next(&EuclideanSpace));
        assert_eq!(e.tree().node_count(), k);
        assert_eq!(e.tree().terminal_count(), k);
        if k == 2 {
            assert_eq!(listed_neighbours(e.tree(), 0), vec![1]);
            assert_eq!(listed_neighbours(e.tree(), 1), vec![0]);
        }
        assert!(!e.next(&EuclideanSpace));
    }
}

#[test]
fn an_enumeration_that_was_not_set_up_hands_out_nothing() {
    let mut e: GPEnumeration<Point2d<F>, NoOrdering> = GPEnumeration::new(true, true, NoOrdering);
    assert!(!e.next(&EuclideanSpace));
    assert_eq!(e.tree().node_count(), 0);
}

#[test]
fn the_seed_holds_the_last_three_terminals() {
    let mut e = GPEnumeration::new(false, false, NoOrdering);
    e.init(spread(5), &EuclideanSpace);
    let tree = e.tree();
    assert_eq!(tree.node_count(), 4);
    for i in 0..3 {
        assert!(tree.i(i).p().equals(&spread(5)[2 + i]));
        assert_eq!(tree.i(i).p().id(), 2 + i);
        assert_eq!(listed_neighbours(tree, i), vec![3]);
    }
    assert_eq!(listed_neighbours(tree, 3), vec![0, 1, 2]);
    let c = tree.i(3).p();
    assert!(close(c.coord(0).0, (1.0 + 5.0 + 2.5) / 3.0, 1e-12));
    assert!(close(c.coord(1).0, (3.0 + 4.0 + 6.0) / 3.0, 1e-12));
}

#[test]
fn a_split_that_is_undone_leaves_the_tree_as_it_was() {
    let mut e = GPEnumeration::new(false, false, NoOrdering);
    e.init(spread(5), &EuclideanSpace);
    let before: Vec<Vec<usize>> = (0..4).map(|i| listed_neighbours(e.tree(), i)).collect();
    let places: Vec<(F, F)> =
        (0..4).map(|i| (e.tree().i(i).p().coord(0), e.tree().i(i).p().coord(1))).collect();
    let (ti, si) = e.insert_on_edge(0);
    assert_eq!((ti, si), (4, 5));
    assert_eq!(e.tree().node_count(), 6);
    assert_eq!(listed_neighbours(e.tree(), 5), vec![0, 3, 4]);
    assert_eq!(listed_neighbours(e.tree(), 4), vec![5]);
    assert_eq!(listed_neighbours(e.tree(), 0), vec![5]);
    assert_eq!(listed_neighbours(e.tree(), 3), vec![2, 1, 5]);
    assert!(e.tree().i(4).p().equals(&spread(5)[1]));
    e.pop();
    assert_eq!(e.tree().node_count(), 4);
    assert_eq!(e.tree().terminal_count(), 3);
    for i in 0..4 {
        let mut now = listed_neighbours(e.tree(), i);
        let mut then = before[i].clone();
        now.sort();
        then.sort();
        assert_eq!(now, then);
        assert_eq!(e.tree().i(i).id(), i);
        assert_eq!((e.tree().i(i).p().coord(0), e.tree().i(i).p().coord(1)), places[i]);
    }
    // The enumeration goes on with the next edge.
    let mut count = 0;
    while e.next(&EuclideanSpace) {
        count += 1;
    }
    assert_eq!(count, 10);
}

#[test]
fn the_search_can_be_driven_step_by_step() {
    let mut e = GPEnumeration::new(false, false, NoOrdering);
    e.init(spread(5), &EuclideanSpace);
    assert!(e.next(&EuclideanSpace));
    let first = splits(e.tree());
    // From a full topology: back to the next edge, one terminal in again.
    assert!(e.backtrack());
    assert_eq!(e.tree().node_count(), 6);
    assert_eq!(e.advance(&EuclideanSpace), Some(true));
    check_full_topology(e.tree(), 5);
    assert_ne!(splits(e.tree()), first);
    let mut count = 2;
    while e.next(&EuclideanSpace) {
        count += 1;
    }
    assert_eq!(count, 15);
    assert_eq!(e.data().nodes(), 3 + 15);
}

#[test]
fn the_default_enumeration_has_both_tests_on() {
    let mut e: GPEnumeration<Point2d<F>, FurthestSiteOrdering> = GPEnumeration::default();
    e.init(row(), &EuclideanSpace);
    while e.next(&EuclideanSpace) {}
    assert!(e.data().bsd_pruned().iter().sum::<usize>() > 0);
    let mut tree = e.tree().clone();
    assert_eq!(tree.node_count(), 4);
    e.tree_mut().move_node(3, &pt(1.0, 1.0));
    assert_eq!(e.tree().i(3).p().coord(0), F(1.0));
    tree.pop_node();
    assert_eq!(e.tree().node_count(), 4);
}

#[test]
fn pruning_keeps_the_shortest_tree() {
    let rmt = || GeoMedianIter::<Point2d<F>, EuclideanSpace, Uteshev>::default();
    let mut plain: SteinerBnB<Point2d<F>, EuclideanSpace, _, _, _> =
        SteinerBnB::new(rmt(), GPEnumeration::new(false, false, FurthestSiteOrdering), LineTree);
    let mut pruned: SteinerBnB<Point2d<F>, EuclideanSpace, _, _, _> =
        SteinerBnB::new(rmt(), GPEnumeration::new(true, true, FurthestSiteOrdering), LineTree);
    let a = plain.find(spread(6), &EuclideanSpace).len(&EuclideanSpace);
    let b = pruned.find(spread(6), &EuclideanSpace).len(&EuclideanSpace);
    assert!(close(a.0, b.0, 1e-4), "{} and {}", a.0, b.0);
    assert_eq!(plain.enumerator().data().nodes(), 3 + 15 + 105);
    assert_eq!(plain.enumerator().data().pruned(), 0);
    let d = pruned.enumerator().data();
    assert!(d.nodes() <= 3 + 15 + 105);
    assert_eq!(d.bsd_pruned().len(), 3);
    assert_eq!(d.ss_pruned().len(), 3);
    assert_eq!(d.prune_times().len(), 3);
    let given_up: usize = d.bsd_pruned().iter().sum::<usize>() + d.ss_pruned().iter().sum::<usize>();
    assert_eq!(d.pruned(), given_up);
}

#[test]
fn the_bottleneck_test_gives_up_what_lies_too_far_apart() {
    // Terminals in a row: the ends are five steps of the spanning tree
    // apart, so that they cannot meet at one Steiner point.
    let mut e = GPEnumeration::new(true, false, NoOrdering);
    e.init(row(), &EuclideanSpace);
    let mut count = 0;
    while e.next(&EuclideanSpace) {
        count += 1;
    }
    assert!(count >= 1);
    assert!(count < 105);
    assert!(e.data().pruned() > 0);
    assert_eq!(e.data().ss_pruned().iter().sum::<usize>(), 0);
    assert_eq!(e.data().pruned(), e.data().bsd_pruned().iter().sum::<usize>());
}

#[test]
fn the_sphere_test_alone_counts_for_itself() {
    let mut e = GPEnumeration::new(false, true, NoOrdering);
    e.init(row(), &EuclideanSpace);
    while e.next(&EuclideanSpace) {}
    assert!(e.data().pruned() > 0);
    assert_eq!(e.data().bsd_pruned().iter().sum::<usize>(), 0);
    assert_eq!(e.data().pruned(), e.data().ss_pruned().iter().sum::<usize>());
}

#[test]
fn the_bounds_of_the_enumeration_are_those_of_the_terminals() {
    let mut e = GPEnumeration::new(true, true, NoOrdering);
    e.init(four(), &EuclideanSpace);
    let mut a = pt(9.0, 9.0);
    a.set_id(0);
    let mut b = pt(9.0, 9.0);
    b.set_id(3);
    assert_eq!(e.get_bottleneck(&a, &b), F(2.0));
    assert_eq!(e.get_bottleneck(&b, &a), F(2.0));
    assert_eq!(e.get_ss(&b), F(1.0));
}

#[test]
fn the_pair_test_follows_its_formulas() {
    // Terminals 0 and 1 at distance 10, bottleneck distance 2, radii 1.
    let t = [pt(0.0, 0.0), pt(10.0, 0.0)];
    let mut tree = SteinerTree::new(&t, &[], &[]);
    tree.steiner_i(1).p_mut().set_id(1);
    let bsd = vec![vec![F(0.0), F(2.0)], vec![F(2.0), F(0.0)]];
    let ss = vec![F(1.0), F(1.0)];
    let g = EuclideanSpace;
    // (k + j + 1) b = 8 < 10.
    assert_eq!(test_pair(&tree, &g, &bsd, &ss, true, true, 2, 0, 1, 1), Verdict::Bsd);
    // (k + j + 1) b = 10, not below 10; 1 + 1 + (k + j - 1) b = 8 < 10.
    assert_eq!(test_pair(&tree, &g, &bsd, &ss, true, true, 3, 0, 1, 1), Verdict::Ss);
    assert_eq!(test_pair(&tree, &g, &bsd, &ss, true, false, 3, 0, 1, 1), Verdict::Keep);
    assert_eq!(test_pair(&tree, &g, &bsd, &ss, false, true, 2, 0, 1, 1), Verdict::Ss);
    // 1 + 1 + (k + j - 1) b = 10, not below 10.
    assert_eq!(test_pair(&tree, &g, &bsd, &ss, true, true, 4, 0, 1, 1), Verdict::Keep);
    assert_eq!(test_pair(&tree, &g, &bsd, &ss, false, false, 0, 0, 1, 1), Verdict::Keep);
}

#[test]
fn the_walk_tests_the_terminals_across_the_new_steiner_point() {
    // Terminals 0 and 1 far from terminal 2, round the Steiner point 3.
    let t = [pt(0.0, 0.0), pt(0.0, 1.0), pt(100.0, 0.0)];
    let s = [pt(1.0, 0.5)];
    let mut tree = SteinerTree::new(&t, &s, &[(0, 3), (1, 3), (2, 3)]);
    for i in 0..3 {
        tree.steiner_i(i).p_mut().set_id(i);
    }
    let g = EuclideanSpace;
    let bsd = bottleneck_steiner_distances(&t, &g);
    let ss = smallest_spheres(&t, &g);
    // Each far pair is joined by two edges, and three times its bottleneck
    // distance is no less than its distance.
    assert_eq!(prune_paths_check(&tree, &g, &bsd, &ss, true, true, 0, 3, 2), Verdict::Keep);
    let near = vec![vec![F(1.0); 3]; 3];
    let small = vec![F(1.0); 3];
    assert_eq!(prune_paths_check(&tree, &g, &near, &ss, true, true, 0, 3, 2), Verdict::Bsd);
    assert_eq!(prune_paths_check(&tree, &g, &near, &ss, false, true, 0, 3, 2), Verdict::Keep);
    assert_eq!(prune_paths_check(&tree, &g, &near, &small, false, true, 0, 3, 2), Verdict::Ss);
    assert_eq!(prune_paths_check(&tree, &g, &near, &small, true, true, 0, 3, 0), Verdict::Bsd);
    assert_eq!(prune_paths_check(&tree, &g, &near, &small, false, false, 0, 3, 2), Verdict::Keep);
    // With many terminals to come every completion is still possible.
    assert_eq!(prune_paths_check(&tree, &g, &near, &small, true, true, 200, 3, 2), Verdict::Keep);
}

#[test]
fn fresh_figures_are_zero() {
    let d = GPEnumerationData::new(6);
    assert_eq!(d.nodes(), 0);
    assert_eq!(d.pruned(), 0);
    assert_eq!(d.bsd_pruned(), &[0, 0, 0]);
    assert_eq!(d.ss_pruned(), &[0, 0, 0]);
    assert_eq!(d.prune_times().len(), 3);
    let mut e = GPEnumerationData::new(2);
    assert_eq!(e.bsd_pruned().len(), 0);
    e.clear(4);
    assert_eq!(e.ss_pruned(), &[0]);
    assert_eq!(d.sort_time().as_nanos(), 0);
    assert_eq!(d.bsd_time().as_nanos(), 0);
    assert_eq!(d.ss_time().as_nanos(), 0);
    assert_eq!(d.init_time().as_nanos(), 0);
    assert_eq!(d.time().as_nanos(), 0);
}

#[test]
fn kruskal_takes_the_shortest_links_that_join() {
    let g = EuclideanSpace;
    let tree = Kruskal::new().find(&four(), &g);
    assert_eq!(tree.node_count(), 4);
    assert_eq!(tree.terminal_count(), 4);
    assert_eq!(listed_neighbours(&tree, 0), vec![1]);
    assert_eq!(listed_neighbours(&tree, 1), vec![0, 2]);
    assert_eq!(listed_neighbours(&tree, 2), vec![3, 1]);
    assert_eq!(listed_neighbours(&tree, 3), vec![2]);
    assert_eq!(tree.len(&g), F(4.0));
}

#[test]
fn kruskal_of_one_or_no_terminal_has_no_edge() {
    let g = EuclideanSpace;
    let none: Vec<Point2d<F>> = Vec::new();
    assert_eq!(Kruskal::new().find(&none, &g).node_count(), 0);
    let one = Kruskal::new().find(&[pt(1.0, 1.0)], &g);
    assert_eq!(one.node_count(), 1);
    assert_eq!(one.i(0).degree(), 0);
}

#[test]
fn links_are_sorted_by_length_then_by_their_ends() {
    let l = |len: f64, from: usize, to: usize| Link { len: F(len), from, to };
    let mut v = vec![l(3.0, 0, 2), l(1.0, 2, 3), l(2.0, 1, 2), l(1.0, 0, 1), l(1.0, 0, 3)];
    sort_links(&mut v);
    let got: Vec<(usize, usize)> = v.iter().map(|x| (x.from, x.to)).collect();
    assert_eq!(got, vec![(0, 1), (0, 3), (2, 3), (1, 2), (0, 2)]);
    assert!(before(&l(1.0, 5, 6), &l(2.0, 0, 1)));
    assert!(before(&l(1.0, 0, 1), &l(1.0, 0, 2)));
    assert!(!before(&l(1.0, 0, 1), &l(1.0, 0, 1)));
    assert!(!before(&l(f64::NAN, 0, 1), &l(1.0, 0, 2)));
}

#[test]
fn the_line_tree_joins_the_terminals_in_their_order() {
    let g = EuclideanSpace;
    let tree = LineTree.bound(four(), &g);
    assert_eq!(listed_neighbours(&tree, 0), vec![1]);
    assert_eq!(listed_neighbours(&tree, 1), vec![0, 2]);
    assert_eq!(listed_neighbours(&tree, 2), vec![1, 3]);
    assert_eq!(tree.len(&g), F(4.0));
    let none: Vec<Point2d<F>> = Vec::new();
    assert_eq!(UpperBound::<Point2d<F>, EuclideanSpace>::bound(&LineTree, none, &g).node_count(), 0);
    let zigzag = vec![pt(0.0, 0.0), pt(3.0, 0.0), pt(1.0, 0.0)];
    assert_eq!(LineTree.bound(zigzag.clone(), &g).len(&g), F(5.0));
    assert_eq!(MSTBound.bound(zigzag, &g).len(&g), F(3.0));
}

#[test]
fn the_search_can_start_from_the_spanning_tree() {
    let rmt = GeoMedianIter::<Point2d<F>, EuclideanSpace, Uteshev>::default();
    let mut bnb: SteinerBnB<Point2d<F>, EuclideanSpace, _, _, _> =
        SteinerBnB::new(rmt, GPEnumeration::default_with_sorter(FurthestSiteOrdering), MSTBound);
    let unit = vec![pt(0.0, 0.0), pt(1.0, 0.0), pt(0.0, 1.0), pt(1.0, 1.0)];
    let tree = bnb.find(unit, &EuclideanSpace);
    assert!(close(tree.len(&EuclideanSpace).0, 1.0 + 3f64.sqrt(), 1e-3));
    assert!(bnb.data().best_updates() >= 1);
    assert!(bnb.rmt_alg().data().iterations() >= 1);
}

#[test]
fn no_ordering_leaves_the_terminals() {
    let mut t = spread(5);
    NoOrdering.sort(&mut t, &EuclideanSpace);
    for i in 0..5 {
        assert!(t[i].equals(&spread(5)[i]));
    }
}

#[test]
fn the_farthest_sites_come_first() {
    let mut t = vec![pt(0.0, 0.0), pt(5.0, 1.0), pt(10.0, 0.0), pt(5.0, 5.0), pt(1.0, 0.0)];
    FurthestSiteOrdering.sort(&mut t, &EuclideanSpace);
    let got: Vec<(f64, f64)> = t.iter().map(|p| (p.coord(0).0, p.coord(1).0)).collect();
    assert_eq!(got, vec![(0.0, 0.0), (10.0, 0.0), (5.0, 5.0), (1.0, 0.0), (5.0, 1.0)]);
    let seed = FurthestSiteOrdering::find_seed(
        &vec![pt(0.0, 0.0), pt(5.0, 1.0), pt(10.0, 0.0), pt(5.0, 5.0), pt(1.0, 0.0)],
        &EuclideanSpace,
    );
    assert_eq!((seed.i, seed.j, seed.k), (0, 2, 3));
    assert_eq!(FurthestSiteOrdering::pick_next(&t, &EuclideanSpace, 3), 0);
    assert_eq!(FurthestSiteOrdering::far_dist(&t, &EuclideanSpace, 3, 3), F(9.0));
}

#[test]
fn fewer_than_three_terminals_are_not_sorted() {
    let mut t = vec![pt(1.0, 0.0), pt(0.0, 0.0)];
    FurthestSiteOrdering.sort(&mut t, &EuclideanSpace);
    assert_eq!(t[0].coord(0), F(1.0));
    let mut none: Vec<Point2d<F>> = Vec::new();
    FurthestSiteOrdering.sort(&mut none, &EuclideanSpace);
    assert!(none.is_empty());
}

#[test]
fn sphere_radii_are_the_distances_to_the_nearest_other() {
    let ss = smallest_spheres(&four(), &EuclideanSpace);
    assert_eq!(ss, vec![F(1.0), F(1.0), F(1.0), F(1.0)]);
    let far = smallest_spheres(&[pt(0.0, 0.0), pt(3.0, 4.0), pt(3.0, 0.0)], &EuclideanSpace);
    assert_eq!(far, vec![F(3.0), F(4.0), F(3.0)]);
    assert_eq!(smallest_spheres(&[pt(0.0, 0.0)], &EuclideanSpace), vec![F(0.0)]);
}

#[test]
fn bottleneck_distances_are_the_longest_edges_on_the_way() {
    let m = bottleneck_steiner_distances(&four(), &EuclideanSpace);
    let want = [[0.0, 1.0, 2.0, 2.0], [1.0, 0.0, 2.0, 2.0], [2.0, 2.0, 0.0, 1.0], [2.0, 2.0, 1.0, 0.0]];
    for i in 0..4 {
        for j in 0..4 {
            assert_eq!(m[i][j], F(want[i][j]), "at {} {}", i, j);
        }
    }
}

#[test]
fn the_upper_bound_test_gives_up_what_is_no_shorter() {
    let tree: SteinerTree<Point2d<F>> = SteinerTree::empty();
    assert!(UpperBoundPruning.prunetest(&tree, F(5.0), F(5.0)));
    assert!(UpperBoundPruning.prunetest(&tree, F(6.0), F(5.0)));
    assert!(!UpperBoundPruning.prunetest(&tree, F(4.0), F(5.0)));
}

#[test]
fn the_enumeration_keeps_the_times_of_its_parts() {
    let mut e = GPEnumeration::new(true, true, FurthestSiteOrdering);
    e.init(spread(7), &EuclideanSpace);
    {
        let d = e.data();
        // Setting up takes in the sorting and both bounds.
        assert!(d.init_time().as_nanos() > 0);
        assert!(d.sort_time().as_nanos() > 0);
        assert!(d.bsd_time().as_nanos() > 0);
        assert!(d.ss_time().as_nanos() > 0);
        let parts = d.sort_time().as_nanos() + d.bsd_time().as_nanos() + d.ss_time().as_nanos();
        assert!(d.init_time().as_nanos() >= parts);
        assert_eq!(d.time().as_nanos(), 0);
        assert!(d.prune_times().iter().all(|t| t.as_nanos() == 0));
    }
    let mut calls = 0;
    while e.next(&EuclideanSpace) {
        calls += 1;
        assert!(e.data().time().as_nanos() > 0);
    }
    assert!(calls > 0);
    let d = e.data();
    assert_eq!(d.prune_times().len(), 4);
    // The tests were timed level by level, each time added to the last.
    let tested: u128 = d.prune_times().iter().map(|t| t.as_nanos()).sum();
    assert!(tested > 0);
    assert!(d.prune_times()[0].as_nanos() > 0);
    // With the tests off no bounds are worked out.
    let mut plain = GPEnumeration::new(false, false, NoOrdering);
    plain.init(spread(5), &EuclideanSpace);
    assert_eq!(plain.data().bsd_time().as_nanos(), 0);
    assert_eq!(plain.data().ss_time().as_nanos(), 0);
}

#[test]
fn the_tests_count_every_edge_between_two_terminals() {
    // Terminals on a line at 3, 0, 1 and 2: the seed holds the last three,
    // and the first split puts the terminal at 3 beside the one at 0. Two
    // edges join them, their bottleneck distance is 1 and nothing waits, so
    // the bound is (2 + 0 + 1) 1 = 3, which their distance 3 does not pass.
    let line = || vec![pt(3.0, 0.0), pt(0.0, 0.0), pt(1.0, 0.0), pt(2.0, 0.0)];
    let mut e = GPEnumeration::new(true, false, NoOrdering);
    e.init(line(), &EuclideanSpace);
    assert!(e.next(&EuclideanSpace));
    let mut beside = listed_neighbours(e.tree(), 5);
    beside.sort();
    assert_eq!(beside, vec![0, 3, 4]);
    assert_eq!(e.tree().i(4).p().coord(0), F(3.0));
    assert_eq!(e.tree().i(0).p().coord(0), F(0.0));
    assert_eq!(e.data().pruned(), 0);
    assert_eq!(e.data().nodes(), 1);
    let mut handed_out = 1;
    while e.next(&EuclideanSpace) {
        handed_out += 1;
    }
    assert_eq!(handed_out, 3);
    assert_eq!(e.data().nodes(), 3);
    assert_eq!(e.data().bsd_pruned(), &[0]);
    // The same two terminals, tested by hand on the tree of the first split.
    let t = [pt(0.0, 0.0), pt(1.0, 0.0), pt(2.0, 0.0), pt(3.0, 0.0)];
    let st = [pt(1.0, 0.0), pt(1.0, 0.0)];
    let mut tree = SteinerTree::new(&t, &st, &[(0, 5), (1, 4), (2, 4), (3, 5), (4, 5)]);
    for i in 0..4 {
        tree.steiner_i(i).p_mut().set_id(i);
    }
    let g = EuclideanSpace;
    let bsd = bottleneck_steiner_distances(&t, &g);
    let ss = smallest_spheres(&t, &g);
    assert_eq!(bsd[0][3], F(1.0));
    assert_eq!(test_pair(&tree, &g, &bsd, &ss, true, false, 0, 0, 3, 2), Verdict::Keep);
    assert_eq!(prune_paths_check(&tree, &g, &bsd, &ss, true, false, 0, 5, 3), Verdict::Keep);
    // One edge fewer in the count would give the topology up.
    assert_eq!(test_pair(&tree, &g, &bsd, &ss, true, false, 0, 0, 3, 1), Verdict::Bsd);
}

#[test]
fn the_terminals_of_every_tree_lie_where_they_were_given() {
    let given = spread(6);
    let at = |tree: &SteinerTree<Point2d<F>>| {
        let mut seen: Vec<(u64, u64)> = Vec::new();
        for i in 0..tree.node_count() {
            if tree.i(i).is_terminal() {
                let p = tree.i(i).p();
                seen.push((p.coord(0).0.to_bits(), p.coord(1).0.to_bits()));
            }
        }
        seen.sort();
        seen
    };
    let mut want: Vec<(u64, u64)> =
        given.iter().map(|p| (p.coord(0).0.to_bits(), p.coord(1).0.to_bits())).collect();
    want.sort();
    let mut e = GPEnumeration::new(false, false, FurthestSiteOrdering);
    e.init(spread(6), &EuclideanSpace);
    let mut rmt = GeoMedianIter::<Point2d<F>, EuclideanSpace, Uteshev>::default();
    while e.next(&EuclideanSpace) {
        assert_eq!(at(e.tree()), want);
        rmt.find(e.tree_mut(), &EuclideanSpace);
        assert_eq!(at(e.tree()), want);
    }
    let mut bnb: SteinerBnB<Point2d<F>, EuclideanSpace, _, _, _> = SteinerBnB::default();
    let best = bnb.find(spread(6), &EuclideanSpace);
    assert_eq!(at(&best), want);
    let one = bnb.find(vec![pt(7.0, -2.0)], &EuclideanSpace);
    assert_eq!(one.node_count(), 1);
    assert_eq!(one.i(0).p().coord(0), F(7.0));
    assert_eq!(one.i(0).p().coord(1), F(-2.0));
}

#[test]
fn the_enumeration_works_in_the_order_of_its_sorter() {
    // The seed holds the last three terminals of the order, and the first
    // split puts in the one before them.
    let mut plain = GPEnumeration::new(false, false, NoOrdering);
    plain.init(spread(5), &EuclideanSpace);
    let given = spread(5);
    for i in 0..3 {
        assert_eq!(plain.tree().i(i).p().coord(0), given[2 + i].coord(0));
        assert_eq!(plain.tree().i(i).p().id(), 2 + i);
    }
    let mut sorted = spread(5);
    FurthestSiteOrdering.sort(&mut sorted, &EuclideanSpace);
    let mut far = GPEnumeration::new(false, false, FurthestSiteOrdering);
    far.init(spread(5), &EuclideanSpace);
    for i in 0..3 {
        assert_eq!(far.tree().i(i).p().coord(0), sorted[2 + i].coord(0));
        assert_eq!(far.tree().i(i).p().coord(1), sorted[2 + i].coord(1));
    }
    assert!(far.next(&EuclideanSpace));
    // Node 4 holds the second terminal of the order, node 6 the first.
    assert_eq!(far.tree().i(4).p().coord(0), sorted[1].coord(0));
    assert_eq!(far.tree().i(6).p().coord(0), sorted[0].coord(0));
    assert_eq!(far.tree().i(6).p().id(), 0);
}
