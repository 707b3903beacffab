use steiner_tree::cursors::Edge;
use steiner_tree::point::{Point, Point2d};
use steiner_tree::scalar::Real;
use steiner_tree::space::EuclideanSpace;
use steiner_tree::steiner_tree::SteinerTree;

#[derive(Clone, Copy, Debug, PartialEq)]
struct F(f64);

impl Real for F {
    fn zero() -> Self {
        F(0.0)
    }

    fn one() -> Self {
        F(1.0)
    }

    fn from_usize(n: usize) -> Self {
        F(n as f64)
    }

    fn neg(self) -> Self {
        F(-self.0)
    }

    fn abs(self) -> Self {
        F(self.0.abs())
    }

    fn recip(self) -> Self {
        F(self.0.recip())
    }

    fn sqrt(self) -> Self {
        F(self.0.sqrt())
    }

    fn add(self, o: Self) -> Self {
        F(self.0 + o.0)
    }

    fn sub(self, o: Self) -> Self {
        F(self.0 - o.0)
    }

    fn mul(self, o: Self) -> Self {
        F(self.0 * o.0)
    }

    fn div(self, o: Self) -> Self {
        F(self.0 / o.0)
    }

    fn max(self, o: Self) -> Self {
        F(self.0.max(o.0))
    }

    fn min(self, o: Self) -> Self {
        F(self.0.min(o.0))
    }

    fn pow(self, o: Self) -> Self {
        F(self.0.powf(o.0))
    }

    fn lt(self, o: Self) -> bool {
        self.0 < o.0
    }

    fn le(self, o: Self) -> bool {
        self.0 <= o.0
    }

    fn equals(self, o: Self) -> bool {
        self.0 == o.0
    }

    fn is_number(self) -> bool {
        self.0.is_finite()
    }
}

fn pt(x: f64, y: f64) -> Point2d<F> {
    Point2d::new([F(x), F(y)])
}

fn close(a: f64, b: f64, tol: f64) -> bool {
    (a - b).abs() <= tol
}

fn square() -> SteinerTree<Point2d<F>> {
    // Four terminals and two Steiner points, joined as a full topology.
    let t = [pt(0.0, 0.0), pt(0.0, 1.0), pt(1.0, 0.0), pt(1.0, 1.0)];
    let s = [pt(0.25, 0.5), pt(0.75, 0.5)];
    SteinerTree::new(&t, &s, &[(0, 4), (1, 4), (4, 5), (2, 5), (3, 5)])
}

fn sorted_neighbours(tree: &SteinerTree<Point2d<F>>, i: usize) -> Vec<usize> {
    let mut c = tree.i(i).neighbours();
    let mut v = Vec::new();
    while let Some(n) = c.next() {
        v.push(n);
    }
    v.sort();
    v
}

fn listed_neighbours(tree: &SteinerTree<Point2d<F>>, i: usize) -> Vec<usize> {
    let node = tree.i(i);
    (0..node.degree()).map(|k| node.neighbour(k)).collect()
}

#[test]
fn new_lists_neighbours_in_the_order_of_the_edges() {
    let tree = square();
    assert_eq!(tree.node_count(), 6);
    assert_eq!(tree.terminal_count(), 4);
    assert_eq!(listed_neighbours(&tree, 4), vec![0, 1, 5]);
    assert_eq!(listed_neighbours(&tree, 5), vec![4, 2, 3]);
    assert_eq!(listed_neighbours(&tree, 0), vec![4]);
    for i in 0..6 {
        assert_eq!(tree.i(i).id(), i);
        assert_eq!(tree.i(i).is_terminal(), i < 4);
    }
}

#[test]
fn neighbours_list_each_other() {
    let tree = square();
    for i in 0..tree.node_count() {
        for n in listed_neighbours(&tree, i) {
            assert!(listed_neighbours(&tree, n).contains(&i));
        }
    }
}

#[test]
fn the_empty_tree_has_nothing() {
    let tree: SteinerTree<Point2d<F>> = SteinerTree::empty();
    assert_eq!(tree.node_count(), 0);
    assert_eq!(tree.terminal_count(), 0);
    assert!(tree.last_node().is_none());
    assert_eq!(tree.len(&EuclideanSpace), F(0.0));
    assert!(tree.edges().next().is_none());
    assert!(tree.node_pairs().next().is_none());
    assert!(tree.terminals().next().is_none());
}

#[test]
fn length_sums_the_edges() {
    let t = [pt(0.0, 0.0), pt(3.0, 4.0), pt(3.0, 0.0)];
    let tree = SteinerTree::new(&t, &[], &[(0, 1), (1, 2)]);
    assert_eq!(tree.len(&EuclideanSpace), F(9.0));
    let tree = SteinerTree::new(&t, &[], &[(0, 2), (1, 2)]);
    assert_eq!(tree.len(&EuclideanSpace), F(7.0));
}

#[test]
fn edges_come_once_each_at_their_lower_end() {
    let tree = square();
    let mut c = tree.edges();
    let mut got = Vec::new();
    while let Some(e) = c.next() {
        got.push(e.nodes());
    }
    assert_eq!(got, vec![(0, 4), (1, 4), (2, 5), (3, 5), (4, 5)]);
}

#[test]
fn an_edge_has_the_distance_of_its_ends() {
    let tree = square();
    let mut c = tree.edges();
    let e: Edge = c.next().unwrap();
    assert_eq!(e.nodes(), (0, 4));
    assert_eq!(e.len(&tree, &EuclideanSpace), F((0.25f64 * 0.25 + 0.25).sqrt()));
}

#[test]
fn incident_edges_start_at_the_node() {
    let tree = square();
    let mut c = tree.i(5).edges();
    let mut got = Vec::new();
    while let Some(e) = c.next() {
        got.push(e.nodes());
    }
    assert_eq!(got, vec![(5, 4), (5, 2), (5, 3)]);
    let mut n = tree.i(5).neighbours();
    assert_eq!(n.len(), 3);
    n.next();
    assert_eq!(n.len(), 2);
}

#[test]
fn terminals_and_steiner_points_come_in_order() {
    let mut tree = square();
    let mut t = tree.terminals();
    assert_eq!(t.len(), 4);
    let mut got = Vec::new();
    while let Some(i) = t.next() {
        got.push(i);
    }
    assert_eq!(got, vec![0, 1, 2, 3]);
    let mut s = tree.steiner_points();
    assert_eq!(s.len(), 2);
    let mut got = Vec::new();
    while let Some(i) = s.next(&tree) {
        tree.steiner_i(i).p_mut().set_coord(0, F(9.0));
        got.push(i);
    }
    assert_eq!(got, vec![4, 5]);
    assert_eq!(tree.i(4).p().coord(0), F(9.0));
    assert_eq!(tree.nodes().len(), 6);
}

#[test]
fn terminals_need_not_come_first() {
    let mut tree = square();
    tree.push_node(pt(2.0, 2.0), &[], true);
    let mut t = tree.terminals();
    let mut got = Vec::new();
    while let Some(i) = t.next() {
        got.push(i);
    }
    assert_eq!(got, vec![0, 1, 2, 3, 6]);
    assert_eq!(tree.terminal_count(), 5);
}

#[test]
fn node_pairs_come_in_lexicographic_order() {
    let t = [pt(0.0, 0.0), pt(1.0, 0.0), pt(2.0, 0.0), pt(3.0, 0.0)];
    let tree = SteinerTree::new(&t, &[], &[]);
    let mut c = tree.node_pairs();
    let mut got = Vec::new();
    while let Some(p) = c.next() {
        got.push(p);
    }
    assert_eq!(got, vec![(0, 1), (0, 2), (0, 3), (1, 2), (1, 3), (2, 3)]);
    let one = SteinerTree::new(&t[..1], &[], &[]);
    assert!(one.node_pairs().next().is_none());
}

#[test]
fn add_edge_puts_each_end_last_in_the_list_of_the_other() {
    let mut tree = square();
    tree.add_edge((0, 3));
    assert_eq!(listed_neighbours(&tree, 0), vec![4, 3]);
    assert_eq!(listed_neighbours(&tree, 3), vec![5, 0]);
}

#[test]
fn remove_edge_swaps_the_last_neighbour_in() {
    let mut tree = square();
    tree.remove_edge((4, 0));
    assert_eq!(listed_neighbours(&tree, 4), vec![5, 1]);
    assert_eq!(listed_neighbours(&tree, 0), Vec::<usize>::new());
    // Parting what is not joined changes nothing.
    tree.remove_edge((0, 3));
    assert_eq!(listed_neighbours(&tree, 3), vec![5]);
    assert_eq!(tree.node_count(), 6);
}

#[test]
fn a_pushed_steiner_point_starts_at_the_centre_of_its_neighbours() {
    let t = [pt(0.0, 0.0), pt(3.0, 0.0), pt(0.0, 6.0)];
    let mut tree = SteinerTree::new(&t, &[], &[]);
    let id = tree.push_node(pt(100.0, 100.0), &[0, 1, 2], false).id();
    assert_eq!(id, 3);
    assert_eq!(tree.i(3).p().coord(0), F(1.0));
    assert_eq!(tree.i(3).p().coord(1), F(2.0));
    assert_eq!(listed_neighbours(&tree, 3), vec![0, 1, 2]);
    assert_eq!(listed_neighbours(&tree, 1), vec![3]);
    assert_eq!(tree.terminal_count(), 3);
    assert!(!tree.last_node().unwrap().is_terminal());
}

#[test]
fn a_pushed_terminal_stays_where_it_is_put() {
    let t = [pt(0.0, 0.0), pt(3.0, 0.0)];
    let mut tree = SteinerTree::new(&t, &[], &[(0, 1)]);
    tree.push_node(pt(7.0, 8.0), &[1], true);
    assert_eq!(tree.i(2).p().coord(0), F(7.0));
    assert_eq!(tree.terminal_count(), 3);
    assert_eq!(listed_neighbours(&tree, 1), vec![0, 2]);
}

#[test]
fn pop_node_takes_the_last_node_out_of_every_list() {
    let mut tree = square();
    let p = tree.pop_node().unwrap();
    assert_eq!(p.coord(0), F(0.75));
    assert_eq!(tree.node_count(), 5);
    assert_eq!(tree.terminal_count(), 4);
    assert_eq!(listed_neighbours(&tree, 4), vec![0, 1]);
    assert_eq!(listed_neighbours(&tree, 2), Vec::<usize>::new());
    tree.pop_node();
    let q = tree.pop_node().unwrap();
    assert_eq!(q.coord(0), F(1.0));
    assert_eq!(tree.terminal_count(), 3);
    let mut empty: SteinerTree<Point2d<F>> = SteinerTree::empty();
    assert!(empty.pop_node().is_none());
}

#[test]
fn init_node_moves_to_the_centre_of_the_neighbours() {
    let mut tree = square();
    tree.init_node(4);
    // Neighbours (0,0), (0,1) and the other Steiner point (0.75, 0.5).
    assert_eq!(tree.i(4).p().coord(0), F(0.0 / 3.0 + 0.0 / 3.0 + 0.75 / 3.0));
    assert_eq!(tree.i(4).p().coord(1), F(0.0 / 3.0 + 1.0 / 3.0 + 0.5 / 3.0));
}

#[test]
fn move_node_moves_one_node() {
    let mut tree = square();
    tree.move_node(5, &pt(0.5, 0.25));
    assert_eq!(tree.i(5).p().coord(1), F(0.25));
    assert_eq!(tree.i(4).p().coord(1), F(0.5));
    assert_eq!(listed_neighbours(&tree, 5), vec![4, 2, 3]);
}

#[test]
fn a_clone_is_equal_and_on_its_own() {
    let tree = square();
    let mut copy = tree.clone();
    assert_eq!(copy.node_count(), tree.node_count());
    assert_eq!(copy.terminal_count(), tree.terminal_count());
    for i in 0..tree.node_count() {
        assert_eq!(listed_neighbours(&copy, i), listed_neighbours(&tree, i));
        assert!(copy.i(i).p().equals(tree.i(i).p()));
        assert_eq!(copy.i(i).is_terminal(), tree.i(i).is_terminal());
        assert_eq!(copy.i(i).id(), tree.i(i).id());
    }
    copy.move_node(4, &pt(9.0, 9.0));
    copy.remove_edge((4, 5));
    copy.pop_node();
    assert_eq!(tree.node_count(), 6);
    assert_eq!(tree.i(4).p().coord(0), F(0.25));
    assert_eq!(listed_neighbours(&tree, 4), vec![0, 1, 5]);
    assert_eq!(sorted_neighbours(&tree, 5), vec![2, 3, 4]);
}

#[test]
fn non_degenerate_keeps_the_tree() {
    let mut tree = square();
    tree.non_degenerate();
    assert_eq!(tree.node_count(), 6);
    assert_eq!(listed_neighbours(&tree, 4), vec![0, 1, 5]);
}
