use steiner_tree::point::{Point, Point2d};
use steiner_tree::scalar::Real;
use steiner_tree::space::{EuclideanSpace, MinkowskiSpace};
use steiner_tree::steiner_bnb::{SmtData, SteinerBnB, SMT};
use steiner_tree::steiner_tree::SteinerTree;
use steiner_tree::uteshev::Uteshev;

#[derive(Clone, Copy, Debug, PartialEq)]
struct F(f64);

impl Real for F {
    fn zero() -> Self {
        F(0.0)
    }

    fn one() -> Self {
        F(1.0)
    }

    fn from_usize(n: usize) -> Self {
        F(n as f64)
    }

    fn neg(self) -> Self {
        F(-self.0)
    }

    fn abs(self) -> Self {
        F(self.0.abs())
    }

    fn recip(self) -> Self {
        F(self.0.recip())
    }

    fn sqrt(self) -> Self {
        F(self.0.sqrt())
    }

    fn add(self, o: Self) -> Self {
        F(self.0 + o.0)
    }

    fn sub(self, o: Self) -> Self {
        F(self.0 - o.0)
    }

    fn mul(self, o: Self) -> Self {
        F(self.0 * o.0)
    }

    fn div(self, o: Self) -> Self {
        F(self.0 / o.0)
    }

    fn max(self, o: Self) -> Self {
        F(self.0.max(o.0))
    }

    fn min(self, o: Self) -> Self {
        F(self.0.min(o.0))
    }

    fn pow(self, o: Self) -> Self {
        F(self.0.powf(o.0))
    }

    fn lt(self, o: Self) -> bool {
        self.0 < o.0
    }

    fn le(self, o: Self) -> bool {
        self.0 <= o.0
    }

    fn equals(self, o: Self) -> bool {
        self.0 == o.0
    }

    fn is_number(self) -> bool {
        self.0.is_finite()
    }
}

fn pt(x: f64, y: f64) -> Point2d<F> {
    Point2d::new([F(x), F(y)])
}

fn solve(terminals: Vec<Point2d<F>>) -> (SteinerTree<Point2d<F>>, f64, u64) {
    let mut bnb: SteinerBnB<Point2d<F>, EuclideanSpace, _, _, _> = SteinerBnB::default();
    let tree = bnb.find(terminals, &EuclideanSpace);
    let len = tree.len(&EuclideanSpace).0;
    let updates = bnb.data().best_updates();
    (tree, len, updates)
}

fn close(a: f64, b: f64, tol: f64) -> bool {
    (a - b).abs() <= tol
}

#[test]
fn unit_square_has_length_one_plus_root_three() {
    let (tree, len, _) = solve(vec![pt(0.0, 0.0), pt(1.0, 0.0), pt(0.0, 1.0), pt(1.0, 1.0)]);
    assert!(close(len, 1.0 + 3f64.sqrt(), 1e-3), "length {}", len);
    assert_eq!(tree.node_count(), 6);
    assert_eq!(tree.terminal_count(), 4);
}

#[test]
fn equilateral_triangle_meets_at_the_centroid() {
    let h = 3f64.sqrt() / 2.0;
    let (tree, len, _) = solve(vec![pt(0.0, 0.0), pt(1.0, 0.0), pt(0.5, h)]);
    assert!(close(len, 3f64.sqrt(), 1e-6), "length {}", len);
    assert_eq!(tree.node_count(), 4);
    let s = tree.i(3);
    assert!(!s.is_terminal());
    let c = s.p().coords();
    assert!(close(c[0].0, 0.5, 1e-6));
    assert!(close(c[1].0, h / 3.0, 1e-6));
}

#[test]
fn right_triangle_has_its_fermat_point() {
    let (_, len, _) = solve(vec![pt(0.0, 0.0), pt(4.0, 0.0), pt(0.0, 3.0)]);
    assert!(close(len, 6.7664, 1e-3), "length {}", len);
}

#[test]
fn near_collinear_terminals_meet_at_the_middle_one() {
    let (_, len, _) = solve(vec![pt(0.0, 0.0), pt(10.0, 0.0), pt(5.0, 0.01)]);
    assert!(close(len, 10.0, 1e-2), "length {}", len);
}

#[test]
fn two_terminals_give_the_line_tree() {
    let (tree, len, updates) = solve(vec![pt(0.0, 0.0), pt(1.0, 0.0)]);
    assert_eq!(len, 1.0);
    assert_eq!(tree.node_count(), 2);
    assert_eq!(updates, 0);
    assert_eq!(tree.i(0).degree(), 1);
    assert_eq!(tree.i(0).neighbour(0), 1);
}

#[test]
fn five_terminals_improve_on_the_line_tree() {
    let terminals = vec![pt(0.0, 0.0), pt(2.0, 0.0), pt(0.0, 2.0), pt(2.0, 2.0), pt(1.0, 1.0)];
    let (tree, len, updates) = solve(terminals);
    assert!(updates >= 1);
    assert!(len < 2.0 + 8f64.sqrt() + 2.0 + 2f64.sqrt());
    assert_eq!(tree.terminal_count(), 5);
    assert_eq!(tree.node_count(), 8);
}

#[test]
fn no_terminal_gives_the_empty_tree() {
    let (tree, len, _) = solve(vec![]);
    assert_eq!(tree.node_count(), 0);
    assert_eq!(len, 0.0);
}

#[test]
fn one_terminal_gives_a_single_node() {
    let (tree, len, _) = solve(vec![pt(3.0, 4.0)]);
    assert_eq!(tree.node_count(), 1);
    assert_eq!(len, 0.0);
}

#[test]
fn collinear_terminals_take_the_longest_distance() {
    let (_, len, _) = solve(vec![pt(0.0, 0.0), pt(1.0, 0.0), pt(3.0, 0.0)]);
    assert!(close(len, 3.0, 1e-9), "length {}", len);
    assert_eq!(EuclideanSpace.dist(&pt(0.0, 0.0), &pt(3.0, 0.0)), F(3.0));
}

#[test]
fn uteshev_picks_the_middle_of_collinear_points() {
    let mut p = pt(7.0, 7.0);
    Uteshev::fermat(&mut p, &pt(0.0, 0.0), &pt(1.0, 0.0), &pt(3.0, 0.0), &EuclideanSpace);
    assert_eq!(p.coords()[0], F(1.0));
    assert_eq!(p.coords()[1], F(0.0));
    let mut q = pt(7.0, 7.0);
    Uteshev::fermat(&mut q, &pt(1.0, 0.0), &pt(0.0, 0.0), &pt(3.0, 0.0), &EuclideanSpace);
    assert_eq!(q.coords()[0], F(1.0));
    assert_eq!(q.coords()[1], F(0.0));
}

#[test]
fn terminals_that_coincide_are_no_obstacle() {
    let (tree, len, _) = solve(vec![pt(0.0, 0.0), pt(1.0, 0.0), pt(1.0, 0.0), pt(0.0, 1.0)]);
    assert_eq!(tree.terminal_count(), 4);
    assert!(len.is_finite());
    assert!(len <= 1.0 + 2f64.sqrt() + 1e-9, "length {}", len);
    let (_, all_one, _) = solve(vec![pt(2.0, 2.0), pt(2.0, 2.0), pt(2.0, 2.0)]);
    assert_eq!(all_one, 0.0);
}

#[test]
fn seven_terminals_are_searched_through() {
    let terminals = vec![
        pt(0.0, 0.0),
        pt(4.0, 0.5),
        pt(1.0, 3.0),
        pt(5.0, 4.0),
        pt(2.5, 6.0),
        pt(6.5, 1.5),
        pt(0.5, 5.5),
    ];
    let line: f64 = terminals.windows(2).map(|w| EuclideanSpace.dist(&w[0], &w[1]).0).sum();
    let (tree, len, updates) = solve(terminals);
    assert_eq!(tree.terminal_count(), 7);
    assert!(updates >= 1);
    assert!(len < line);
    // No tree is shorter than the way between the two terminals farthest apart.
    assert!(len > 7.0);
}
