use steiner_tree::brimberg_love::BrimbergLove;
use steiner_tree::chia_franco::{h, hk, ChiaFranco, ChiaFrancoApprox};
use steiner_tree::ellipsoid_median::{scale_down, scale_up, scaled_star, GeoMedianEllipsoid};
use steiner_tree::geo_median::{
    all_numbers, centroid, move_off_neighbours, GeoMedian, GeoMedianData, GeoMedianStep,
    GeoMedianStepFixedPointData, GeoMedianStepPrecisionErrorData,
};
use steiner_tree::hyper_ellipsoid::EllipseSpace;
use steiner_tree::ostresh::Ostresh;
use steiner_tree::point::{Point, Point2d};
use steiner_tree::rmt::{GeoMedianIter, RmtData, RMT};
use steiner_tree::scalar::Real;
use steiner_tree::space::{EuclideanSpace, LpSpace, MinkowskiSpace};
use steiner_tree::steiner_bnb::{improves, SteinerBnB, SMT};
use steiner_tree::steiner_tree::SteinerTree;
use steiner_tree::stepper::{GeoMedianStepper, GeoMedianStepperData};
use steiner_tree::uteshev::{Uteshev, UteshevData};
use steiner_tree::weiszfeld::Weiszfeld;

#[derive(Clone, Copy, Debug, PartialEq)]
struct F(f64);

impl Real for F {
    fn zero() -> Self {
        F(0.0)
    }

    fn one() -> Self {
        F(1.0)
    }

    fn from_usize(n: usize) -> Self {
        F(n as f64)
    }

    fn neg(self) -> Self {
        F(-self.0)
    }

    fn abs(self) -> Self {
        F(self.0.abs())
    }

    fn recip(self) -> Self {
        F(self.0.recip())
    }

    fn sqrt(self) -> Self {
        F(self.0.sqrt())
    }

    fn add(self, o: Self) -> Self {
        F(self.0 + o.0)
    }

    fn sub(self, o: Self) -> Self {
        F(self.0 - o.0)
    }

    fn mul(self, o: Self) -> Self {
        F(self.0 * o.0)
    }

    fn div(self, o: Self) -> Self {
        F(self.0 / o.0)
    }

    fn max(self, o: Self) -> Self {
        F(self.0.max(o.0))
    }

    fn min(self, o: Self) -> Self {
        F(self.0.min(o.0))
    }

    fn pow(self, o: Self) -> Self {
        F(self.0.powf(o.0))
    }

    fn lt(self, o: Self) -> bool {
        self.0 < o.0
    }

    fn le(self, o: Self) -> bool {
        self.0 <= o.0
    }

    fn equals(self, o: Self) -> bool {
        self.0 == o.0
    }

    fn is_number(self) -> bool {
        self.0.is_finite()
    }
}

fn pt(x: f64, y: f64) -> Point2d<F> {
    Point2d::new([F(x), F(y)])
}

fn close(a: f64, b: f64, tol: f64) -> bool {
    (a - b).abs() <= tol
}

const T: [(f64, f64); 3] = [(0.0, 0.0), (4.0, 0.0), (0.0, 3.0)];

/// Three terminals round a Steiner point at `(x, y)`.
fn star(x: f64, y: f64) -> SteinerTree<Point2d<F>> {
    let t = [pt(T[0].0, T[0].1), pt(T[1].0, T[1].1), pt(T[2].0, T[2].1)];
    SteinerTree::new(&t, &[pt(x, y)], &[(0, 3), (1, 3), (2, 3)])
}

fn place(tree: &SteinerTree<Point2d<F>>, i: usize) -> (f64, f64) {
    (tree.i(i).p().coord(0).0, tree.i(i).p().coord(1).0)
}

fn xy(p: &Point2d<F>) -> (f64, f64) {
    (p.coord(0).0, p.coord(1).0)
}

fn weiszfeld_by_hand(y: (f64, f64)) -> (f64, f64) {
    let mut num = (0.0, 0.0);
    let mut den = 0.0;
    for t in T {
        let d = ((t.0 - y.0).powi(2) + (t.1 - y.1).powi(2)).sqrt();
        num = (num.0 + t.0 / d, num.1 + t.1 / d);
        den += 1.0 / d;
    }
    (num.0 / den, num.1 / den)
}

fn sum_of_distances(geo: &impl MinkowskiSpace<Point2d<F>>, tree: &SteinerTree<Point2d<F>>, i: usize) -> f64 {
    let node = tree.i(i);
    (0..node.degree()).map(|k| geo.dist(node.p(), tree.i(node.neighbour(k)).p()).0).sum()
}

#[test]
fn the_centroid_is_the_mean_of_the_neighbours() {
    let tree = star(9.0, 9.0);
    let c = centroid(&tree, 3);
    assert!(close(c.coord(0).0, 4.0 / 3.0, 1e-12));
    assert!(close(c.coord(1).0, 1.0, 1e-12));
}

#[test]
fn a_node_on_a_neighbour_moves_to_the_centroid() {
    let mut tree = star(4.0, 0.0);
    move_off_neighbours(&mut tree, 3, &EuclideanSpace);
    let (x, y) = place(&tree, 3);
    assert!(close(x, 4.0 / 3.0, 1e-12));
    assert!(close(y, 1.0, 1e-12));
    let mut tree = star(1.0, 2.0);
    move_off_neighbours(&mut tree, 3, &EuclideanSpace);
    assert_eq!(place(&tree, 3), (1.0, 2.0));
}

#[test]
fn all_numbers_finds_what_is_no_number() {
    assert!(all_numbers(&pt(1.0, -2.0)));
    assert!(!all_numbers(&pt(1.0, f64::NAN)));
    assert!(!all_numbers(&pt(f64::INFINITY, 0.0)));
}

#[test]
fn weiszfeld_steps_to_the_weighted_mean() {
    let tree = star(1.0, 1.0);
    let mut w = Weiszfeld::new();
    let mut x = pt(7.0, 7.0);
    w.step(&mut x, &tree, 3, 1, &EuclideanSpace);
    let want = weiszfeld_by_hand((1.0, 1.0));
    assert!(close(x.coord(0).0, want.0, 1e-12));
    assert!(close(x.coord(1).0, want.1, 1e-12));
    assert_eq!(GeoMedianStep::<Point2d<F>, EuclideanSpace>::data(&w).fixed_points(), 0);
    assert_eq!(place(&tree, 3), (1.0, 1.0));
}

#[test]
fn weiszfeld_stays_and_counts_on_a_neighbour() {
    let tree = star(4.0, 0.0);
    let mut w = Weiszfeld::default();
    let mut x = pt(7.0, 7.0);
    w.step(&mut x, &tree, 3, 1, &EuclideanSpace);
    assert_eq!(xy(&x), (4.0, 0.0));
    assert_eq!(GeoMedianStep::<Point2d<F>, EuclideanSpace>::data(&w).fixed_points(), 1);
    let mut tree = star(4.0, 0.0);
    w.init(&mut tree, 3, &EuclideanSpace);
    assert!(close(place(&tree, 3).0, 4.0 / 3.0, 1e-12));
}

#[test]
fn ostresh_steps_like_weiszfeld_away_from_the_neighbours() {
    let tree = star(1.0, 1.0);
    let mut o = Ostresh::new();
    let mut x = pt(7.0, 7.0);
    o.step(&mut x, &tree, 3, 1, &EuclideanSpace);
    let want = weiszfeld_by_hand((1.0, 1.0));
    assert!(close(x.coord(0).0, want.0, 1e-12));
    assert!(close(x.coord(1).0, want.1, 1e-12));
    assert_eq!(GeoMedianStep::<Point2d<F>, EuclideanSpace>::data(&o).precision_errors(), 0);
}

#[test]
fn ostresh_leaves_a_neighbour_that_is_no_median() {
    // At (0,0): the pull of the two other neighbours is (-1,-1), longer
    // than one, and is cut back by one unit of length.
    let tree = star(0.0, 0.0);
    let mut o = Ostresh::default();
    let mut x = pt(7.0, 7.0);
    o.step(&mut x, &tree, 3, 1, &EuclideanSpace);
    let g = -1.0 + 1.0 / 2f64.sqrt();
    let s = 1.0 / 4.0 + 1.0 / 3.0;
    assert!(close(x.coord(0).0, -g / s, 1e-12));
    assert!(close(x.coord(1).0, -g / s, 1e-12));
    assert_eq!(GeoMedianStep::<Point2d<F>, EuclideanSpace>::data(&o).precision_errors(), 0);
}

#[test]
fn ostresh_stays_on_a_neighbour_that_is_the_median() {
    // Terminals with an angle of more than 120 degrees at (0,0).
    let t = [pt(0.0, 0.0), pt(4.0, 0.0), pt(-4.0, 0.5)];
    let tree = SteinerTree::new(&t, &[pt(0.0, 0.0)], &[(0, 3), (1, 3), (2, 3)]);
    let mut o = Ostresh::new();
    let mut x = pt(7.0, 7.0);
    o.step(&mut x, &tree, 3, 1, &EuclideanSpace);
    assert_eq!(xy(&x), (0.0, 0.0));
    let mut same = star(2.0, 2.0);
    o.init(&mut same, 3, &EuclideanSpace);
    assert_eq!(place(&same, 3), (2.0, 2.0));
}

#[test]
fn brimberg_love_is_weiszfeld_for_the_two_norm() {
    let tree = star(1.0, 1.0);
    let mut b = BrimbergLove::new();
    let mut x = pt(7.0, 7.0);
    b.step(&mut x, &tree, 3, 1, &LpSpace::new(F(2.0)));
    let want = weiszfeld_by_hand((1.0, 1.0));
    assert!(close(x.coord(0).0, want.0, 1e-12));
    assert!(close(x.coord(1).0, want.1, 1e-12));
    assert_eq!(GeoMedianStep::<Point2d<F>, LpSpace<F>>::data(&b).fixed_points(), 0);
}

#[test]
fn brimberg_love_weighs_each_coordinate() {
    let p = 1.5f64;
    let y = (1.0, 1.0);
    let mut num = [0.0, 0.0];
    let mut den = [0.0, 0.0];
    for t in T {
        let d = ((t.0 - y.0).abs().powf(p) + (t.1 - y.1).abs().powf(p)).powf(1.0 / p);
        let dpow = d.powf(1.0 - p);
        let a = [(y.0 - t.0).abs().powf(p - 2.0) * dpow, (y.1 - t.1).abs().powf(p - 2.0) * dpow];
        num = [num[0] + t.0 * a[0], num[1] + t.1 * a[1]];
        den = [den[0] + a[0], den[1] + a[1]];
    }
    let tree = star(y.0, y.1);
    let mut b = BrimbergLove::default();
    let mut x = pt(7.0, 7.0);
    b.step(&mut x, &tree, 3, 1, &LpSpace::new(F(p)));
    assert!(close(x.coord(0).0, num[0] / den[0], 1e-12));
    assert!(close(x.coord(1).0, num[1] / den[1], 1e-12));
}

#[test]
fn brimberg_love_goes_onto_the_neighbour_that_the_node_lies_on() {
    let tree = star(0.0, 3.0);
    let mut b = BrimbergLove::new();
    let mut x = pt(7.0, 7.0);
    b.step(&mut x, &tree, 3, 1, &LpSpace::new(F(1.5)));
    assert_eq!(xy(&x), (0.0, 3.0));
    // The first neighbour shares a coordinate with the node; the third is
    // where the node lies.
    assert_eq!(GeoMedianStep::<Point2d<F>, LpSpace<F>>::data(&b).fixed_points(), 2);
}

#[test]
fn brimberg_love_keeps_a_coordinate_that_it_shares_with_a_neighbour() {
    // The node shares its second coordinate with the first two neighbours.
    let tree = star(1.0, 0.0);
    let mut b = BrimbergLove::new();
    let mut x = pt(7.0, 7.0);
    b.step(&mut x, &tree, 3, 1, &LpSpace::new(F(1.5)));
    assert_eq!(x.coord(1), F(0.0));
    assert!(x.coord(0).0 > 0.0 && x.coord(0).0 < 4.0);
    assert_eq!(GeoMedianStep::<Point2d<F>, LpSpace<F>>::data(&b).fixed_points(), 2);
    let mut on = star(4.0, 0.0);
    b.init(&mut on, 3, &LpSpace::new(F(1.5)));
    assert!(close(place(&on, 3).0, 4.0 / 3.0, 1e-12));
}

fn cross() -> SteinerTree<Point2d<F>> {
    let t = [pt(1.0, 0.0), pt(-1.0, 0.0), pt(0.0, 1.0), pt(0.0, -1.0)];
    SteinerTree::new(&t, &[pt(0.3, 0.2)], &[(0, 4), (1, 4), (2, 4), (3, 4)])
}

#[test]
fn smoothing_takes_the_root_of_the_square_and_epsilon() {
    assert_eq!(hk(F(3.0), F(16.0)), F(5.0));
    let mut p = pt(3.0, 0.0);
    h(&mut p, F(16.0));
    assert_eq!(xy(&p), (5.0, 4.0));
}

#[test]
fn chia_franco_goes_to_the_centre_of_a_cross() {
    for p in [2.5, 4.0] {
        let geo = LpSpace::new(F(p));
        let mut tree = cross();
        let mut m: GeoMedianStepper<Point2d<F>, _> =
            GeoMedianStepper::new(F(1e-7), ChiaFrancoApprox::new(F(1e-9)));
        let start = sum_of_distances(&geo, &tree, 4);
        m.init(&mut tree, 4, &geo);
        m.find(&mut tree, 4, &geo);
        let (x, y) = place(&tree, 4);
        assert!(close(x, 0.0, 1e-2), "p = {}: x = {}", p, x);
        assert!(close(y, 0.0, 1e-2), "p = {}: y = {}", p, y);
        assert!(sum_of_distances(&geo, &tree, 4) < start);
        assert!(GeoMedian::<Point2d<F>, LpSpace<F>>::data(&m).total_steps() >= 1);
    }
}

/// The step of Rodriguez-Chia and Valero-Franco on the cross, by hand.
fn chia_franco_by_hand(p: f64, eps: f64, y: [f64; 2]) -> [f64; 2] {
    let t = [[1.0, 0.0], [-1.0, 0.0], [0.0, 1.0], [0.0, -1.0]];
    let hk = |c: f64| (c * c + eps).sqrt();
    let norm = |v: [f64; 2]| (v[0].abs().powf(p) + v[1].abs().powf(p)).powf(1.0 / p);
    let smooth_dist = |a: [f64; 2], b: [f64; 2]| norm([hk(a[0] - b[0]), hk(a[1] - b[1])]);
    let iterate = |lambda: f64| {
        let mut out = [0.0; 2];
        for c in 0..2 {
            let mut num = 0.0;
            let mut den = 0.0;
            for tk in t {
                let w = hk(y[c] - tk[c]).powf(p - 2.0) / smooth_dist(y, tk).powf(p - 1.0);
                den += w;
                num += w * ((1.0 - lambda) * y[c] + lambda * tk[c]);
            }
            out[c] = num / den;
        }
        out
    };
    let g = iterate(1.0);
    let mut psi0 = 0.0;
    let mut psif = 0.0;
    for c in 0..2 {
        let square = (g[c] - y[c]) * (g[c] - y[c]);
        for tk in t {
            let nt = smooth_dist(y, tk).powf(p - 1.0);
            psi0 += square * (hk(y[c] - tk[c]) / nt);
            psif += square * (hk(y[c] - tk[c] + (2.0 / (p - 1.0)) * (g[c] - y[c])) / nt);
        }
    }
    let lambda = if p > 3.0 {
        let denom = -p * (p - 1.0) * psif;
        (2.0 / (p - 1.0)).min((-2.0 * psi0 * p) / denom)
    } else {
        let mut sum = 0.0;
        for tk in t {
            sum += smooth_dist(y, tk).powf(1.0 - p);
        }
        let nt = norm([hk(g[0] - y[0]), hk(g[1] - y[1])]).powf(p);
        let denom =
            p * psi0 - p * p * psi0 - p * (p - 1.0) * (2.0 / (p - 1.0)).powf(p - 2.0) * nt * sum;
        (-2.0 * psi0 * p) / denom
    };
    iterate(lambda)
}

#[test]
fn chia_franco_steps_as_its_formulas_say() {
    for p in [2.5, 3.0, 4.0] {
        let tree = cross();
        let mut c: ChiaFrancoApprox<Point2d<F>> = ChiaFrancoApprox::new(F(1e-4));
        let mut x = pt(9.0, 9.0);
        c.step(&mut x, &tree, 4, 1, &LpSpace::new(F(p)));
        let want = chia_franco_by_hand(p, 1e-4, [0.3, 0.2]);
        assert!(close(x.coord(0).0, want[0], 1e-12), "p = {}: {} for {}", p, x.coord(0).0, want[0]);
        assert!(close(x.coord(1).0, want[1], 1e-12), "p = {}: {} for {}", p, x.coord(1).0, want[1]);
        assert!(want[0].is_finite() && want[0] != 0.3);
    }
}

#[test]
fn chia_franco_keeps_its_smoothing_and_its_error_bound() {
    let mut c: ChiaFrancoApprox<Point2d<F>> = ChiaFrancoApprox::new(F(1e-6));
    assert_eq!(c.get_epsilon(), F(1e-6));
    assert!(close(c.get_err_ub(4, F(4.0)).0, 4.0 * 2f64.powf(0.25) * 1e-3, 1e-12));
    c.set_epsilon(F(4.0));
    assert_eq!(c.get_epsilon(), F(4.0));
    assert_eq!(c.get_err_ub(3, F(1.0)), F(12.0));
    assert_eq!(GeoMedianStep::<Point2d<F>, LpSpace<F>>::data(&c).precision_errors(), 0);
}

#[test]
fn chia_franco_asks_its_schedule_at_every_step() {
    let mut c: ChiaFranco<Point2d<F>, _> = ChiaFranco::new(|s: usize| F(1.0 / (s * s) as f64));
    assert_eq!(c.get_epsilon(1), F(1.0));
    assert_eq!(c.get_epsilon(10), F(0.01));
    assert_eq!(c.get_err_ub(3, F(1.0), 2), F(3.0));
    let geo = LpSpace::new(F(4.0));
    let tree = cross();
    let mut with_schedule = pt(0.3, 0.2);
    c.step(&mut with_schedule, &tree, 4, 10, &geo);
    let mut fixed: ChiaFrancoApprox<Point2d<F>> = ChiaFrancoApprox::new(F(0.01));
    let mut with_fixed = pt(0.3, 0.2);
    fixed.step(&mut with_fixed, &tree, 4, 1, &geo);
    assert_eq!(xy(&with_schedule), xy(&with_fixed));
    let mut other: ChiaFrancoApprox<Point2d<F>> = ChiaFrancoApprox::new(F(1.0));
    let mut with_other = pt(0.3, 0.2);
    other.step(&mut with_other, &tree, 4, 1, &geo);
    assert_ne!(xy(&with_schedule), xy(&with_other));
    let mut same = cross();
    c.init(&mut same, 4, &geo);
    assert_eq!(place(&same, 4), (0.3, 0.2));
}

#[test]
fn uteshev_finds_the_fermat_point() {
    let mut tree = star(1.0, 1.0);
    let mut u = Uteshev::new();
    u.find(&mut tree, 3, &EuclideanSpace);
    let (x, y) = place(&tree, 3);
    assert!(close(x, 0.6957885340875541, 1e-9));
    assert!(close(y, 0.751176106505155, 1e-9));
    assert!(close(sum_of_distances(&EuclideanSpace, &tree, 3), 6.766432567522308, 1e-9));
    for i in 0..3 {
        assert_eq!(place(&tree, i), T[i]);
    }
    assert!(GeoMedian::<Point2d<F>, EuclideanSpace>::data(&u).time().as_nanos() < u128::MAX);
}

#[test]
fn uteshev_takes_the_corner_with_a_wide_angle() {
    let t = [pt(4.0, 0.0), pt(0.0, 0.0), pt(-4.0, 0.5)];
    let mut tree = SteinerTree::new(&t, &[pt(1.0, 1.0)], &[(0, 3), (1, 3), (2, 3)]);
    Uteshev::default().find(&mut tree, 3, &EuclideanSpace);
    assert_eq!(place(&tree, 3), (0.0, 0.0));
    assert_eq!(Uteshev::cos(F(3.0), F(4.0), F(5.0)), F(0.0));
    assert_eq!(Uteshev::cos(F(1.0), F(1.0), F(2.0)), F(-1.0));
    // Twice the area of the triangle with the sides 3, 4 and 5.
    assert_eq!(Uteshev::s(F(3.0), F(4.0), F(5.0)), F(12.0));
    assert!(close(Uteshev::ca(F(9.0), F(16.0), F(25.0), F(12.0)).0, 1.0 / 12.0, 1e-15));
}

#[test]
fn uteshev_makes_a_node_on_a_neighbour_ready() {
    let mut tree = star(0.0, 3.0);
    let mut u = Uteshev::new();
    u.init(&mut tree, 3, &EuclideanSpace);
    assert!(close(place(&tree, 3).0, 4.0 / 3.0, 1e-12));
    let _: UteshevData = UteshevData::new();
}

#[test]
fn the_stepper_goes_on_until_a_step_is_short() {
    let mut tree = star(1.0, 1.0);
    let mut m: GeoMedianStepper<Point2d<F>, Weiszfeld> = GeoMedianStepper::new(F(1e-10), Weiszfeld::new());
    m.init(&mut tree, 3, &EuclideanSpace);
    m.find(&mut tree, 3, &EuclideanSpace);
    let (x, y) = place(&tree, 3);
    assert!(close(x, 0.6957885340875541, 1e-7));
    assert!(close(y, 0.751176106505155, 1e-7));
    let d = GeoMedian::<Point2d<F>, EuclideanSpace>::data(&m);
    assert_eq!(d.inits(), 1);
    assert!(d.total_steps() > 3);
    assert_eq!(GeoMedianStep::<Point2d<F>, EuclideanSpace>::data(m.step_alg()).fixed_points(), 0);
}

#[test]
fn a_single_step_stepper_takes_one_step() {
    let mut tree = star(1.0, 1.0);
    let mut m: GeoMedianStepper<Point2d<F>, Weiszfeld> =
        GeoMedianStepper::default_with_step(Weiszfeld::new()).single_step();
    m.find(&mut tree, 3, &EuclideanSpace);
    let want = weiszfeld_by_hand((1.0, 1.0));
    let (x, y) = place(&tree, 3);
    assert!(close(x, want.0, 1e-12));
    assert!(close(y, want.1, 1e-12));
    assert_eq!(GeoMedian::<Point2d<F>, EuclideanSpace>::data(&m).total_steps(), 1);
    m.find(&mut tree, 3, &EuclideanSpace);
    assert_eq!(GeoMedian::<Point2d<F>, EuclideanSpace>::data(&m).total_steps(), 2);
}

#[test]
fn settle_moves_the_node_and_compares_the_step_with_the_cutoff() {
    let m: GeoMedianStepper<Point2d<F>, Ostresh> = GeoMedianStepper::default();
    let mut tree = star(1.0, 1.0);
    assert!(!m.settle(&mut tree, 3, &pt(1.0, 1.0002), &EuclideanSpace));
    assert_eq!(place(&tree, 3), (1.0, 1.0002));
    assert!(m.settle(&mut tree, 3, &pt(1.0, 1.00025), &EuclideanSpace));
    assert_eq!(place(&tree, 3), (1.0, 1.00025));
    let fine: GeoMedianStepper<Point2d<F>, Ostresh> = GeoMedianStepper::default_with_step(Ostresh::new());
    assert!(!fine.settle(&mut tree, 3, &pt(1.0, 1.0003), &EuclideanSpace));
    assert!(fine.settle(&mut tree, 3, &pt(1.0, 1.000305), &EuclideanSpace));
}

#[test]
fn fresh_figures_of_the_medians_are_zero() {
    assert_eq!(GeoMedianStepPrecisionErrorData::new().precision_errors(), 0);
    assert_eq!(GeoMedianStepFixedPointData::new().fixed_points(), 0);
    let d = GeoMedianStepperData::new();
    assert_eq!(d.total_steps(), 0);
    assert_eq!(d.inits(), 0);
    assert_eq!(d.clone().total_steps(), 0);
    assert_eq!(d.time().as_nanos(), 0);
}

fn square() -> SteinerTree<Point2d<F>> {
    let t = [pt(0.0, 0.0), pt(0.0, 1.0), pt(1.0, 0.0), pt(1.0, 1.0)];
    let s = [pt(0.4, 0.6), pt(0.7, 0.3)];
    SteinerTree::new(&t, &s, &[(0, 4), (1, 4), (4, 5), (2, 5), (3, 5)])
}

#[test]
fn relaxing_the_square_gives_its_steiner_tree() {
    let mut tree = square();
    let mut rmt = GeoMedianIter::<Point2d<F>, EuclideanSpace, Uteshev>::default();
    let len = rmt.find(&mut tree, &EuclideanSpace);
    assert_eq!(len, tree.len(&EuclideanSpace));
    assert!(close(len.0, 1.0 + 3f64.sqrt(), 1e-4), "length {}", len.0);
    assert_eq!(rmt.data().nodes(), 1);
    assert!(rmt.data().iterations() >= 1);
    for (i, want) in [(0.0, 0.0), (0.0, 1.0), (1.0, 0.0), (1.0, 1.0)].iter().enumerate() {
        assert_eq!(place(&tree, i), *want);
    }
    assert!(close(place(&tree, 4).1, 0.5, 2e-2));
    assert!(close(place(&tree, 5).1, 0.5, 2e-2));
}

#[test]
fn the_length_does_not_rise_from_round_to_round() {
    // With a cutoff beyond every gain each call makes one round.
    let step = GeoMedianStepper::<Point2d<F>, Weiszfeld>::new(F(1e-6), Weiszfeld::new()).single_step();
    let mut rmt = GeoMedianIter::<Point2d<F>, EuclideanSpace, _>::new(F(f64::INFINITY), step);
    let mut tree = square();
    let mut last = tree.len(&EuclideanSpace).0;
    for round in 1..=40 {
        let len = rmt.find(&mut tree, &EuclideanSpace).0;
        assert!(len <= last + 1e-12, "round {}: {} after {}", round, len, last);
        last = len;
    }
    assert_eq!(rmt.data().iterations(), 40);
    assert_eq!(rmt.data().nodes(), 40);
    assert!(close(last, 1.0 + 3f64.sqrt(), 1e-3));
}

#[test]
fn the_cutoff_of_the_iteration_can_be_set() {
    let rmt = GeoMedianIter::<Point2d<F>, EuclideanSpace, Uteshev>::default_with_geomedian(Uteshev::new());
    assert!(rmt.converged(F(1.0), F(1.0)));
    assert!(!rmt.converged(F(1.0), F(0.9999)));
    assert!(rmt.converged(F(1.0), F(2.0)));
    let mut coarse = rmt.tree_len_cutoff(F(0.5));
    assert!(coarse.converged(F(1.0), F(0.6)));
    assert!(!coarse.converged(F(1.0), F(0.5)));
    let mut tree = star(1.0, 1.0);
    coarse.geo_median_alg().find(&mut tree, 3, &EuclideanSpace);
    assert!(close(place(&tree, 3).0, 0.6957885340875541, 1e-9));
}

#[test]
fn a_tree_without_steiner_points_is_left_alone() {
    let t = [pt(0.0, 0.0), pt(3.0, 4.0)];
    let mut tree = SteinerTree::new(&t, &[], &[(0, 1)]);
    let mut rmt = GeoMedianIter::<Point2d<F>, EuclideanSpace, Uteshev>::default();
    assert_eq!(rmt.find(&mut tree, &EuclideanSpace), F(5.0));
}

#[test]
fn scaling_divides_and_multiplies_by_the_half_axes() {
    let mut p = pt(4.0, 3.0);
    scale_down(&mut p, &[F(2.0), F(3.0)]);
    assert_eq!(xy(&p), (2.0, 1.0));
    scale_up(&mut p, &[F(5.0)]);
    assert_eq!(xy(&p), (10.0, 1.0));
}

#[test]
fn the_scaled_star_holds_the_neighbours_round_the_node() {
    let tree = star(1.0, 1.5);
    let st = scaled_star(&tree, 3, &[F(2.0), F(3.0)]);
    assert_eq!(st.node_count(), 4);
    assert_eq!(place(&st, 0), (0.0, 0.0));
    assert_eq!(place(&st, 1), (2.0, 0.0));
    assert_eq!(place(&st, 2), (0.0, 1.0));
    assert_eq!(place(&st, 3), (0.5, 0.5));
    assert!(!st.i(3).is_terminal());
    assert_eq!((0..3).map(|k| st.i(3).neighbour(k)).collect::<Vec<_>>(), vec![0, 1, 2]);
}

#[test]
fn the_median_in_an_ellipse_is_the_scaled_euclidean_median() {
    let h = 3f64.sqrt() / 2.0;
    let t = [pt(0.0, 0.0), pt(2.0, 0.0), pt(1.0, h)];
    let mut tree = SteinerTree::new(&t, &[pt(1.2, 0.1)], &[(0, 3), (1, 3), (2, 3)]);
    let geo = EllipseSpace::new(F(2.0), F(1.0));
    let mut m: GeoMedianEllipsoid<Point2d<F>, Uteshev> = GeoMedianEllipsoid::default();
    m.init(&mut tree, 3, &geo);
    m.find(&mut tree, 3, &geo);
    let (x, y) = place(&tree, 3);
    assert!(close(x, 1.0, 1e-9));
    assert!(close(y, h / 3.0, 1e-9));
    assert_eq!(place(&tree, 1), (2.0, 0.0));
    assert_eq!(place(&tree, 2), (1.0, h));
    assert!(close(sum_of_distances(&geo, &tree, 3), 3f64.sqrt(), 1e-9));
    let mut tree2 = SteinerTree::new(&t, &[pt(1.2, 0.1)], &[(0, 3), (1, 3), (2, 3)]);
    m.geo_median_alg().find(&mut tree2, 3, &EuclideanSpace);
    assert!(GeoMedian::<Point2d<F>, EllipseSpace<F>>::data(&m).selftime().as_nanos() < u128::MAX);
}

#[test]
fn the_search_in_an_ellipse_finds_the_scaled_tree() {
    let h = 3f64.sqrt() / 2.0;
    let geo = EllipseSpace::new(F(2.0), F(1.0));
    let mut bnb = SteinerBnB::<Point2d<F>, EllipseSpace<F>, _, _, _>::default_hyperellipsoid();
    let tree = bnb.find(vec![pt(0.0, 0.0), pt(2.0, 0.0), pt(1.0, h)], &geo);
    assert_eq!(tree.node_count(), 4);
    assert!(close(tree.len(&geo).0, 3f64.sqrt(), 1e-6));
}

#[test]
fn the_search_takes_any_method_for_relaxing() {
    let step = GeoMedianStepper::<Point2d<F>, Ostresh>::default();
    let rmt = GeoMedianIter::<Point2d<F>, EuclideanSpace, _>::new(F(1e-7), step);
    let mut bnb = SteinerBnB::<Point2d<F>, EuclideanSpace, _, _, _>::default_rmt(rmt);
    let tree = bnb.find(vec![pt(0.0, 0.0), pt(4.0, 0.0), pt(0.0, 3.0)], &EuclideanSpace);
    assert!(close(tree.len(&EuclideanSpace).0, 6.7664, 1e-2));
    assert!(improves(F(1.0), F(2.0)));
    assert!(!improves(F(2.0), F(2.0)));
    assert!(!improves(F(f64::NAN), F(2.0)));
}

#[test]
fn a_round_places_the_steiner_points_in_the_order_of_the_nodes() {
    // With a cutoff beyond every gain the iteration makes the points ready
    // and goes round them once.
    let mut rmt = GeoMedianIter::<Point2d<F>, EuclideanSpace, _>::new(F(f64::INFINITY), Uteshev::new());
    let mut tree = square();
    let len = rmt.find(&mut tree, &EuclideanSpace);
    let mut by_hand = square();
    let mut median = Uteshev::new();
    for i in [4usize, 5] {
        GeoMedian::<Point2d<F>, EuclideanSpace>::init(&mut median, &mut by_hand, i, &EuclideanSpace);
    }
    for i in [4usize, 5] {
        GeoMedian::<Point2d<F>, EuclideanSpace>::find(&mut median, &mut by_hand, i, &EuclideanSpace);
    }
    for i in 0..6 {
        assert_eq!(place(&tree, i), place(&by_hand, i), "node {}", i);
    }
    assert_eq!(len, by_hand.len(&EuclideanSpace));
    assert_eq!(rmt.data().iterations(), 1);
    // The second point was placed from where the first had gone.
    let mut other = square();
    GeoMedian::<Point2d<F>, EuclideanSpace>::find(&mut median, &mut other, 5, &EuclideanSpace);
    assert_ne!(place(&other, 5), place(&by_hand, 5));
}

#[test]
fn fresh_figures_have_taken_no_time() {
    let u = UteshevData::new();
    assert_eq!(u.time().as_nanos(), 0);
    assert_eq!(u.clone().time().as_nanos(), 0);
    let m = Uteshev::new();
    assert_eq!(GeoMedian::<Point2d<F>, EuclideanSpace>::data(&m).time().as_nanos(), 0);
    let e = steiner_tree::ellipsoid_median::GeoMedianEllipsoidData::new();
    assert_eq!(e.time().as_nanos(), 0);
    assert_eq!(e.selftime().as_nanos(), 0);
    let b = steiner_tree::steiner_bnb::SteinerBnBData::new();
    assert_eq!(steiner_tree::steiner_bnb::SmtData::time(&b).as_nanos(), 0);
    assert_eq!(steiner_tree::steiner_bnb::SmtData::best_updates(&b), 0);
}

#[test]
fn the_figures_that_a_method_hands_out_are_its_own() {
    let mut step = GeoMedianStepper::<Point2d<F>, Weiszfeld>::new(F(1e-9), Weiszfeld::new());
    let mut tree = star(0.3, 0.2);
    GeoMedian::<Point2d<F>, EuclideanSpace>::init(&mut step, &mut tree, 3, &EuclideanSpace);
    GeoMedian::<Point2d<F>, EuclideanSpace>::find(&mut step, &mut tree, 3, &EuclideanSpace);
    let d = GeoMedian::<Point2d<F>, EuclideanSpace>::data(&step);
    assert_eq!(d.inits(), 1);
    assert!(d.total_steps() >= 1);
    // The time of each search is added to what was spent before.
    let spent = d.time().as_nanos();
    assert!(spent > 0);
    let mut again = star(0.1, 0.7);
    GeoMedian::<Point2d<F>, EuclideanSpace>::find(&mut step, &mut again, 3, &EuclideanSpace);
    assert!(GeoMedian::<Point2d<F>, EuclideanSpace>::data(&step).time().as_nanos() > spent);
    let mut rmt = GeoMedianIter::<Point2d<F>, EuclideanSpace, Uteshev>::default();
    let mut sq = square();
    rmt.find(&mut sq, &EuclideanSpace);
    assert_eq!(rmt.data().nodes(), 1);
    assert!(rmt.data().time().as_nanos() > 0);
    assert!(rmt.data().selftime().as_nanos() <= rmt.data().time().as_nanos());
    let inner = GeoMedian::<Point2d<F>, EuclideanSpace>::data(&*rmt.geo_median_alg()).time().as_nanos();
    assert_eq!(rmt.data().selftime().as_nanos(), rmt.data().time().as_nanos() - inner);
}

#[test]
fn the_counts_rise_by_the_steps_and_rounds_taken() {
    // A stepper that goes on counts each of its steps.
    let mut by_hand = Weiszfeld::new();
    let mut tree = star(0.3, 0.2);
    let mut steps = 0u64;
    let mut s = 1usize;
    loop {
        let before = place(&tree, 3);
        let mut x = tree.i(3).p().duplicate();
        GeoMedianStep::<Point2d<F>, EuclideanSpace>::step(&mut by_hand, &mut x, &tree, 3, s, &EuclideanSpace);
        tree.move_node(3, &x);
        steps += 1;
        s += 1;
        let after = place(&tree, 3);
        if ((after.0 - before.0).powi(2) + (after.1 - before.1).powi(2)).sqrt() < 1e-3 {
            break;
        }
    }
    assert!(steps > 1);
    let mut stepper = GeoMedianStepper::<Point2d<F>, Weiszfeld>::new(F(1e-3), Weiszfeld::new());
    let mut other = star(0.3, 0.2);
    GeoMedian::<Point2d<F>, EuclideanSpace>::find(&mut stepper, &mut other, 3, &EuclideanSpace);
    assert_eq!(GeoMedian::<Point2d<F>, EuclideanSpace>::data(&stepper).total_steps(), steps);
    assert_eq!(place(&other, 3), place(&tree, 3));
    // The iteration counts each round after the one that makes ready.
    let mut rmt = GeoMedianIter::<Point2d<F>, EuclideanSpace, _>::new(F(1e-6), Uteshev::new());
    let mut sq = square();
    let len = rmt.find(&mut sq, &EuclideanSpace).0;
    let rounds = rmt.data().iterations();
    let mut hand = square();
    let mut median = Uteshev::new();
    let mut last = hand.len(&EuclideanSpace).0;
    for i in [4usize, 5] {
        GeoMedian::<Point2d<F>, EuclideanSpace>::init(&mut median, &mut hand, i, &EuclideanSpace);
    }
    let mut count = 0u64;
    loop {
        for i in [4usize, 5] {
            GeoMedian::<Point2d<F>, EuclideanSpace>::find(&mut median, &mut hand, i, &EuclideanSpace);
        }
        count += 1;
        let now = hand.len(&EuclideanSpace).0;
        if last - now < 1e-6 {
            break;
        }
        last = now;
    }
    assert_eq!(rounds, count);
    assert_eq!(len, hand.len(&EuclideanSpace).0);
}
