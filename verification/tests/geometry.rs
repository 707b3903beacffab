use steiner_tree::hyper_ellipsoid::{
    EllipseSpace, EllipsoidSpace, HyperEllipsoid, HyperEllipsoidSpaceNd,
};
use steiner_tree::hyperplane::{Hyperplane, HyperplaneNd, Line, Plane};
use steiner_tree::point::{Point, Point2d, Point3d, Point9d, PointNd};
use steiner_tree::scalar::{half, tolerance, Real};
use steiner_tree::space::{unit, EuclideanSpace, LInfinity, LpSpace, MinkowskiSpace};

#[derive(Clone, Copy, Debug, PartialEq)]
struct F(f64);

impl Real for F {
    fn zero() -> Self {
        F(0.0)
    }

    fn one() -> Self {
        F(1.0)
    }

    fn from_usize(n: usize) -> Self {
        F(n as f64)
    }

    fn neg(self) -> Self {
        F(-self.0)
    }

    fn abs(self) -> Self {
        F(self.0.abs())
    }

    fn recip(self) -> Self {
        F(self.0.recip())
    }

    fn sqrt(self) -> Self {
        F(self.0.sqrt())
    }

    fn add(self, o: Self) -> Self {
        F(self.0 + o.0)
    }

    fn sub(self, o: Self) -> Self {
        F(self.0 - o.0)
    }

    fn mul(self, o: Self) -> Self {
        F(self.0 * o.0)
    }

    fn div(self, o: Self) -> Self {
        F(self.0 / o.0)
    }

    fn max(self, o: Self) -> Self {
        F(self.0.max(o.0))
    }

    fn min(self, o: Self) -> Self {
        F(self.0.min(o.0))
    }

    fn pow(self, o: Self) -> Self {
        F(self.0.powf(o.0))
    }

    fn lt(self, o: Self) -> bool {
        self.0 < o.0
    }

    fn le(self, o: Self) -> bool {
        self.0 <= o.0
    }

    fn equals(self, o: Self) -> bool {
        self.0 == o.0
    }

    fn is_number(self) -> bool {
        self.0.is_finite()
    }
}

fn pt(x: f64, y: f64) -> Point2d<F> {
    Point2d::new([F(x), F(y)])
}

fn close(a: f64, b: f64, tol: f64) -> bool {
    (a - b).abs() <= tol
}

fn xy(p: &Point2d<F>) -> (f64, f64) {
    (p.coords()[0].0, p.coords()[1].0)
}

#[test]
fn points_add_and_subtract_by_coordinate() {
    let mut p = pt(1.0, 2.0);
    p.add(&pt(3.0, 5.0));
    assert_eq!(xy(&p), (4.0, 7.0));
    p.sub(&pt(1.0, 10.0));
    assert_eq!(xy(&p), (3.0, -3.0));
}

#[test]
fn points_scale_and_negate() {
    let mut p = pt(1.0, -2.0);
    p.mul(F(2.0));
    assert_eq!(xy(&p), (2.0, -4.0));
    p.div(F(4.0));
    assert_eq!(xy(&p), (0.5, -1.0));
    p.neg();
    assert_eq!(xy(&p), (-0.5, 1.0));
}

#[test]
fn modify_and_scale_apply_the_function() {
    let mut p = pt(1.0, 2.0);
    p.modify(&pt(10.0, 20.0), &|c: F, oc: F| F(c.0 * oc.0 + 1.0));
    assert_eq!(xy(&p), (11.0, 41.0));
    p.scale(&|c: F| F(c.0 - 1.0));
    assert_eq!(xy(&p), (10.0, 40.0));
}

#[test]
fn dot_product_sums_the_products() {
    assert_eq!(pt(1.0, 2.0).dot(&pt(3.0, 5.0)), F(13.0));
}

#[test]
fn is_zero_looks_at_every_coordinate() {
    assert!(pt(0.0, 0.0).is_zero());
    assert!(!pt(0.0, 1.0).is_zero());
    assert!(!pt(f64::NAN, 0.0).is_zero());
}

#[test]
fn equals_compares_coordinates_not_identities() {
    let mut p = pt(1.0, 2.0);
    p.set_id(7);
    assert!(p.equals(&pt(1.0, 2.0)));
    assert!(!p.equals(&pt(1.0, 3.0)));
    assert_eq!(p.id(), 7);
}

#[test]
fn copy_takes_coordinates_and_keeps_the_identity() {
    let mut p = pt(1.0, 2.0);
    p.set_id(3);
    let mut q = pt(8.0, 9.0);
    q.set_id(5);
    p.copy(&q);
    assert_eq!(xy(&p), (8.0, 9.0));
    assert_eq!(p.id(), 3);
}

#[test]
fn duplicate_and_clone_keep_everything() {
    let mut p = pt(1.0, 2.0);
    p.set_id(3);
    let q = p.duplicate();
    let r = p.clone();
    p.set_coord(0, F(100.0));
    assert_eq!(xy(&q), (1.0, 2.0));
    assert_eq!(xy(&r), (1.0, 2.0));
    assert_eq!(q.id(), 3);
    assert_eq!(r.id(), 3);
}

#[test]
fn new_points_have_identity_zero() {
    let p = PointNd::new(vec![F(1.0), F(2.0), F(3.0), F(4.0)]);
    assert_eq!(p.id(), 0);
    assert_eq!(p.dim(), 4);
    assert_eq!(p.coord(3), F(4.0));
    let q = Point3d::new([F(1.0), F(2.0), F(3.0)]);
    assert_eq!(q.dim(), 3);
    assert_eq!(q.arr()[2], F(3.0));
    let r = Point9d::new([F(0.0); 9]);
    assert_eq!(r.dim(), 9);
    assert_eq!(r.id(), 0);
}

#[test]
fn unit_divides_by_the_norm() {
    let mut p = pt(3.0, 4.0);
    unit(&mut p, &EuclideanSpace);
    assert_eq!(xy(&p), (0.6, 0.8));
}

#[test]
fn euclidean_norm_and_distance() {
    let e = EuclideanSpace::new();
    assert_eq!(e.norm(&pt(3.0, 4.0)), F(5.0));
    assert_eq!(e.dist(&pt(1.0, 1.0), &pt(4.0, 5.0)), F(5.0));
    assert_eq!(e.dist(&pt(4.0, 5.0), &pt(1.0, 1.0)), F(5.0));
}

#[test]
fn one_norm_sums_absolute_values() {
    let l1 = LpSpace::new(F(1.0));
    assert_eq!(l1.p(), F(1.0));
    assert_eq!(l1.norm(&pt(3.0, -4.0)), F(7.0));
    assert_eq!(l1.dist(&pt(1.0, 1.0), &pt(4.0, -3.0)), F(7.0));
}

#[test]
fn three_norm_takes_the_cube_root() {
    let l3 = LpSpace::new(F(3.0));
    let n: F = l3.norm(&pt(3.0, 4.0));
    assert!(close(n.0, 91f64.powf(1.0 / 3.0), 1e-12));
}

#[test]
fn two_norm_is_the_euclidean_norm() {
    let l2 = LpSpace::new(F(2.0));
    let n: F = l2.dist(&pt(0.0, 0.0), &pt(3.0, 4.0));
    assert!(close(n.0, 5.0, 1e-12));
}

#[test]
fn maximum_norm_keeps_the_running_maximum() {
    let li: LpSpace<LInfinity> = LpSpace::infinity();
    let p = PointNd::new(vec![F(1.0), F(5.0), F(3.0)]);
    assert_eq!(li.norm(&p), F(5.0));
    let q = PointNd::new(vec![F(0.0), F(1.0), F(1.0)]);
    assert_eq!(li.dist(&p, &q), F(4.0));
    // Every coordinate enters by its absolute value.
    assert_eq!(li.norm(&pt(-3.0, 2.0)), F(3.0));
    assert_eq!(li.norm(&pt(2.0, -3.0)), F(3.0));
    assert_eq!(li.dist(&pt(0.0, 0.0), &pt(2.0, -3.0)), F(3.0));
}

#[test]
fn ellipse_norm_divides_by_the_half_axes() {
    let e = EllipseSpace::new(F(2.0), F(1.0));
    assert_eq!(e.norm(&pt(2.0, 0.0)), F(1.0));
    assert_eq!(e.norm(&pt(0.0, 1.0)), F(1.0));
    assert!(close(e.norm(&pt(2.0, 1.0)).0, 2f64.sqrt(), 1e-12));
    assert_eq!(e.dist(&pt(5.0, 1.0), &pt(1.0, 1.0)), F(2.0));
    assert_eq!(e.comps().len(), 2);
    assert_eq!(e.comps()[0], F(2.0));
}

#[test]
fn ellipsoid_spaces_of_three_and_more_dimensions() {
    let e = EllipsoidSpace::new(F(1.0), F(2.0), F(4.0));
    let p = Point3d::new([F(0.0), F(0.0), F(8.0)]);
    assert_eq!(e.norm(&p), F(2.0));
    let n = HyperEllipsoidSpaceNd::new(vec![F(1.0), F(2.0), F(4.0), F(8.0)]);
    let q = PointNd::new(vec![F(0.0), F(0.0), F(0.0), F(4.0)]);
    assert_eq!(n.norm(&q), F(0.5));
    assert_eq!(n.comps()[3], F(8.0));
}

#[test]
fn boundary_intersection_lies_on_the_unit_ball() {
    let e = EllipseSpace::new(F(2.0), F(1.0));
    let mut p = pt(4.0, 0.0);
    e.bd_intersect(&mut p);
    assert_eq!(xy(&p), (2.0, 0.0));
    assert_eq!(e.norm(&p), F(1.0));
}

#[test]
fn inner_product_weighs_by_the_squared_half_axes() {
    let e = EllipseSpace::new(F(2.0), F(1.0));
    assert_eq!(e.inner_product(&pt(2.0, 1.0), &pt(4.0, 3.0)), F(5.0));
}

#[test]
fn tangent_touches_where_the_ray_leaves_the_ball() {
    let e = EllipseSpace::new(F(2.0), F(1.0));
    let line = e.tangent(&pt(1.0, 1.0), &pt(3.0, 1.0));
    let c = Hyperplane::<Point2d<F>>::comps(&line);
    assert_eq!(c[0], F(1.0));
    assert_eq!(c[1], F(0.0));
    let nd = HyperEllipsoidSpaceNd::new(vec![F(2.0), F(1.0)]);
    let o = PointNd::new(vec![F(1.0), F(1.0)]);
    let p = PointNd::new(vec![F(3.0), F(1.0)]);
    let plane = nd.tangent(&o, &p);
    let c = Hyperplane::<PointNd<F>>::comps(&plane);
    assert_eq!(c[0], F(1.0));
    assert_eq!(c[1], F(0.0));
    let e3 = EllipsoidSpace::new(F(2.0), F(1.0), F(1.0));
    let o3 = Point3d::new([F(1.0), F(1.0), F(1.0)]);
    let p3 = Point3d::new([F(3.0), F(1.0), F(1.0)]);
    let plane3 = e3.tangent(&o3, &p3);
    let c = Hyperplane::<Point3d<F>>::comps(&plane3);
    assert_eq!(c[0], F(1.0));
    assert_eq!(c[2], F(0.0));
}

#[test]
fn hyperplane_distance_normal_and_translation() {
    let mut line = Line::new([F(0.5), F(0.0)]);
    assert_eq!(Hyperplane::<Point2d<F>>::eucl_dist(&line, &pt(4.0, 7.0)), F(2.0));
    let mut n = pt(9.0, 9.0);
    Hyperplane::<Point2d<F>>::normal(&line, &mut n);
    assert_eq!(xy(&n), (1.0, 0.0));
    Hyperplane::<Point2d<F>>::translate(&mut line, &pt(4.0, 1.0));
    let c = Hyperplane::<Point2d<F>>::comps(&line);
    assert_eq!(c[0], F(0.25));
    assert_eq!(c[1], F(0.0));
}

#[test]
fn planes_of_three_and_more_dimensions() {
    let plane = Plane::new([F(0.0), F(0.0), F(2.0)]);
    let p = Point3d::new([F(1.0), F(1.0), F(1.0)]);
    assert_eq!(Hyperplane::<Point3d<F>>::eucl_dist(&plane, &p), F(0.5));
    let mut h = HyperplaneNd::new(vec![F(1.0), F(1.0), F(0.0), F(0.0)]);
    let q = PointNd::new(vec![F(1.0), F(3.0), F(5.0), F(7.0)]);
    Hyperplane::<PointNd<F>>::set_comp(&mut h, 2, F(8.0));
    Hyperplane::<PointNd<F>>::translate(&mut h, &q);
    let c = Hyperplane::<PointNd<F>>::comps(&h);
    assert_eq!(c[0], F(1.0 / 44.0));
    assert_eq!(c[2], F(8.0 / 44.0));
}

#[test]
fn the_constants_of_the_library_are_what_they_should_be() {
    assert_eq!(half::<F>(), F(0.5));
    assert_eq!(tolerance::<F>(100000), F(0.00001));
    assert_eq!(tolerance::<F>(10000), F(0.0001));
}
