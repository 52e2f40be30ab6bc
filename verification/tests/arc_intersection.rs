//! The intersection tests of minor arcs on the unit sphere. What these tests check is the copy
//! of `Point` and `Arc` written out below, not the library and not the application: the arcs are
//! floating-point geometry, which the verified library leaves to the application, and tests
//! cannot reach the application. The copy follows the application's `Point::from_coordinate`,
//! `Arc::intersection` and the helpers it uses.
use nalgebra::Vector3;

#[derive(Clone, Copy, Debug, PartialEq)]
struct Point {
    n_vector: Vector3<f64>,
}

impl Point {
    fn from_coordinate(lat: f64, lon: f64) -> Point {
        let (lat, lon) = (lat.to_radians(), lon.to_radians());
        Point { n_vector: Vector3::new(lat.cos() * lon.cos(), lat.cos() * lon.sin(), lat.sin()) }
    }

    fn from_n_vector(n_vector: &Vector3<f64>) -> Point {
        Point { n_vector: n_vector.normalize() }
    }

    fn n_vector(&self) -> &Vector3<f64> {
        &self.n_vector
    }

    fn antipode(&self) -> Point {
        Point { n_vector: -self.n_vector }
    }

    fn is_approximately_equal(&self, other: &Point) -> bool {
        (self.n_vector - other.n_vector).magnitude() < 1e-10
    }
}

struct Arc {
    from: Point,
    to: Point,
}

impl Arc {
    fn new(start: &Point, end: &Point) -> Arc {
        Arc { from: *start, to: *end }
    }

    fn normal(&self) -> Vector3<f64> {
        self.from.n_vector().cross(self.to.n_vector()).normalize()
    }

    fn from_normal(&self) -> Vector3<f64> {
        self.normal().cross(self.from.n_vector()).normalize()
    }

    fn to_normal(&self) -> Vector3<f64> {
        self.normal().cross(self.to.n_vector()).normalize()
    }

    fn between_normals(&self, point: &Point) -> bool {
        let a0 = point.n_vector().dot(&self.from_normal());
        let a1 = point.n_vector().dot(&self.to_normal());
        a0 >= 0.0 && a1 <= 0.0
    }

    fn intersection(&self, other: &Arc) -> Option<Point> {
        if self.to.is_approximately_equal(&other.from) || self.to.is_approximately_equal(&other.to) {
            return Some(self.to);
        }
        let candidate = self.normal().cross(&other.normal()).normalize();
        if !candidate.x.is_nan() && !candidate.y.is_nan() && !candidate.z.is_nan() {
            let candidate = Point::from_n_vector(&candidate);
            if self.between_normals(&candidate) && other.between_normals(&candidate) && !candidate.is_approximately_equal(&self.from) {
                return Some(candidate);
            }
            let candidate = candidate.antipode();
            if self.between_normals(&candidate) && other.between_normals(&candidate) && !candidate.is_approximately_equal(&self.from) {
                return Some(candidate);
            }
        }
        None
    }

    fn intersects(&self, other: &Arc) -> bool {
        self.intersection(other).is_some()
    }
}

#[test]
fn test_intersection() {
    let outline_from = Point::from_coordinate(10.9602021, 119.7085977);
    let outline_to = Point::from_coordinate(10.9380527, 119.7102928);
    let outline = Arc::new(&outline_from, &outline_to);

    let ray_from = Point::from_coordinate(10.939165355971703, 119.71220924280686);
    let ray_to = Point::from_coordinate(11.42324706114331, 119.42008985034511);
    let ray = Arc::new(&ray_from, &ray_to);

    let intersect = ray.intersects(&outline);
    assert!(intersect)
}

#[test]
fn test_edge_intersection() {
    let outline = [Point::from_coordinate(-1.0, 0.0), Point::from_coordinate(0.0, 0.0), Point::from_coordinate(1.0, 0.0)];

    let ray = Arc::new(&Point::from_coordinate(0.0, 1.0), &Point::from_coordinate(0.0, -1.0));

    let arc0 = Arc::new(&outline[0], &outline[1]);
    let arc1 = Arc::new(&outline[1], &outline[2]);

    assert!(arc0.intersects(&ray));
    assert!(!arc1.intersects(&ray));
}
