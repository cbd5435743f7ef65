use delaunator::elem::{HalfEdge, Vertex};
use delaunator::traits::{ApproxEq, Scalar};
use delaunator::util::{next_halfedge, prev_halfedge, OptionIndex};
use delaunator::{Point, Triangulation};

/// Double-precision arithmetic for the library's `Scalar` trait.
#[derive(Clone, Copy, Debug, PartialEq)]
struct F64(f64);

impl Scalar for F64 {
    fn spec_add(self, rhs: Self) -> Self {
        Scalar::add(self, rhs)
    }
    fn spec_sub(self, rhs: Self) -> Self {
        Scalar::sub(self, rhs)
    }
    fn spec_mul(self, rhs: Self) -> Self {
        Scalar::mul(self, rhs)
    }
    fn spec_div(self, rhs: Self) -> Self {
        Scalar::div(self, rhs)
    }
    fn spec_neg(self) -> Self {
        Scalar::neg(self)
    }
    fn spec_lt(self, rhs: Self) -> bool {
        Scalar::lt(self, rhs)
    }
    fn spec_abs(self) -> Self {
        Scalar::abs(self)
    }
    fn spec_min(self, rhs: Self) -> Self {
        Scalar::min(self, rhs)
    }
    fn spec_max(self, rhs: Self) -> Self {
        Scalar::max(self, rhs)
    }
    fn spec_infinity() -> Self {
        <Self as Scalar>::infinity()
    }
    fn spec_from_usize(n: usize) -> Self {
        <Self as Scalar>::from_usize(n)
    }
    fn spec_to_usize(self) -> usize {
        Scalar::to_usize(self)
    }
    fn add(self, rhs: Self) -> Self {
        F64(self.0 + rhs.0)
    }
    fn sub(self, rhs: Self) -> Self {
        F64(self.0 - rhs.0)
    }
    fn mul(self, rhs: Self) -> Self {
        F64(self.0 * rhs.0)
    }
    fn div(self, rhs: Self) -> Self {
        F64(self.0 / rhs.0)
    }
    fn neg(self) -> Self {
        F64(-self.0)
    }
    fn lt(self, rhs: Self) -> bool {
        self.0 < rhs.0
    }
    fn abs(self) -> Self {
        F64(self.0.abs())
    }
    fn min(self, other: Self) -> Self {
        F64(self.0.min(other.0))
    }
    fn max(self, other: Self) -> Self {
        F64(self.0.max(other.0))
    }
    fn infinity() -> Self {
        F64(f64::INFINITY)
    }
    fn from_usize(n: usize) -> Self {
        F64(n as f64)
    }
    fn to_usize(self) -> usize {
        self.0 as usize
    }
}

impl ApproxEq for F64 {
    fn spec_approx_eq(self, other: Self) -> bool {
        self.approx_eq(other)
    }
    fn approx_eq(self, other: Self) -> bool {
        (self.0 - other.0).abs() <= 2.0 * f64::EPSILON
    }
}

fn pt(x: f64, y: f64) -> Point<F64> {
    Point::new(F64(x), F64(y))
}

fn pts(coords: &[(f64, f64)]) -> Vec<Point<F64>> {
    coords.iter().map(|&(x, y)| pt(x, y)).collect()
}

/// A deterministic pseudo-random sequence in [0, 1).
struct Lcg(u64);

impl Lcg {
    fn next_f64(&mut self) -> f64 {
        self.0 = self.0.wrapping_mul(6364136223846793005).wrapping_add(1442695040888963407);
        (self.0 >> 11) as f64 / (1u64 << 53) as f64
    }
}

fn random_points(n: usize, seed: u64) -> Vec<Point<F64>> {
    let mut rng = Lcg(seed);
    (0..n).map(|_| pt(rng.next_f64(), rng.next_f64())).collect()
}

// Kahan and Babuska summation, Neumaier variant; accumulates less FP error
fn sum(x: &[f64]) -> f64 {
    let mut sum = x[0];
    let mut err = 0.0;
    for &k in x.iter().skip(1) {
        let m = sum + k;
        err += if sum.abs() >= k.abs() { sum - m + k } else { k - m + sum };
        sum = m;
    }
    sum + err
}

fn xy(points: &[Point<F64>], i: usize) -> (f64, f64) {
    (points[i].x.0, points[i].y.0)
}

/// Checks the invariants of a triangulation of `points`, and returns the
/// share of interior edges that pass the in-circle test.
fn validate(points: &[Point<F64>]) -> f64 {
    let t: Triangulation<usize> =
        Triangulation::new(points).expect("No triangulation exists for this input");
    let n = points.len();
    let triangles = &t.triangles;
    let halfedges = &t.halfedges;
    let hull = &t.hull;

    // sizes
    assert_eq!(triangles.len() % 3, 0);
    assert_eq!(triangles.len(), halfedges.len());
    assert!(t.len() <= 2 * n - 5);

    // indices
    assert!(triangles.iter().all(|&i| i < n));
    assert!(hull.iter().all(|&i| i < n));
    let mut seen = vec![false; n];
    for &h in hull.iter() {
        assert!(!seen[h], "hull repeats a point");
        seen[h] = true;
    }

    // validate halfedges
    for (i, &h) in halfedges.iter().enumerate() {
        if let Some(h) = h.get() {
            assert_eq!(halfedges[h].get(), Some(i), "Invalid halfedge connection");
        }
    }

    // orientation
    for k in 0..t.len() {
        let (ax, ay) = xy(points, triangles[3 * k]);
        let (bx, by) = xy(points, triangles[3 * k + 1]);
        let (cx, cy) = xy(points, triangles[3 * k + 2]);
        assert!((bx - ax) * (cy - by) - (by - ay) * (cx - bx) > 0.0, "triangle not counter-clockwise");
    }

    // hull closure: the edges without twin run around the hull
    let boundary: Vec<usize> = (0..halfedges.len()).filter(|&e| halfedges[e].is_none()).collect();
    assert_eq!(boundary.len(), hull.len());
    for j in 0..hull.len() {
        let a = hull[j];
        let b = hull[(j + 1) % hull.len()];
        assert!(boundary
            .iter()
            .any(|&e| triangles[e] == a && triangles[next_halfedge(e)] == b));
    }

    // area closure
    let hull_area = {
        let mut hull_areas = Vec::new();
        let mut i = 0;
        let mut j = hull.len() - 1;
        while i < hull.len() {
            let (x0, y0) = xy(points, hull[j]);
            let (x, y) = xy(points, hull[i]);
            hull_areas.push((x + x0) * (y - y0));
            j = i;
            i += 1;
        }
        sum(&hull_areas)
    };
    let triangles_area = {
        let mut triangle_areas = Vec::new();
        let mut i = 0;
        while i < triangles.len() {
            let (ax, ay) = xy(points, triangles[i]);
            let (bx, by) = xy(points, triangles[i + 1]);
            let (cx, cy) = xy(points, triangles[i + 2]);
            triangle_areas.push(((by - ay) * (cx - bx) - (bx - ax) * (cy - by)).abs());
            i += 3;
        }
        sum(&triangle_areas)
    };
    let err = ((hull_area - triangles_area) / hull_area).abs();
    assert!(err <= f64::EPSILON * 2.0, "Triangulation is broken: {} error", err);

    // Delaunay condition on interior edges
    let mut interior = 0usize;
    let mut legal = 0usize;
    for e in 0..halfedges.len() {
        if let Some(f) = halfedges[e].get() {
            interior += 1;
            let p1 = points[triangles[prev_halfedge(f)]];
            let a = points[triangles[e]];
            let b = points[triangles[next_halfedge(e)]];
            let c = points[triangles[prev_halfedge(e)]];
            if !p1.is_in_circle(a, b, c) {
                legal += 1;
            }
        }
    }
    if interior == 0 {
        1.0
    } else {
        legal as f64 / interior as f64
    }
}

#[test]
fn test_distance_squared() {
    let a = pt(1.0, 0.0);
    let b = pt(0.0, 1.0);
    assert!(a.distance_squared(b).approx_eq(F64(2.0)));

    let a = pt(2.0, 0.0);
    let b = pt(0.0, -3.0);
    assert!(a.distance_squared(b).approx_eq(F64(13.0)));
}

#[test]
fn test_is_clockwise() {
    let a = pt(0.0, 0.0);
    let b = pt(1.0, 0.0);
    let c = pt(1.0, 1.0);

    // Counter-clockwise
    assert!(!a.is_clockwise(b, c));
    assert!(!b.is_clockwise(c, a));
    assert!(!c.is_clockwise(a, b));

    // Clockwise
    assert!(a.is_clockwise(c, b));
    assert!(c.is_clockwise(b, a));
    assert!(b.is_clockwise(a, c));

    // Co-linear points
    let d = pt(2.0, 2.0);
    assert!(!a.is_clockwise(c, d));
}

#[test]
fn test_circumcenter() {
    // unit circle centered at (0.5, 0.5)
    let a = pt(-0.5, 0.5);
    let b = pt(1.5, 0.5);
    let c = pt(0.5, 1.5);
    assert!(a.circumcenter(b, c).nearly_equals(pt(0.5, 0.5)));
    assert!(a.circumcenter(c, b).nearly_equals(pt(0.5, 0.5)));
    assert!(b.circumcenter(a, c).nearly_equals(pt(0.5, 0.5)));

    // radius 2.0 circle centered at (1.0, 1.0)
    let a = pt(-1.0, 1.0);
    let b = pt(3.0, 1.0);
    let c = pt(1.0, 3.0);
    assert!(a.circumcenter(b, c).nearly_equals(pt(1.0, 1.0)));
}

#[test]
fn test_circumradius_squared() {
    // unit circle centered at (0.5, 0.5)
    let a = pt(-0.5, 0.5);
    let b = pt(1.5, 0.5);
    let c = pt(0.5, 1.5);
    assert!(a.circumradius_squared(b, c).approx_eq(F64(1.0)));
    assert!(a.circumradius_squared(c, b).approx_eq(F64(1.0)));
    assert!(b.circumradius_squared(a, c).approx_eq(F64(1.0)));

    // radius 2.0 circle centered at (1.0, 1.0)
    let a = pt(-1.0, 1.0);
    let b = pt(3.0, 1.0);
    let c = pt(1.0, 3.0);
    assert!(a.circumradius_squared(b, c).approx_eq(F64(4.0)));
}

#[test]
fn test_in_circle() {
    let a = pt(-0.5, 0.5);
    let b = pt(1.5, 0.5);
    let c = pt(0.5, 1.5);

    assert_eq!(a.is_in_circle(a, b, c), false);
    assert_eq!(b.is_in_circle(a, b, c), false);
    assert_eq!(c.is_in_circle(a, b, c), false);

    let p = pt(0.5, -0.5);
    assert_eq!(p.is_in_circle(a, b, c), false);

    let p = pt(1.0, -1.0);
    assert_eq!(p.is_in_circle(a, b, c), false);

    let p = pt(0.5, 0.5);
    assert_eq!(p.is_in_circle(a, b, c), true);

    let p = pt(0.0, 0.0);
    assert_eq!(p.is_in_circle(a, b, c), true);
}

fn vertex_edges(vertex: Vertex<'_, usize>) -> Vec<usize> {
    let mut edges = Vec::new();
    let mut it = vertex.edges();
    while let Some(e) = it.next() {
        edges.push(e.id());
    }
    edges
}

fn find_vertex<'a>(t: &'a Triangulation<usize>, triangle: usize, id: usize) -> Vertex<'a, usize> {
    let triangle = t.get_triangle(triangle).unwrap();
    let mut it = triangle.vertices();
    while let Some(v) = it.next() {
        if v.id() == id {
            return v;
        }
    }
    panic!("vertex not found");
}

#[test]
fn test_vertex_edge_iter() {
    let points = pts(&[
        (0.0, 0.0),  //        /|\ 2
        (1.0, 0.0),  //     3 /_|_\ 1
        (0.0, 1.0),  //       \0| /
        (-1.0, 0.0), //        \|/ 4
        (0.0, -1.0),
    ]);

    let triangulation = Triangulation::<usize>::new(&points).unwrap();
    assert_eq!(triangulation.triangles, vec![1, 2, 0, 2, 3, 0, 3, 4, 0, 0, 4, 1]);

    // Never hits the convex hull
    let vertex = find_vertex(&triangulation, 0, 0);
    assert_eq!(vertex_edges(vertex), vec![2, 5, 8, 9]);

    // Hits the convex hull at the end of the iteration
    let vertex = find_vertex(&triangulation, 0, 1);
    assert_eq!(vertex_edges(vertex), vec![0, 11]);

    // Hits the convex hull in the middle of the iteration
    let vertex = find_vertex(&triangulation, 0, 2);
    assert_eq!(vertex_edges(vertex), vec![1, 3]);
}

#[test]
fn bad_input() {
    let mut points = vec![pt(0., 0.)];
    assert!(
        Triangulation::<usize>::new(&points).is_none(),
        "Expected empty triangulation (1 point)"
    );

    points.push(pt(1., 0.));
    assert!(
        Triangulation::<usize>::new(&points).is_none(),
        "Expected empty triangulation (2 point)"
    );

    points.push(pt(2., 0.));
    assert!(
        Triangulation::<usize>::new(&points).is_none(),
        "Expected empty triangulation (collinear points)"
    );

    points.push(pt(1., 1.));
    validate(&points);
}

/// The triangles as sorted vertex triples, in sorted order.
fn triangle_sets(triangles: &[usize]) -> Vec<[usize; 3]> {
    let mut sets: Vec<[usize; 3]> = triangles
        .chunks(3)
        .map(|t| {
            let mut v = [t[0], t[1], t[2]];
            v.sort();
            v
        })
        .collect();
    sets.sort();
    sets
}

/// Whether `a` is `b` rotated.
fn same_cycle(a: &[usize], b: &[usize]) -> bool {
    a.len() == b.len() && (0..b.len()).any(|r| (0..b.len()).all(|j| a[j] == b[(j + r) % b.len()]))
}

#[test]
fn square_scenario() {
    let points = pts(&[(0.0, 0.0), (1.0, 0.0), (1.0, 1.0), (0.0, 1.0)]);
    let t = Triangulation::<usize>::new(&points).unwrap();
    // the triangles 0-2-1 and 0-3-2, each counter-clockwise
    assert_eq!(triangle_sets(&t.triangles), triangle_sets(&[0, 2, 1, 0, 3, 2]));
    assert_eq!(t.triangles, vec![0, 1, 2, 2, 3, 0]);
    // the hull 0, 3, 2, 1 taken counter-clockwise
    assert!(same_cycle(&t.hull, &[0, 1, 2, 3]));
    validate(&points);
}

#[test]
fn diamond_scenario() {
    let points = pts(&[(0.0, 0.0), (1.0, 0.0), (0.0, 1.0), (-1.0, 0.0), (0.0, -1.0)]);
    let t = Triangulation::<usize>::new(&points).unwrap();
    assert_eq!(t.triangles, vec![1, 2, 0, 2, 3, 0, 3, 4, 0, 0, 4, 1]);
    assert!(same_cycle(&t.hull, &[2, 3, 4, 1]));
    validate(&points);
}

#[test]
fn collinear_base_scenario() {
    let points = pts(&[(0.0, 0.0), (1.0, 0.0), (2.0, 0.0), (1.0, 1.0)]);
    let t = Triangulation::<usize>::new(&points).unwrap();
    assert_eq!(t.hull.len(), 4);
    assert_eq!(t.len(), 2);
    assert!(!t.is_empty());
}

#[test]
fn too_few_points() {
    assert!(Triangulation::<usize>::new(&pts(&[(0.0, 0.0)])).is_none());
    assert!(Triangulation::<usize>::new(&pts(&[(0.0, 0.0), (1.0, 0.0)])).is_none());
    assert!(Triangulation::<usize>::new(&pts(&[(0.0, 0.0), (1.0, 0.0), (2.0, 0.0)])).is_none());
    assert!(Triangulation::<usize>::new(&pts(&[(1.0, 1.0), (1.0, 1.0), (1.0, 1.0)])).is_none());
}

#[test]
fn random_hundred() {
    let share = validate(&random_points(100, 7));
    assert!(share >= 0.999);
}

#[test]
fn random_ten_thousand() {
    let share = validate(&random_points(10_000, 11));
    assert!(share >= 0.999);
}

#[test]
fn scaled_inputs() {
    let base = random_points(200, 3);
    for &scale in &[1e-9, 1e-2, 1.0, 100.0, 1e9] {
        let scaled: Vec<Point<F64>> =
            base.iter().map(|p| pt(p.x.0 * scale, p.y.0 * scale)).collect();
        validate(&scaled);
    }
}

#[test]
fn near_duplicates_are_skipped() {
    let mut points = random_points(50, 5);
    let p = points[10];
    points.push(p);
    points.push(pt(p.x.0 + 1e-17, p.y.0));
    validate(&points);
}

#[test]
fn deterministic_output() {
    let points = random_points(500, 13);
    let a = Triangulation::<usize>::new(&points).unwrap();
    let b = Triangulation::<usize>::new(&points).unwrap();
    assert_eq!(a.triangles, b.triangles);
    assert_eq!(a.halfedges, b.halfedges);
    assert_eq!(a.hull, b.hull);
}

#[test]
fn narrow_index_types() {
    let points = random_points(300, 17);
    let wide = Triangulation::<usize>::new(&points).unwrap();
    let small = Triangulation::<u16>::new(&points).unwrap();
    let mid = Triangulation::<u32>::new(&points).unwrap();
    let small_tris: Vec<usize> = small.triangles.iter().map(|&i| i as usize).collect();
    let mid_tris: Vec<usize> = mid.triangles.iter().map(|&i| i as usize).collect();
    assert_eq!(small_tris, wide.triangles);
    assert_eq!(mid_tris, wide.triangles);
}

#[test]
fn halfedge_round_trips() {
    let points = random_points(60, 19);
    let t = Triangulation::<usize>::new(&points).unwrap();
    for e in 0..t.halfedges.len() {
        assert_eq!(next_halfedge(next_halfedge(next_halfedge(e))), e);
        assert_eq!(prev_halfedge(next_halfedge(e)), e);
        let h: HalfEdge<'_, usize> = t.get_half_edge(e).unwrap();
        assert_eq!(h.left().id(), e / 3);
        assert_eq!(h.next().prev().id(), e);
        assert_eq!(h.start().id(), t.triangles[e]);
        assert_eq!(h.end().id(), t.triangles[next_halfedge(e)]);
        match h.twin() {
            Some(tw) => {
                assert_eq!(tw.twin().unwrap().id(), e);
                assert_eq!(h.right().unwrap().id(), tw.id() / 3);
            }
            None => assert!(h.right().is_none()),
        }
    }
    for k in 0..t.len() {
        let tri = t.get_triangle(k).unwrap();
        assert_eq!(tri.id(), k);
        assert_eq!(tri.ab().id(), 3 * k);
        assert_eq!(tri.bc().id(), 3 * k + 1);
        assert_eq!(tri.ca().id(), 3 * k + 2);
        assert_eq!(tri.a().id(), t.triangles[3 * k]);
        assert_eq!(tri.b().id(), t.triangles[3 * k + 1]);
        assert_eq!(tri.c().id(), t.triangles[3 * k + 2]);
        assert_eq!(tri.edges().len(), 3);
    }
    assert!(t.get_triangle(t.len()).is_none());
    assert!(t.get_half_edge(t.halfedges.len()).is_none());
}

#[test]
fn iterators_cover_the_triangulation() {
    let points = random_points(40, 23);
    let t = Triangulation::<usize>::new(&points).unwrap();
    let mut tris = t.triangles();
    assert_eq!(tris.len(), t.len());
    let mut count = 0;
    while let Some(tri) = tris.next() {
        assert_eq!(tri.id(), count);
        count += 1;
    }
    assert_eq!(count, t.len());
    let mut back = t.triangles();
    assert_eq!(back.next_back().unwrap().id(), t.len() - 1);

    let mut edges = t.half_edges();
    assert_eq!(edges.len(), t.halfedges.len());
    assert_eq!(edges.next_back().unwrap().id(), t.halfedges.len() - 1);
    assert_eq!(edges.next().unwrap().id(), 0);

    let mut vertices = t.vertices();
    let mut id = 0;
    while let Some(v) = vertices.next() {
        assert_eq!(v.id(), id);
        id += 1;
    }
    assert_eq!(id, points.len());
    for i in 0..points.len() {
        let v = t.get_vertex(i).unwrap();
        assert_eq!(v.id(), i);
        let mut around = v.triangles();
        while let Some(tri) = around.next() {
            let ids = [tri.a().id(), tri.b().id(), tri.c().id()];
            assert!(ids.contains(&i));
        }
    }
    assert!(t.get_vertex(points.len()).is_none());
}

#[test]
fn option_index() {
    let none = OptionIndex::<u16>::none();
    assert!(none.is_none());
    assert_eq!(none.get(), None);
    assert!(OptionIndex::<u16>::new(u16::MAX).is_none());
    let some = OptionIndex::<u16>::some(7);
    assert!(some.is_some());
    assert_eq!(some.get(), Some(7));
    assert_eq!(some.unwrap(), 7);
    assert_eq!(some.expect("present"), 7);
    assert_eq!(OptionIndex::<u32>::new(5).unwrap().get(), Some(5));
    assert_eq!(OptionIndex::<usize>::from_option(Some(3)).get(), Some(3));
    assert_eq!(OptionIndex::<usize>::from_option(None).to_option(), None);
}

#[test]
fn point_helpers() {
    let a = pt(3.0, 4.0);
    assert_eq!(a.length_squared(), F64(25.0));
    assert_eq!(a.perp(), pt(-4.0, 3.0));
    assert_eq!(a.perp_dot(pt(1.0, 2.0)), F64(2.0));
    assert_eq!(a.add(pt(1.0, 1.0)), pt(4.0, 5.0));
    assert_eq!(a.sub(pt(1.0, 1.0)), pt(2.0, 3.0));
    assert_eq!(a.mul(F64(2.0)), pt(6.0, 8.0));
}

#[test]
fn get_triangle_on_partial_arrays() {
    let t = Triangulation::<usize> {
        vertices: Vec::new(),
        triangles: vec![0, 1, 2, 0],
        halfedges: vec![OptionIndex::none(); 4],
        hull: Vec::new(),
    };
    assert!(t.get_triangle(0).is_some());
    assert_eq!(t.get_triangle(1).unwrap().id(), 1);
    assert!(t.get_triangle(2).is_none());
    assert!(t.get_triangle(usize::MAX).is_none());
}
