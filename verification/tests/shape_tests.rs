use mohe_ji::shape_util::{clean_polygon, PPWPolygon, ShapeUtil, TriangulationGeometry};

#[derive(Debug, Clone, Copy, PartialEq)]
struct Pt(f32, f32);

fn cross(ax: f32, ay: f32, bx: f32, by: f32) -> f32 {
    ax * by - ay * bx
}

impl TriangulationGeometry for Pt {
    fn spec_far_apart(a: Self, b: Self) -> bool {
        Self::far_apart(a, b)
    }

    fn spec_coincide(first: Self, last: Self) -> bool {
        Self::coincide(first, last)
    }

    fn spec_clockwise(points: &[Self]) -> bool {
        Self::clockwise(points)
    }

    fn spec_is_convex(a: Self, b: Self, c: Self) -> bool {
        Self::is_convex(a, b, c)
    }

    fn spec_point_in_triangle(p: Self, a: Self, b: Self, c: Self) -> bool {
        Self::point_in_triangle(p, a, b, c)
    }

    fn far_apart(a: Self, b: Self) -> bool {
        let (dx, dy) = (a.0 - b.0, a.1 - b.1);
        dx * dx + dy * dy > 0.0001
    }

    fn coincide(first: Self, last: Self) -> bool {
        let (dx, dy) = (first.0 - last.0, first.1 - last.1);
        dx * dx + dy * dy <= 0.0001
    }

    fn clockwise(points: &[Self]) -> bool {
        let mut area = 0.0;
        for i in 0..points.len() {
            let a = points[i];
            let b = points[(i + 1) % points.len()];
            area += a.0 * b.1 - b.0 * a.1;
        }
        area * 0.5 < 0.0
    }

    fn is_convex(a: Self, b: Self, c: Self) -> bool {
        cross(b.0 - a.0, b.1 - a.1, c.0 - b.0, c.1 - b.1) > 0.00001
    }

    fn point_in_triangle(p: Self, a: Self, b: Self, c: Self) -> bool {
        let c1 = cross(b.0 - a.0, b.1 - a.1, p.0 - a.0, p.1 - a.1);
        let c2 = cross(c.0 - b.0, c.1 - b.1, p.0 - b.0, p.1 - b.1);
        let c3 = cross(a.0 - c.0, a.1 - c.1, p.0 - c.0, p.1 - c.1);
        c1 >= -0.00001 && c2 >= -0.00001 && c3 >= -0.00001
    }
}

#[test]
fn polygon_empty() {
    let p: PPWPolygon<Pt> = PPWPolygon::empty();
    assert!(p.polygon.is_empty());
    assert!(p.segments.is_empty());
}

#[test]
fn clean_polygon_drops_repeats_and_closing_point() {
    let pts = [Pt(0.0, 0.0), Pt(0.0, 0.0), Pt(1.0, 0.0), Pt(1.0, 1.0), Pt(0.0, 0.0)];
    assert_eq!(clean_polygon(&pts), vec![Pt(0.0, 0.0), Pt(1.0, 0.0), Pt(1.0, 1.0)]);
    assert!(clean_polygon::<Pt>(&[]).is_empty());
}

#[test]
fn triangulate_square() {
    let square = [Pt(0.0, 0.0), Pt(1.0, 0.0), Pt(1.0, 1.0), Pt(0.0, 1.0)];
    let r = ShapeUtil::triangulate_polygon(&square);
    assert_eq!(r.vertices, square.to_vec());
    assert_eq!(r.indices.len(), 6);
    assert_eq!(r.indices, vec![3, 0, 1, 1, 2, 3]);
}

#[test]
fn triangulate_clockwise_square() {
    let square = [Pt(0.0, 0.0), Pt(0.0, 1.0), Pt(1.0, 1.0), Pt(1.0, 0.0)];
    let r = ShapeUtil::triangulate_polygon(&square);
    assert_eq!(r.indices.len(), 6);
    for t in r.indices.chunks(3) {
        assert!(t[0] != t[1] && t[1] != t[2] && t[0] != t[2]);
    }
}

#[test]
fn triangulate_concave_shape() {
    let shape = [Pt(0.0, 0.0), Pt(4.0, 0.0), Pt(4.0, 4.0), Pt(2.0, 1.0), Pt(0.0, 4.0)];
    let r = ShapeUtil::triangulate_polygon(&shape);
    assert_eq!(r.indices.len(), 9);
    for v in 0..5 {
        assert!(r.indices.contains(&v));
    }
}

#[test]
fn triangulate_too_few_points() {
    let r = ShapeUtil::triangulate_polygon(&[Pt(0.0, 0.0), Pt(1.0, 0.0), Pt(0.0, 0.0)]);
    assert!(r.vertices.is_empty());
    assert!(r.indices.is_empty());
}

#[test]
fn triangulate_degenerate_falls_back_to_fan() {
    let line = [Pt(0.0, 0.0), Pt(1.0, 0.0), Pt(2.0, 0.0), Pt(3.0, 0.0)];
    let r = ShapeUtil::triangulate_polygon(&line);
    assert_eq!(r.indices, vec![0, 1, 2, 0, 2, 3]);
}

#[test]
fn triangulate_closing_duplicate_leaves_too_few() {
    let r = ShapeUtil::triangulate_polygon(&[Pt(0.0, 0.0), Pt(1.0, 1.0), Pt(0.0, 0.0)]);
    assert!(r.vertices.is_empty());
    assert!(r.indices.is_empty());
}

#[test]
fn clean_polygon_keeps_order_of_far_points() {
    let pts = [Pt(0.0, 0.0), Pt(2.0, 0.0), Pt(2.001, 0.0), Pt(2.0, 2.0), Pt(0.0, 2.0), Pt(0.001, 0.0)];
    assert_eq!(clean_polygon(&pts), vec![Pt(0.0, 0.0), Pt(2.0, 0.0), Pt(2.0, 2.0), Pt(0.0, 2.0)]);
}
