use point_in_polygon::point::{cross_product, Point, COORD_SCALE};
use point_in_polygon::polygon::Polygon;

/// A point given in whole units.
fn pt(x: i64, y: i64) -> Point {
    Point::new(x * COORD_SCALE, y * COORD_SCALE)
}

fn square() -> Vec<Point> {
    vec![pt(0, 0), pt(4, 0), pt(4, 4), pt(0, 4)]
}

#[test]
fn degenerate_polygons_contain_nothing() {
    let queries = [pt(0, 0), pt(2, 2), pt(-1, 5)];
    let empty = Polygon::new(vec![]);
    let single = Polygon::new(vec![pt(1, 1)]);
    let pair = Polygon::new(vec![pt(0, 0), pt(4, 0)]);
    for q in queries {
        assert!(!empty.check_point(q));
        assert!(!single.check_point(q));
        assert!(!pair.check_point(q));
    }
}

#[test]
fn square_contains_interior_point() {
    let poly = Polygon::new(square());
    assert!(poly.check_point(pt(2, 2)));
}

#[test]
fn square_excludes_exterior_point() {
    let poly = Polygon::new(square());
    assert!(!poly.check_point(pt(5, 5)));
}

#[test]
fn point_on_edge_is_inside() {
    let poly = Polygon::new(square());
    assert!(poly.check_point(pt(4, 2)));
}

#[test]
fn reversed_square_agrees() {
    let mut rev = square();
    rev.reverse();
    let poly = Polygon::new(square());
    let poly_rev = Polygon::new(rev);
    for x in -1..6 {
        for y in -1..6 {
            let q = pt(x, y);
            assert_eq!(poly.check_point(q), poly_rev.check_point(q));
        }
    }
}

#[test]
fn reversed_triangle_agrees() {
    let tri = vec![pt(0, 0), pt(6, 0), pt(3, 5)];
    let mut rev = tri.clone();
    rev.reverse();
    let poly = Polygon::new(tri);
    let poly_rev = Polygon::new(rev);
    for x in -2..8 {
        for y in -2..7 {
            let q = pt(x, y);
            assert_eq!(poly.check_point(q), poly_rev.check_point(q));
        }
    }
}

#[test]
fn repeated_query_is_stable() {
    let poly = Polygon::new(square());
    let inside = pt(1, 3);
    let outside = pt(9, 9);
    assert_eq!(poly.check_point(inside), poly.check_point(inside));
    assert_eq!(poly.check_point(outside), poly.check_point(outside));
    assert!(poly.check_point(inside));
    assert!(!poly.check_point(outside));
}

#[test]
fn collinear_polygon_returns_true() {
    // Every cross product is zero, so no contradicting sign is ever found:
    // the tolerance artifact of the sign test.
    let poly = Polygon::new(vec![pt(0, 0), pt(1, 1), pt(2, 2)]);
    assert!(poly.check_point(pt(3, 3)));
    assert!(poly.check_point(pt(-5, -5)));
}

#[test]
fn cross_product_exact_value() {
    // (4,0) - (0,0) crossed with (2,2) - (0,0): 4*2 - 0*2 = 8 square units,
    // in millionths of a unit each way.
    let r = cross_product(pt(0, 0), pt(4, 0), pt(2, 2));
    assert_eq!(r, 8 * (COORD_SCALE as i128) * (COORD_SCALE as i128));
    // Swapping the edge endpoints negates the cross product.
    let r_swapped = cross_product(pt(4, 0), pt(0, 0), pt(2, 2));
    assert_eq!(r_swapped, -r);
}

#[test]
fn vertex_accessors() {
    let poly = Polygon::new(square());
    assert_eq!(poly.vertex_count(), 4);
    assert_eq!(poly.vertex(0), pt(0, 0));
    assert_eq!(poly.vertex(3), pt(0, 4));
}

#[test]
fn well_formedness_checks() {
    assert!(pt(2, 2).is_well_formed());
    assert!(Polygon::new(square()).is_well_formed());
}
