use point_in_polygon::parse::{parse_point, Axis, ParseError};
use point_in_polygon::point::{Point, COORD_SCALE};
use point_in_polygon::polygon::Polygon;

#[test]
fn parses_two_numbers() {
    let p = parse_point(b"3.0 4.0").unwrap();
    assert_eq!(p, Point::new(3 * COORD_SCALE, 4 * COORD_SCALE));
}

#[test]
fn missing_y_coordinate() {
    assert_eq!(
        parse_point(b"3.0"),
        Err(ParseError::MissingCoordinate(Axis::Y))
    );
}

#[test]
fn missing_x_coordinate() {
    assert_eq!(parse_point(b""), Err(ParseError::MissingCoordinate(Axis::X)));
    assert_eq!(
        parse_point(b"   \t"),
        Err(ParseError::MissingCoordinate(Axis::X))
    );
}

#[test]
fn invalid_x_token() {
    assert_eq!(parse_point(b"a b"), Err(ParseError::InvalidNumber(Axis::X)));
}

#[test]
fn invalid_y_token() {
    assert_eq!(parse_point(b"1 b"), Err(ParseError::InvalidNumber(Axis::Y)));
}

#[test]
fn signs_and_bare_dots() {
    assert_eq!(parse_point(b"-3.5 +2").unwrap(), Point::new(-3_500_000, 2_000_000));
    assert_eq!(parse_point(b".5 5.").unwrap(), Point::new(500_000, 5_000_000));
}

#[test]
fn extra_tokens_are_ignored() {
    assert_eq!(
        parse_point(b"1 2 3").unwrap(),
        Point::new(COORD_SCALE, 2 * COORD_SCALE)
    );
}

#[test]
fn leading_whitespace_is_skipped() {
    assert_eq!(
        parse_point(b"  \t1.5\t 2").unwrap(),
        Point::new(1_500_000, 2_000_000)
    );
}

#[test]
fn six_fraction_digits_are_exact() {
    assert_eq!(
        parse_point(b"1.234567 0.000001").unwrap(),
        Point::new(1_234_567, 1)
    );
}

#[test]
fn too_many_fraction_digits() {
    assert_eq!(
        parse_point(b"1.2345678 1"),
        Err(ParseError::InvalidNumber(Axis::X))
    );
}

#[test]
fn exponent_form_is_invalid() {
    assert_eq!(parse_point(b"1e5 1"), Err(ParseError::InvalidNumber(Axis::X)));
}

#[test]
fn second_dot_is_invalid() {
    assert_eq!(
        parse_point(b"1.2.3 0"),
        Err(ParseError::InvalidNumber(Axis::X))
    );
}

#[test]
fn lone_sign_or_dot_is_invalid() {
    assert_eq!(parse_point(b"- 1"), Err(ParseError::InvalidNumber(Axis::X)));
    assert_eq!(parse_point(b". 1"), Err(ParseError::InvalidNumber(Axis::X)));
    assert_eq!(parse_point(b"+. 1"), Err(ParseError::InvalidNumber(Axis::X)));
}

#[test]
fn magnitude_bounds() {
    // One billion units is the largest representable coordinate.
    let p = parse_point(b"1000000000 -1000000000").unwrap();
    assert_eq!(p, Point::new(1_000_000_000_000_000, -1_000_000_000_000_000));
    assert_eq!(
        parse_point(b"1000000000.000001 0"),
        Err(ParseError::InvalidNumber(Axis::X))
    );
    assert_eq!(
        parse_point(b"99999999999999999999 0"),
        Err(ParseError::InvalidNumber(Axis::X))
    );
}

#[test]
fn leading_zeros_are_fine() {
    assert_eq!(
        parse_point(b"007 08").unwrap(),
        Point::new(7 * COORD_SCALE, 8 * COORD_SCALE)
    );
}

#[test]
fn negative_zero_is_zero() {
    assert_eq!(parse_point(b"-0.0 0").unwrap(), Point::new(0, 0));
}

#[test]
fn from_lines_builds_polygon() {
    let lines: Vec<Vec<u8>> = vec![
        b"0 0".to_vec(),
        b"4 0".to_vec(),
        b"4 4".to_vec(),
        b"0 4".to_vec(),
    ];
    let poly = Polygon::from_lines(&lines).unwrap();
    assert_eq!(poly.vertex_count(), 4);
    assert_eq!(poly.vertex(1), Point::new(4 * COORD_SCALE, 0));
    assert!(poly.check_point(Point::new(2 * COORD_SCALE, 2 * COORD_SCALE)));
}

#[test]
fn from_lines_fails_fast() {
    let lines: Vec<Vec<u8>> = vec![b"1 1".to_vec(), b"bad".to_vec(), b"oops".to_vec()];
    match Polygon::from_lines(&lines) {
        Err(e) => assert_eq!(e, ParseError::InvalidNumber(Axis::X)),
        Ok(_) => panic!("expected a parse failure"),
    }
    let lines2: Vec<Vec<u8>> = vec![b"1 1".to_vec(), b"2".to_vec()];
    match Polygon::from_lines(&lines2) {
        Err(e) => assert_eq!(e, ParseError::MissingCoordinate(Axis::Y)),
        Ok(_) => panic!("expected a parse failure"),
    }
}

#[test]
fn from_lines_empty_is_degenerate() {
    let poly = Polygon::from_lines(&vec![]).unwrap();
    assert_eq!(poly.vertex_count(), 0);
    assert!(!poly.check_point(Point::new(0, 0)));
}

#[test]
fn from_text_splits_lines() {
    let poly = Polygon::from_text(b"0 0\n4 0\n4 4\n0 4\n").unwrap();
    assert_eq!(poly.vertex_count(), 4);
    assert!(poly.check_point(Point::new(2 * COORD_SCALE, 2 * COORD_SCALE)));
    assert!(!poly.check_point(Point::new(5 * COORD_SCALE, 5 * COORD_SCALE)));
}

#[test]
fn from_text_handles_crlf() {
    let poly = Polygon::from_text(b"0 0\r\n4 0\r\n4 4\r\n0 4").unwrap();
    assert_eq!(poly.vertex_count(), 4);
    assert_eq!(poly.vertex(2), Point::new(4 * COORD_SCALE, 4 * COORD_SCALE));
}

#[test]
fn from_text_empty_is_degenerate() {
    let poly = Polygon::from_text(b"").unwrap();
    assert_eq!(poly.vertex_count(), 0);
}

#[test]
fn from_text_propagates_first_error() {
    match Polygon::from_text(b"0 0\nbad\n1 1") {
        Err(e) => assert_eq!(e, ParseError::InvalidNumber(Axis::X)),
        Ok(_) => panic!("expected a parse failure"),
    }
    match Polygon::from_text(b"0 0\n\n1 1") {
        Err(e) => assert_eq!(e, ParseError::MissingCoordinate(Axis::X)),
        Ok(_) => panic!("expected a parse failure"),
    }
}
