use lexfront::types::{ParseError, Point, Span, Visibility};

#[test]
fn point_increments() {
    let mut p = Point { row: 2, col: 5 };
    p.increment_col();
    assert_eq!(p.as_tuple(), (2, 6));
    p.increment_row();
    assert_eq!(p.as_tuple(), (3, 0));
}

#[test]
fn span_join_covers_both() {
    let a = Span { name: "f".to_string(), start: Point { row: 0, col: 4 }, stop: Point { row: 0, col: 7 } };
    let b = Span { name: "f".to_string(), start: Point { row: 0, col: 1 }, stop: Point { row: 0, col: 2 } };
    let j = a.join(&b);
    assert_eq!(j.start.as_tuple(), (0, 1));
    assert_eq!(j.stop.as_tuple(), (0, 7));
    let k = b.join(&a);
    assert_eq!(k.start.as_tuple(), (0, 1));
    assert_eq!(k.stop.as_tuple(), (0, 7));
}

#[test]
fn span_join_across_rows() {
    let a = Span { name: "f".to_string(), start: Point { row: 1, col: 0 }, stop: Point { row: 2, col: 3 } };
    let b = Span { name: "f".to_string(), start: Point { row: 0, col: 9 }, stop: Point { row: 1, col: 1 } };
    let j = a.join(&b);
    assert_eq!(j.start.as_tuple(), (0, 9));
    assert_eq!(j.stop.as_tuple(), (2, 3));
}

#[test]
fn visibility_public() {
    assert!(Visibility::Public.is_public());
    assert!(!Visibility::Private.is_public());
}

#[test]
fn parse_error_custom() {
    match ParseError::custom("oops") {
        ParseError::Custom(s) => assert_eq!(s, "oops"),
        ParseError::EOF => panic!("wrong variant"),
    }
}
