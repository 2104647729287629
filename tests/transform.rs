use stamps::{Decimal, ParseError, Transform};

fn d(s: &str) -> Decimal {
    Decimal::parse(s).unwrap()
}

#[test]
fn transforms_of_the_sample_document_decode_to_their_pivot() {
    let a = "scale(2) translate(64, 64) rotate(8) translate(-64, -64)";
    let b = "translate(290, 80) translate(64, 64) rotate(220) translate(-64, -64)";
    let ta = Transform::from_str(a).unwrap();
    let tb = Transform::from_str(b).unwrap();
    assert_eq!(ta, Transform { scale: d("2"), tx: d("0"), ty: d("0"), rotate: d("8"), midx: d("64"), midy: d("64") });
    assert_eq!(tb, Transform { scale: d("1"), tx: d("290"), ty: d("80"), rotate: d("220"), midx: d("64"), midy: d("64") });
    assert_eq!(ta.to_string(), a);
    assert_eq!(tb.to_string(), b);
}

#[test]
fn new_transform_is_centered_identity() {
    let t = Transform::new(128, 64);
    assert_eq!(t.midx, d("64"));
    assert_eq!(t.midy, d("32"));
    assert_eq!(t.to_string(), "translate(64, 32) translate(-64, -32)");
    let odd = Transform::new(5, 0);
    assert_eq!(odd.midx, d("2.5"));
    assert_eq!(odd.to_string(), "translate(2.5, 0) translate(-2.5, 0)");
    assert_eq!(Transform::default(), Transform::new(64, 64));
}

#[test]
fn mutated_transforms_round_trip() {
    let mut t = Transform::new(128, 128);
    t.scale = d("0.5");
    t.rotate = d("-37.25");
    t.tx = d("-3");
    t.ty = d("12.125");
    assert_eq!(t.to_string(), "scale(0.5) translate(-3, 12.125) translate(64, 64) rotate(-37.25) translate(-64, -64)");
    assert_eq!(Transform::from_str(&t.to_string()).unwrap(), t);
    let mut u = Transform::new(0, 0);
    assert_eq!(u.to_string(), "");
    assert_eq!(Transform::from_str("").unwrap(), u);
    u.tx = d("7");
    assert_eq!(u.to_string(), "translate(7, 0)");
    assert_eq!(Transform::from_str(&u.to_string()).unwrap(), u);
    u.rotate = d("90");
    assert_eq!(Transform::from_str(&u.to_string()).unwrap(), u);
}

#[test]
fn transform_numbers_read_as_a_float_parser_does() {
    let t = Transform::from_str("scale(2.0) translate(+64, 64.00) rotate(8e0) translate(-64, -6.4e1)").unwrap();
    assert_eq!(t, Transform::from_str("scale(2) translate(64, 64) rotate(8) translate(-64, -64)").unwrap());
    assert_eq!(t.to_string(), "scale(2) translate(64, 64) rotate(8) translate(-64, -64)");
}

#[test]
fn transform_text_allows_free_white_space() {
    let t = Transform::from_str("  translate( 290,80)translate(64,  64)   rotate( 220) translate(-64,-64)  ").unwrap();
    assert_eq!(t, Transform::from_str("translate(290, 80) translate(64, 64) rotate(220) translate(-64, -64)").unwrap());
    let u = Transform::from_str("translate(64,64)").unwrap();
    assert_eq!(u.tx, d("64"));
    assert_eq!(u.ty, d("64"));
    assert_eq!(Transform::from_str("  "), Ok(Transform::new(0, 0)));
    assert_eq!(Transform::from_str("rotate(8 )"), Err(ParseError::NumericParseError));
}

#[test]
fn large_translations_round_trip() {
    let mut t = Transform::new(64, 64);
    t.tx = d("1e25");
    t.ty = d("-2.5e-7");
    let text = t.to_string();
    assert_eq!(text, "translate(10000000000000000000000000, -0.00000025) translate(32, 32) translate(-32, -32)");
    assert_eq!(Transform::from_str(&text).unwrap(), t);
}

#[test]
fn fold_back_takes_a_cancelling_pair_as_pivot() {
    let t = Transform::from_str("translate(10, 20) rotate(45) translate(-10, -20)").unwrap();
    assert_eq!(t.midx, d("10"));
    assert_eq!(t.midy, d("20"));
    assert_eq!(t.tx, d("0"));
    assert_eq!(t.ty, d("0"));
}

#[test]
fn transform_errors_name_their_cause() {
    assert_eq!(Transform::from_str("skew(3)"), Err(ParseError::TransformGrammarMismatch));
    assert_eq!(Transform::from_str("rotate(1) rotate(2)"), Err(ParseError::TransformGrammarMismatch));
    assert_eq!(Transform::from_str("scale(2a)"), Err(ParseError::NumericParseError));
    assert_eq!(
        Transform::from_str("translate(1, 2) translate(3, 4) translate(-5, -6)"),
        Err(ParseError::TransformConsistencyError)
    );
}
