use stamps::{pack_polygon_points, unpack_polygon_points, Decimal, ParseError};

fn pt(x: i64, y: i64) -> (Decimal, Decimal) {
    (Decimal::from_int(x), Decimal::from_int(y))
}

#[test]
fn test_parse_polygon_points() {
    let st = "1 2,3 4, 5 6,7 8";
    let parsed = unpack_polygon_points(st).unwrap();
    assert_eq!(&parsed, &[pt(1, 2), pt(3, 4), pt(5, 6), pt(7, 8)]);
}

#[test]
fn test_parse_bad_polygon_points() {
    let st = "1 2 3,3 4, 5 6,7 8";
    let parsed = unpack_polygon_points(st);
    if let Ok(_) = parsed {
        panic!("Need to have an error here")
    }
    let st2 = "1 2a,3 4, 5 6,7 8";
    let parsed2 = unpack_polygon_points(st2);
    if let Ok(_) = parsed2 {
        panic!("Need to have an error here")
    }
}

#[test]
fn point_list_errors_name_their_cause() {
    assert_eq!(unpack_polygon_points("1 2 3,3 4"), Err(ParseError::PolygonPointCountError));
    assert_eq!(unpack_polygon_points("1,3 4"), Err(ParseError::PolygonPointCountError));
    assert_eq!(unpack_polygon_points(""), Err(ParseError::PolygonPointCountError));
    assert_eq!(unpack_polygon_points("1 2a,3 4"), Err(ParseError::NumericParseError));
}

#[test]
fn test_pack_polygon_points() {
    let rendered = pack_polygon_points(&vec![pt(1, 2), pt(3, 4), pt(5, 6), pt(7, 8)]);
    let st = "1 2,3 4,5 6,7 8";
    assert_eq!(rendered, st.to_string())
}

#[test]
fn point_list_round_trips_with_fractions_and_signs() {
    let pts = vec![
        (Decimal::parse("1").unwrap(), Decimal::parse("-1").unwrap()),
        (Decimal::parse("4").unwrap(), Decimal::parse("4.25").unwrap()),
    ];
    let text = pack_polygon_points(&pts);
    assert_eq!(text, "1 -1,4 4.25");
    assert_eq!(unpack_polygon_points(&text).unwrap(), pts);
}

#[test]
fn point_lists_read_numbers_as_a_float_parser_does() {
    let parsed = unpack_polygon_points("1 2.50,+1 007, 1e3 -2.5E-1,.5 3.").unwrap();
    assert_eq!(
        parsed,
        vec![
            (Decimal::from_int(1), Decimal::parse("2.5").unwrap()),
            pt(1, 7),
            (Decimal::from_int(1000), Decimal::parse("-0.25").unwrap()),
            (Decimal::parse("0.5").unwrap(), Decimal::from_int(3)),
        ]
    );
    assert_eq!(pack_polygon_points(&parsed), "1 2.5,1 7,1000 -0.25,0.5 3");
    assert_eq!(unpack_polygon_points("-0 0.000"), Ok(vec![pt(0, 0)]));
    assert_eq!(unpack_polygon_points("1 inf"), Err(ParseError::NumericParseError));
    assert_eq!(unpack_polygon_points("1 ."), Err(ParseError::NumericParseError));
    assert_eq!(unpack_polygon_points("1 2e"), Err(ParseError::NumericParseError));
}

#[test]
fn decimals_read_as_a_float_parser_does_and_print_canonically() {
    assert_eq!(Decimal::parse("4.25").unwrap().to_string(), "4.25");
    assert_eq!(Decimal::parse("0.05").unwrap().to_string(), "0.05");
    assert_eq!(Decimal::parse("-64").unwrap(), Decimal::from_int(-64));
    assert_eq!(Decimal::parse("4.50").unwrap().to_string(), "4.5");
    assert_eq!(Decimal::parse("-0").unwrap(), Decimal::from_int(0));
    assert_eq!(Decimal::parse("007").unwrap(), Decimal::from_int(7));
    assert_eq!(Decimal::parse("1e3").unwrap(), Decimal::from_int(1000));
    assert_eq!(Decimal::parse(""), None);
    assert_eq!(Decimal::parse("NaN"), None);
    assert_eq!(Decimal::parse("inf"), None);
    assert_eq!(Decimal::parse("1e401"), None);
}

#[test]
fn large_and_long_numbers_read() {
    assert_eq!(Decimal::parse("1e20").unwrap().to_string(), "100000000000000000000");
    assert_eq!(Decimal::parse("-1.5e30").unwrap().to_string(), "-1500000000000000000000000000000");
    assert_eq!(Decimal::parse("100000000000000000000").unwrap(), Decimal::parse("1e20").unwrap());
    let long = Decimal::parse("123456789012345678901").unwrap();
    assert_eq!(long.to_string(), "123456789012345678900");
    assert_eq!(Decimal::parse("0.1234567890123456789012").unwrap().to_string(), "0.1234567890123456789");
    assert_eq!(Decimal::parse("1e-300").unwrap().to_string().len(), 302);
    let pts = unpack_polygon_points("1 1e20").unwrap();
    assert_eq!(pts, vec![(Decimal::from_int(1), Decimal::parse("1e20").unwrap())]);
    assert_eq!(pack_polygon_points(&pts), "1 100000000000000000000");
    assert_eq!(unpack_polygon_points(&pack_polygon_points(&pts)).unwrap(), pts);
}
