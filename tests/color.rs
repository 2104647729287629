use stamps::{str_to_color, Color, ParseError};

#[test]
fn color_round_trips_through_text() {
    let c = str_to_color("#040506").unwrap();
    assert_eq!(c, Color { r: 4, g: 5, b: 6 });
    assert_eq!(c.to_string(), "#040506");
}

#[test]
fn color_reads_either_case_and_writes_lowercase() {
    let c = Color::try_from_str("#FF1008").unwrap();
    assert_eq!(c, Color { r: 255, g: 16, b: 8 });
    assert_eq!(c.to_string(), "#ff1008");
    assert_eq!(str_to_color("#00ff00").unwrap(), Color { r: 0, g: 255, b: 0 });
}

#[test]
fn color_rejects_malformed_text() {
    assert_eq!(str_to_color("#04050"), Err(ParseError::ColorFormatError));
    assert_eq!(str_to_color("#0405060"), Err(ParseError::ColorFormatError));
    assert_eq!(str_to_color("040506a"), Err(ParseError::ColorFormatError));
    assert_eq!(str_to_color("#04g506"), Err(ParseError::ColorFormatError));
    assert_eq!(str_to_color("#04\u{e9}06"), Err(ParseError::ColorFormatError));
    assert_eq!(str_to_color("#+f+f+f"), Err(ParseError::ColorFormatError));
    assert_eq!(str_to_color(""), Err(ParseError::ColorFormatError));
}
