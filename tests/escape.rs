use stamps::attr_escape;

#[test]
fn test_attr_escape() {
    let mut scratch = String::new();
    assert_eq!("HELLOTE", attr_escape(&"HELLOTE".to_string(), &mut scratch));
    assert_eq!("HEL&lt;LOTE", attr_escape(&"HEL<LOTE".to_string(), &mut scratch));
    assert_eq!("HEL&lt;LOTE&gt;", attr_escape(&"HEL<LOTE>".to_string(), &mut scratch));
    assert_eq!("HEL&lt;LOTE&amp;", attr_escape(&"HEL<LOTE&".to_string(), &mut scratch));
    assert_eq!("HEL&quot;LOTE&apos;", attr_escape(&"HEL\"LOTE'".to_string(), &mut scratch));
    assert_eq!("H\u{0026bE}EL&quot;LOTE&apos;",
               attr_escape(&"H\u{0026bE}EL\"LOTE'".to_string(), &mut scratch));
}

#[test]
fn escape_leaves_plain_text_and_empty_text_alone() {
    let mut scratch = String::new();
    assert_eq!("", attr_escape(&String::new(), &mut scratch));
    assert_eq!("assets/stamps/larch.bmp", attr_escape(&"assets/stamps/larch.bmp".to_string(), &mut scratch));
    assert_eq!("&amp;&amp;", attr_escape(&"&&".to_string(), &mut scratch));
}

#[test]
fn escape_leaves_scratch_alone_when_nothing_needs_escaping() {
    let mut scratch = "kept".to_string();
    assert_eq!("plain", attr_escape(&"plain".to_string(), &mut scratch));
    assert_eq!(scratch, "kept");
    assert_eq!("a&amp;b", attr_escape(&"a&b".to_string(), &mut scratch));
    assert_eq!(scratch, "a&amp;b");
}
