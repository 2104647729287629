use stamps::{
    defs, g, Arrangement, ClipPath, Color, Decimal, HrefAndClipMask, Image, Mask, ParseError,
    Polygon, Transform, SVG,
};

const LARCH: &str = r##"<svg version="2.0" width="64" height="64" xmlns="http://www.w3.org/2000/svg">
  <defs>
    <mask id="larch">
      <g>
      <rect x="0" y="0" width="64" height="64" fill="white"/>
      <ellipse cx="96" cy="66" rx="74" ry="85" fill="black"/>
      </g>
    </mask>
  </defs>
  <g transform="translate(0, 0)">
    <polygon fill="white" stroke="white" points="17 1,47 1,47 63,17 63" mask="url(#larch)"/>
  </g>
</svg>
"##;

const RARCH: &str = r##"<svg version="2.0" width="64" height="64" xmlns="http://www.w3.org/2000/svg">
  <defs>
    <mask id="rarch">
      <g>
      <rect x="0" y="0" width="64" height="64" fill="white"/>
      <ellipse cx="-32" cy="66" rx="74" ry="85" fill="black"/>
      </g>
    </mask>
  </defs>
  <g transform="translate(0, 0)">
    <polygon fill="white" stroke="white" points="17 1,47 1,47 63,17 63" mask="url(#rarch)"/>
  </g>
</svg>
"##;

fn d(s: &str) -> Decimal {
    Decimal::parse(s).unwrap()
}

fn pt(x: &str, y: &str) -> (Decimal, Decimal) {
    (d(x), d(y))
}

fn larch_rarch() -> String {
    String::new() + r##"<svg version="2.0" width="500" height="500" xmlns="http://www.w3.org/2000/svg">
<g transform="scale(2) translate(64, 64) rotate(8) translate(-64, -64)">
<rect x="0" y="0" width="128" height="128" fill="#000000" mask="url(#assets/stamps/larch.bmp)"/>
</g>
<g transform="translate(290, 80) translate(64, 64) rotate(220) translate(-64, -64)">
<rect x="0" y="0" width="128" height="128" fill="#ff1008" mask="url(#assets/stamps/rarch.bmp)"/>
</g>
<defs>
<mask id="assets/stamps/larch.bmp">"## + LARCH + r##"</mask>
<mask id="assets/stamps/rarch.bmp">"## + RARCH + r##"</mask>
</defs>
</svg>"##
}

fn stamp(t: Transform, fill: Color, url: &str, clip: &str) -> g {
    g {
        transform: t,
        rect: Image {
            fill,
            x: 0,
            y: 0,
            height: 128,
            width: 128,
            href: HrefAndClipMask { url: url.to_string(), clip: clip.to_string() },
        },
    }
}

fn larch_transform() -> Transform {
    Transform { scale: d("2"), tx: d("0"), ty: d("0"), rotate: d("8"), midx: d("64"), midy: d("64") }
}

fn rarch_transform() -> Transform {
    Transform { scale: d("1"), tx: d("290"), ty: d("80"), rotate: d("220"), midx: d("64"), midy: d("64") }
}

fn masks() -> Vec<Mask> {
    vec![
        Mask { id: "assets/stamps/larch.bmp".to_string(), content: LARCH.to_string() },
        Mask { id: "assets/stamps/rarch.bmp".to_string(), content: RARCH.to_string() },
    ]
}

#[test]
fn test_basic_serde() {
    let svg_struct = SVG {
        width: 500,
        height: 500,
        version: "2.0".to_string(),
        stamps: vec![
            stamp(larch_transform(), Color { r: 0, g: 0, b: 0 }, "assets/stamps/larch.bmp", ""),
            stamp(rarch_transform(), Color { r: 255, g: 16, b: 8 }, "assets/stamps/rarch.bmp", ""),
        ],
        defs: defs { clipPath: Vec::new(), mask: masks() },
    };
    let text = larch_rarch();
    let svg_deserialized = SVG::from_str(&text).unwrap();
    assert_eq!(svg_deserialized, svg_struct);
    let svg_serialized = svg_struct
        .to_string(&vec![(154, 154), (444, 234)], &vec![LARCH.to_string(), RARCH.to_string()])
        .unwrap();
    assert_eq!(svg_serialized, text);
    assert_eq!(svg_struct.render(), text);
}

#[test]
fn test_clip_mask_serde() {
    let s = String::new() + r##"<svg version="2.0" width="500" height="500" xmlns="http://www.w3.org/2000/svg">
<g transform="scale(2) translate(64, 64) rotate(8) translate(-64, -64)">
<rect x="0" y="0" width="128" height="128" fill="#040506" mask="url(#assets/stamps/larch.bmp)" clip-path="url(#clippy)"/>
</g>
<g transform="translate(290, 80) translate(64, 64) rotate(220) translate(-64, -64)">
<rect x="0" y="0" width="128" height="128" fill="#00ff00" mask="url(#assets/stamps/rarch.bmp)"/>
</g>
<defs>
<clipPath id="hellote">
<polygon points="1 -1,2 2,3 3,4 4.25"/>
</clipPath>
<clipPath id="goodbyte">
<polygon points="0 0,1 1,2 2,-3 3"/>
</clipPath>
<mask id="assets/stamps/larch.bmp">"## + LARCH + r##"</mask>
<mask id="assets/stamps/rarch.bmp">"## + RARCH + r##"</mask>
</defs>
</svg>"##;
    let svg_struct = SVG {
        width: 500,
        height: 500,
        version: "2.0".to_string(),
        stamps: vec![
            stamp(larch_transform(), Color { r: 4, g: 5, b: 6 }, "assets/stamps/larch.bmp", "url(#clippy)"),
            stamp(rarch_transform(), Color { r: 0, g: 255, b: 0 }, "assets/stamps/rarch.bmp", ""),
        ],
        defs: defs {
            mask: masks(),
            clipPath: vec![
                ClipPath {
                    id: "hellote".to_string(),
                    polygon: Polygon { points: vec![pt("1", "-1"), pt("2", "2"), pt("3", "3"), pt("4", "4.25")] },
                },
                ClipPath {
                    id: "goodbyte".to_string(),
                    polygon: Polygon { points: vec![pt("0", "0"), pt("1", "1"), pt("2", "2"), pt("-3", "3")] },
                },
            ],
        },
    };
    let svg_deserialized = SVG::from_str(&s).unwrap();
    assert_eq!(svg_deserialized, svg_struct);
    let svg_serialized = svg_struct
        .to_string(&vec![(154, 154), (444, 234)], &vec![LARCH.to_string(), RARCH.to_string()])
        .unwrap();
    assert_eq!(svg_serialized, s);
}

#[test]
fn encoding_grows_the_canvas_and_writes_sorted_distinct_masks() {
    let mut doc = SVG::new(100, 50);
    doc.add(Transform::new(128, 128), "b/stamps/two.bmp".to_string(), String::new(), Color { r: 1, g: 2, b: 3 });
    doc.add(Transform::new(64, 32), "a/stamps/one.bmp".to_string(), String::new(), Color::default());
    doc.add(Transform::new(64, 32), "b/stamps/two.bmp".to_string(), String::new(), Color::default());
    let urls = doc.mask_urls();
    assert_eq!(urls, vec!["a/stamps/one.bmp".to_string(), "b/stamps/two.bmp".to_string()]);
    let out = doc
        .to_string(&vec![(40, 70), (120, 10), (90, 20)], &vec!["ONE".to_string(), "TWO".to_string()])
        .unwrap();
    assert!(out.starts_with("<svg version=\"2.0\" width=\"120\" height=\"70\""));
    assert!(out.ends_with(
        "<defs>\n<mask id=\"a/stamps/one.bmp\">ONE</mask>\n<mask id=\"b/stamps/two.bmp\">TWO</mask>\n</defs>\n</svg>"
    ));
    assert_eq!(doc.to_string(&vec![(0, 0)], &vec!["ONE".to_string(), "TWO".to_string()]), None);
    assert_eq!(doc.to_string(&vec![(0, 0), (0, 0), (0, 0)], &vec!["ONE".to_string()]), None);
}

#[test]
fn encoded_documents_decode_to_the_same_placements_and_clips() {
    let mut doc = SVG::new(300, 200);
    let mut t = Transform::new(32, 16);
    t.tx = d("12.5");
    t.rotate = d("15");
    doc.add(t, "x/stamps/a&b.bmp".to_string(), "url(#c1)".to_string(), Color { r: 9, g: 8, b: 7 });
    doc.add(Transform::new(7, 9), "x/stamps/c.bmp".to_string(), String::new(), Color::default());
    doc.defs.clipPath.push(ClipPath {
        id: "c1".to_string(),
        polygon: Polygon { points: vec![pt("0", "0"), pt("3.5", "-1"), pt("2", "9")] },
    });
    let text = doc
        .to_string(&vec![(10, 10), (20, 20)], &vec!["<svg/>".to_string(), "<svg></svg>".to_string()])
        .unwrap();
    let back = SVG::from_str(&text).unwrap();
    assert_eq!(back.stamps, doc.stamps);
    assert_eq!(back.defs.clipPath, doc.defs.clipPath);
    assert_eq!(back.stamps[0].rect.width, 32);
    assert_eq!(back.stamps[0].rect.height, 16);
    assert_eq!(back.stamps[1].rect.width, 7);
    assert_eq!(back.stamps[1].rect.height, 9);
}

#[test]
fn new_document_is_empty_and_renders_its_skeleton() {
    let doc = SVG::new(640, 480);
    assert_eq!(
        doc.render(),
        "<svg version=\"2.0\" width=\"640\" height=\"480\" xmlns=\"http://www.w3.org/2000/svg\">\n\n<defs>\n</defs>\n</svg>"
    );
    assert_eq!(SVG::from_str(&doc.render()).unwrap(), doc);
    let mut doc = doc;
    doc.resize(10, 20);
    assert_eq!((doc.width, doc.height), (10, 20));
}

#[test]
fn image_element_text() {
    let im = Image {
        x: -3,
        y: 4,
        width: 10,
        height: 20,
        href: HrefAndClipMask { url: "u<v".to_string(), clip: "url(#k)".to_string() },
        fill: Color { r: 171, g: 205, b: 239 },
    };
    assert_eq!(
        im.to_string(),
        "<rect x=\"-3\" y=\"4\" width=\"10\" height=\"20\" fill=\"#abcdef\" mask=\"url(#u&lt;v)\" clip-path=\"url(#k)\"/>"
    );
}

#[test]
fn malformed_documents_are_rejected() {
    assert_eq!(SVG::from_str("<svg>"), Err(ParseError::MarkupStructureError));
    let bad_fill = larch_rarch().replace("#ff1008", "#ff10");
    assert_eq!(SVG::from_str(&bad_fill), Err(ParseError::ColorFormatError));
    let bad_transform = larch_rarch().replace("rotate(8)", "rotate(8x)");
    assert_eq!(SVG::from_str(&bad_transform), Err(ParseError::NumericParseError));
    let extra = larch_rarch().replace("<defs>\n", "<defs>\n<unknown/>\n");
    assert_eq!(SVG::from_str(&extra), Err(ParseError::MarkupStructureError));
}

#[test]
fn arrangement_marks_changes() {
    let mut a = Arrangement::new(SVG::new(10, 10));
    assert!(a.dirty);
    a.dirty = false;
    assert_eq!(a.get().width, 10);
    assert!(!a.dirty);
    a.get_mut().resize(20, 30);
    assert!(a.dirty);
    assert_eq!(a.get().height, 30);
}

#[test]
fn held_keys_move_four_times_as_far() {
    assert_eq!(stamps::mouse_move(3, 1_000_000), 12);
    assert_eq!(stamps::mouse_move(-2, 0), -8);
    assert_eq!(stamps::mouse_move(3, 1_000_001), 3);
    assert_eq!(stamps::mouse_move(-5, 200_000_000), -5);
}

#[test]
fn placement_size_is_rounded() {
    let mut doc = SVG::new(10, 10);
    let mut t = Transform::new(0, 0);
    t.midx = Decimal::parse("1.25").unwrap();
    t.midy = Decimal::parse("1.2").unwrap();
    doc.add(t, "a.bmp".to_string(), String::new(), Color::default());
    assert_eq!(doc.stamps[0].rect.width, 3);
    assert_eq!(doc.stamps[0].rect.height, 2);
}

#[test]
fn self_closing_masks_inside_assets_do_not_hide_the_entry_end() {
    let mut doc = SVG::new(100, 100);
    doc.add(Transform::new(8, 8), "x/stamps/a.bmp".to_string(), String::new(), Color::default());
    let asset = "<svg><mask id=\"m\"/><mask id=\"n\"><g/></mask></svg>\n".to_string();
    let text = doc.to_string(&vec![(0, 0)], &vec![asset.clone()]).unwrap();
    let back = SVG::from_str(&text).unwrap();
    assert_eq!(back.stamps, doc.stamps);
    assert_eq!(back.defs.mask[0].content, asset);
}

#[test]
fn documents_decode_values_written_in_other_accepted_forms() {
    let text = larch_rarch()
        .replace("#ff1008", "#FF1008")
        .replace("scale(2) translate(64, 64)", "scale(2.0) translate(64,64)")
        .replace("translate(290, 80)", "translate(290,80)")
        .replace("<defs>\n", "<defs>\n<clipPath id=\"c\">\n<polygon points=\"1 2, 3 4\"/>\n</clipPath>\n");
    let doc = SVG::from_str(&text).unwrap();
    assert_eq!(doc.stamps[0].transform, larch_transform());
    assert_eq!(doc.stamps[1].transform, rarch_transform());
    assert_eq!(doc.stamps[1].rect.fill, Color { r: 255, g: 16, b: 8 });
    assert_eq!(doc.defs.clipPath[0].polygon.points, vec![pt("1", "2"), pt("3", "4")]);
}

#[test]
fn asset_paths_follow_the_naming_rule() {
    assert_eq!(stamps::asset_path("assets/stamps/larch.bmp"), "assets/larch.svg");
    assert_eq!(stamps::asset_path("a/stamps/stamps/b.png"), "a/stamps/b.svg");
    assert_eq!(stamps::asset_path("x.y/stamps/noext"), "x.y/noext.svg");
    assert_eq!(stamps::asset_path("a.b.bmp"), "a.b.svg");
    assert_eq!(stamps::asset_path(""), ".svg");
}
