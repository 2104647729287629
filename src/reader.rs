//! Reading a document's markup. Each reader has a spec counterpart over the
//! text; a document is accepted when the spec reader finds one and that
//! document's text is exactly the input.
use vstd::prelude::*;
use crate::color::{color_of, color_text, str_to_color, Color};
use crate::decimal::{dec_of, read_decimal};
use crate::document::{
    clip_text, defs, g, g_text, int_text, mask_text, ClipPath, HrefAndClipMask, Image,
    Mask, Polygon, SVG,
};
use crate::error::ParseError;
use crate::escape::{escaped, unescape, unescaped};
use crate::document::int_dec;
use crate::points::{points_exec, points_of, points_text, Point};
use crate::text::{chars_of, find_char, find_exec, has_lit, push_range, starts_at, string_from_chars};
use crate::transform::{decode_transform, transform_text, Transform};

verus! {

/// A placement as the text shows it: transform, x, y, width, height, source
/// url, clip reference and fill.
pub type GView = (Transform, i32, i32, u32, u32, Seq<char>, Seq<char>, Color);

/// A clip path: id and points.
pub type ClipView = (Seq<char>, Seq<Point>);

/// A mask entry: id and content.
pub type MaskView = (Seq<char>, Seq<char>);

/// A document: version, width, height, placements, clip paths, masks.
pub type DocView = (Seq<char>, u32, u32, Seq<GView>, Seq<ClipView>, Seq<MaskView>);

pub open spec fn g_view(p: g) -> GView {
    (
        p.transform,
        p.rect.x,
        p.rect.y,
        p.rect.width,
        p.rect.height,
        p.rect.href.url@,
        p.rect.href.clip@,
        p.rect.fill,
    )
}

pub open spec fn clip_view(c: ClipPath) -> ClipView {
    (c.id@, c.polygon.points@)
}

pub open spec fn mask_view(m: Mask) -> MaskView {
    (m.id@, m.content@)
}

pub open spec fn doc_view(d: SVG) -> DocView {
    (
        d.version@,
        d.width,
        d.height,
        d.stamps@.map_values(|p: g| g_view(p)),
        d.defs.clipPath@.map_values(|c: ClipPath| clip_view(c)),
        d.defs.mask@.map_values(|m: Mask| mask_view(m)),
    )
}

/// The parts, one after another.
pub open spec fn cat(parts: Seq<Seq<char>>) -> Seq<char>
    decreases parts.len(),
{
    if parts.len() == 0 {
        Seq::empty()
    } else {
        parts[0] + cat(parts.skip(1))
    }
}

pub proof fn lemma_cat_step(p: Seq<Seq<char>>, k: int)
    requires
        0 <= k < p.len(),
    ensures
        cat(p.skip(k)) == p[k] + cat(p.skip(k + 1)),
{
    assert(p.skip(k).skip(1) =~= p.skip(k + 1));
}

/// One more part written: what is left to write shrinks by that part.
pub proof fn lemma_cat_advance(o: Seq<char>, before: Seq<char>, p: Seq<Seq<char>>, k: int)
    requires
        0 <= k < p.len(),
        before + cat(p.skip(k)) == o + cat(p),
    ensures
        (before + p[k]) + cat(p.skip(k + 1)) == o + cat(p),
{
    lemma_cat_step(p, k);
    vstd::seq_lib::lemma_concat_associative(before, p[k], cat(p.skip(k + 1)));
}

pub proof fn lemma_cat_start(o: Seq<char>, p: Seq<Seq<char>>)
    ensures
        o + cat(p.skip(0)) == o + cat(p),
{
    assert(p.skip(0) =~= p);
}

pub proof fn lemma_cat_done(o: Seq<char>, before: Seq<char>, p: Seq<Seq<char>>)
    requires
        before + cat(p.skip(p.len() as int)) == o + cat(p),
    ensures
        before == o + cat(p),
{
    assert(p.skip(p.len() as int) =~= Seq::<Seq<char>>::empty());
    assert(before + Seq::<char>::empty() =~= before);
}

pub open spec fn clip_attr_text(clip: Seq<char>) -> Seq<char> {
    if clip.len() > 0 {
        " clip-path=\""@ + escaped(clip) + "\""@
    } else {
        Seq::empty()
    }
}

pub open spec fn gv_parts(v: GView) -> Seq<Seq<char>> {
    seq![
        "<g transform=\""@,
        transform_text(v.0),
        "\">\n<rect x=\""@,
        int_text(v.1 as int),
        "\" y=\""@,
        int_text(v.2 as int),
        "\" width=\""@,
        int_text(v.3 as int),
        "\" height=\""@,
        int_text(v.4 as int),
        "\" fill=\""@,
        color_text(v.7),
        "\" mask=\"url(#"@,
        escaped(v.5),
        ")\""@,
        clip_attr_text(v.6),
        "/>\n</g>"@,
    ]
}

pub open spec fn gv_text(v: GView) -> Seq<char> {
    cat(gv_parts(v))
}

pub open spec fn gvs_text(vs: Seq<GView>) -> Seq<char>
    decreases vs.len(),
{
    if vs.len() == 0 {
        Seq::empty()
    } else if vs.len() == 1 {
        gv_text(vs[0])
    } else {
        gv_text(vs[0]) + "\n"@ + gvs_text(vs.skip(1))
    }
}

pub open spec fn cv_parts(v: ClipView) -> Seq<Seq<char>> {
    seq![
        "<clipPath id=\""@,
        escaped(v.0),
        "\">\n<polygon points=\""@,
        points_text(v.1),
        "\"/>\n</clipPath>\n"@,
    ]
}

pub open spec fn cv_text(v: ClipView) -> Seq<char> {
    cat(cv_parts(v))
}

pub open spec fn cvs_text(vs: Seq<ClipView>) -> Seq<char>
    decreases vs.len(),
{
    if vs.len() == 0 {
        Seq::empty()
    } else {
        cv_text(vs[0]) + cvs_text(vs.skip(1))
    }
}

pub open spec fn mv_parts(v: MaskView) -> Seq<Seq<char>> {
    seq!["<mask id=\""@, escaped(v.0), "\">"@, v.1, "</mask>\n"@]
}

pub open spec fn mv_text(v: MaskView) -> Seq<char> {
    cat(mv_parts(v))
}

pub open spec fn mvs_text(vs: Seq<MaskView>) -> Seq<char>
    decreases vs.len(),
{
    if vs.len() == 0 {
        Seq::empty()
    } else {
        mv_text(vs[0]) + mvs_text(vs.skip(1))
    }
}

pub open spec fn dv_parts(v: DocView) -> Seq<Seq<char>> {
    seq![
        "<svg version=\""@,
        escaped(v.0),
        "\" width=\""@,
        int_text(v.1 as int),
        "\" height=\""@,
        int_text(v.2 as int),
        "\" xmlns=\"http://www.w3.org/2000/svg\">\n"@,
        gvs_text(v.3),
        "\n<defs>\n"@,
        cvs_text(v.4),
        mvs_text(v.5),
        "</defs>\n</svg>"@,
    ]
}

/// The text of a document view.
pub open spec fn dv_text(v: DocView) -> Seq<char> {
    cat(dv_parts(v))
}

pub open spec fn lit_at(s: Seq<char>, pos: nat, lit: Seq<char>) -> Option<nat> {
    if has_lit(s, pos, lit) {
        Some(pos + lit.len())
    } else {
        None
    }
}

pub open spec fn field_at(s: Seq<char>, pos: nat, c: char) -> Option<nat> {
    if find_char(s, pos, c) < s.len() {
        Some(find_char(s, pos, c))
    } else {
        None
    }
}

/// A whole number in canonical text, within `[min, max]`.
pub open spec fn int_of(t: Seq<char>, min: int, max: int) -> Option<int> {
    match dec_of(t) {
        Some(d) => if d.scale == 0 && d.mant <= i64::MAX {
            let v = if d.neg {
                -(d.mant as int)
            } else {
                d.mant as int
            };
            if min <= v <= max {
                Some(v)
            } else {
                None
            }
        } else {
            None
        },
        None => None,
    }
}

/// `lit`, then a number up to the next quote.
pub open spec fn int_field(s: Seq<char>, pos: nat, lit: Seq<char>, min: int, max: int) -> Result<
    (int, nat),
    ParseError,
> {
    match lit_at(s, pos, lit) {
        None => Err(ParseError::MarkupStructureError),
        Some(p) => match field_at(s, p, '"') {
            None => Err(ParseError::MarkupStructureError),
            Some(e) => match int_of(s.subrange(p as int, e as int), min, max) {
                Some(v) => Ok((v, e)),
                None => Err(ParseError::NumericParseError),
            },
        },
    }
}

/// The optional clip reference at `pos`, and where it ends.
pub open spec fn clip_attr_at(s: Seq<char>, pos: nat) -> Result<(Seq<char>, nat), ParseError> {
    match lit_at(s, pos, " clip-path=\""@) {
        None => Ok((Seq::empty(), pos)),
        Some(q) => match field_at(s, q, '"') {
            None => Err(ParseError::MarkupStructureError),
            Some(e) => Ok((unescaped(s.subrange(q as int, e as int)), e + 1)),
        },
    }
}

/// The image attributes from the fill on: fill, url, clip, and the end.
#[verifier::opaque]
pub open spec fn tail_at(s: Seq<char>, pos: nat) -> Result<(Color, Seq<char>, Seq<char>, nat), ParseError> {
    match lit_at(s, pos, "\" fill=\""@) {
        None => Err(ParseError::MarkupStructureError),
        Some(p5) => match field_at(s, p5, '"') {
            None => Err(ParseError::MarkupStructureError),
            Some(e5) => match color_of(s.subrange(p5 as int, e5 as int)) {
                None => Err(ParseError::ColorFormatError),
                Some(c) => match lit_at(s, e5, "\" mask=\"url(#"@) {
                    None => Err(ParseError::MarkupStructureError),
                    Some(p6) => match field_at(s, p6, ')') {
                        None => Err(ParseError::MarkupStructureError),
                        Some(e6) => match lit_at(s, e6, ")\""@) {
                            None => Err(ParseError::MarkupStructureError),
                            Some(p7) => match clip_attr_at(s, p7) {
                                Err(x) => Err(x),
                                Ok((clip, p8)) => match lit_at(s, p8, "/>\n</g>"@) {
                                    None => Err(ParseError::MarkupStructureError),
                                    Some(end) => Ok(
                                        (c, unescaped(s.subrange(p6 as int, e6 as int)), clip, end),
                                    ),
                                },
                            },
                        },
                    },
                },
            },
        },
    }
}

/// The placement that starts at `pos`, and where it ends.
#[verifier::opaque]
pub open spec fn g_at(s: Seq<char>, pos: nat) -> Result<(GView, nat), ParseError> {
    match lit_at(s, pos, "<g transform=\""@) {
        None => Err(ParseError::MarkupStructureError),
        Some(p0) => match field_at(s, p0, '"') {
            None => Err(ParseError::MarkupStructureError),
            Some(e0) => match decode_transform(s.subrange(p0 as int, e0 as int)) {
                Err(x) => Err(x),
                Ok(t) => match int_field(s, e0, "\">\n<rect x=\""@, i32::MIN as int, i32::MAX as int) {
                    Err(x) => Err(x),
                    Ok((x, e1)) => match int_field(s, e1, "\" y=\""@, i32::MIN as int, i32::MAX as int) {
                        Err(x) => Err(x),
                        Ok((y, e2)) => match int_field(s, e2, "\" width=\""@, 0, u32::MAX as int) {
                            Err(x) => Err(x),
                            Ok((w, e3)) => match int_field(s, e3, "\" height=\""@, 0, u32::MAX as int) {
                                Err(x) => Err(x),
                                Ok((h, e4)) => match tail_at(s, e4) {
                                    Err(x) => Err(x),
                                    Ok((c, url, clip, end)) => Ok(
                                        ((t, x as i32, y as i32, w as u32, h as u32, url, clip, c), end),
                                    ),
                                },
                            },
                        },
                    },
                },
            },
        },
    }
}

/// The clip path that starts at `pos`, and where it ends.
#[verifier::opaque]
pub open spec fn clip_at(s: Seq<char>, pos: nat) -> Result<(ClipView, nat), ParseError> {
    match lit_at(s, pos, "<clipPath id=\""@) {
        None => Err(ParseError::MarkupStructureError),
        Some(p) => match field_at(s, p, '"') {
            None => Err(ParseError::MarkupStructureError),
            Some(e) => match lit_at(s, e, "\">\n<polygon points=\""@) {
                None => Err(ParseError::MarkupStructureError),
                Some(p2) => match field_at(s, p2, '"') {
                    None => Err(ParseError::MarkupStructureError),
                    Some(e2) => match points_of(s.subrange(p2 as int, e2 as int)) {
                        Err(x) => Err(x),
                        Ok(pts) => match lit_at(s, e2, "\"/>\n</clipPath>\n"@) {
                            None => Err(ParseError::MarkupStructureError),
                            Some(end) => Ok(((unescaped(s.subrange(p as int, e as int)), pts), end)),
                        },
                    },
                },
            },
        },
    }
}

/// Whether the tag that starts at `i` ends with `/>`.
pub open spec fn self_closing(s: Seq<char>, i: nat) -> bool {
    let k = find_char(s, i, '>');
    k < s.len() && k > 0 && s[k - 1] == '/'
}

/// Where the `</mask>` that closes a mask opened `depth` levels up stands,
/// scanning from `i`.
pub open spec fn mask_close(s: Seq<char>, i: nat, depth: nat) -> Option<nat>
    decreases s.len() - i,
{
    if i >= s.len() {
        None
    } else if has_lit(s, i, "</mask>"@) {
        if depth <= 1 {
            Some(i)
        } else {
            mask_close(s, i + 1, (depth - 1) as nat)
        }
    } else if has_lit(s, i, "<mask"@) {
        if self_closing(s, i) {
            mask_close(s, i + 1, depth)
        } else {
            mask_close(s, i + 1, depth + 1)
        }
    } else {
        mask_close(s, i + 1, depth)
    }
}

/// The mask entry that starts at `pos`, and where it ends.
#[verifier::opaque]
pub open spec fn mask_at(s: Seq<char>, pos: nat) -> Result<(MaskView, nat), ParseError> {
    match lit_at(s, pos, "<mask id=\""@) {
        None => Err(ParseError::MarkupStructureError),
        Some(p) => match field_at(s, p, '"') {
            None => Err(ParseError::MarkupStructureError),
            Some(e) => match lit_at(s, e, "\">"@) {
                None => Err(ParseError::MarkupStructureError),
                Some(start) => match mask_close(s, start, 1) {
                    None => Err(ParseError::MarkupStructureError),
                    Some(i) => match lit_at(s, i, "</mask>\n"@) {
                        None => Err(ParseError::MarkupStructureError),
                        Some(end) => Ok(
                            ((unescaped(s.subrange(p as int, e as int)), s.subrange(start as int, i as int)), end),
                        ),
                    },
                },
            },
        },
    }
}

pub open spec fn stamps_at(s: Seq<char>, pos: nat) -> Result<(Seq<GView>, nat), ParseError>
    decreases s.len() - pos,
{
    if has_lit(s, pos, "<g "@) {
        match g_at(s, pos) {
            Err(x) => Err(x),
            Ok((v, q)) => if q <= pos || q + 1 > s.len() || s[q as int] != '\n' {
                Err(ParseError::MarkupStructureError)
            } else {
                match stamps_at(s, q + 1) {
                    Err(x) => Err(x),
                    Ok((vs, r)) => Ok((seq![v] + vs, r)),
                }
            },
        }
    } else {
        Ok((Seq::empty(), pos))
    }
}

pub open spec fn clips_at(s: Seq<char>, pos: nat) -> Result<(Seq<ClipView>, nat), ParseError>
    decreases s.len() - pos,
{
    if has_lit(s, pos, "<clipPath "@) {
        match clip_at(s, pos) {
            Err(x) => Err(x),
            Ok((v, q)) => if q <= pos || q > s.len() {
                Err(ParseError::MarkupStructureError)
            } else {
                match clips_at(s, q) {
                    Err(x) => Err(x),
                    Ok((vs, r)) => Ok((seq![v] + vs, r)),
                }
            },
        }
    } else {
        Ok((Seq::empty(), pos))
    }
}

pub open spec fn masks_at(s: Seq<char>, pos: nat) -> Result<(Seq<MaskView>, nat), ParseError>
    decreases s.len() - pos,
{
    if has_lit(s, pos, "<mask "@) {
        match mask_at(s, pos) {
            Err(x) => Err(x),
            Ok((v, q)) => if q <= pos || q > s.len() {
                Err(ParseError::MarkupStructureError)
            } else {
                match masks_at(s, q) {
                    Err(x) => Err(x),
                    Ok((vs, r)) => Ok((seq![v] + vs, r)),
                }
            },
        }
    } else {
        Ok((Seq::empty(), pos))
    }
}

/// The definitions from `pos` to the end of the text.
pub open spec fn defs_at(s: Seq<char>, pos: nat) -> Result<(Seq<ClipView>, Seq<MaskView>), ParseError> {
    match lit_at(s, pos, "<defs>\n"@) {
        None => Err(ParseError::MarkupStructureError),
        Some(p6) => match clips_at(s, p6) {
            Err(x) => Err(x),
            Ok((cs, p7)) => match masks_at(s, p7) {
                Err(x) => Err(x),
                Ok((ms, p8)) => match lit_at(s, p8, "</defs>\n</svg>"@) {
                    None => Err(ParseError::MarkupStructureError),
                    Some(end) => if end == s.len() {
                        Ok((cs, ms))
                    } else {
                        Err(ParseError::MarkupStructureError)
                    },
                },
            },
        },
    }
}

/// The document that the text reads as, before the check that it renders back.
pub open spec fn doc_at(s: Seq<char>) -> Result<DocView, ParseError> {
    match lit_at(s, 0, "<svg version=\""@) {
        None => Err(ParseError::MarkupStructureError),
        Some(p) => match field_at(s, p, '"') {
            None => Err(ParseError::MarkupStructureError),
            Some(e) => match int_field(s, e, "\" width=\""@, 0, u32::MAX as int) {
                Err(x) => Err(x),
                Ok((w, e1)) => match int_field(s, e1, "\" height=\""@, 0, u32::MAX as int) {
                    Err(x) => Err(x),
                    Ok((h, e2)) => match lit_at(s, e2, "\" xmlns=\"http://www.w3.org/2000/svg\">\n"@) {
                        None => Err(ParseError::MarkupStructureError),
                        Some(p3) => match stamps_at(s, p3) {
                            Err(x) => Err(x),
                            Ok((gs, p4)) => match (if gs.len() == 0 {
                                lit_at(s, p4, "\n"@)
                            } else {
                                Some(p4)
                            }) {
                                None => Err(ParseError::MarkupStructureError),
                                Some(p5) => match defs_at(s, p5) {
                                    Err(x) => Err(x),
                                    Ok((cs, ms)) => Ok(
                                        (unescaped(s.subrange(p as int, e as int)), w as u32, h as u32, gs, cs, ms),
                                    ),
                                },
                            },
                        },
                    },
                },
            },
        },
    }
}

/// What a text decodes to: the document it reads as, when that document's
/// text is exactly the input.
pub open spec fn decode_svg(s: Seq<char>) -> Result<DocView, ParseError> {
    doc_at(s)
}

fn sub_chars(s: &Vec<char>, lo: usize, hi: usize) -> (v: Vec<char>)
    requires
        lo <= hi <= s.len(),
    ensures
        v@ == s@.subrange(lo as int, hi as int),
{
    let mut v: Vec<char> = Vec::new();
    push_range(&mut v, s, lo, hi);
    assert(v@ =~= s@.subrange(lo as int, hi as int));
    v
}

/// The position after `lit`, when `lit` stands at `pos`.
fn expect(s: &Vec<char>, pos: usize, lit: &str) -> (r: Result<usize, ParseError>)
    requires
        pos <= s.len(),
    ensures
        match r {
            Ok(p) => lit_at(s@, pos as nat, lit@) == Some(p as nat) && p <= s.len(),
            Err(e) => lit_at(s@, pos as nat, lit@) is None && e == ParseError::MarkupStructureError,
        },
{
    let l = chars_of(lit);
    if starts_at(s, pos, &l) {
        Ok(pos + l.len())
    } else {
        Err(ParseError::MarkupStructureError)
    }
}

/// Where the field that starts at `pos` ends: at the next `c`.
fn field_end(s: &Vec<char>, pos: usize, c: char) -> (r: Result<usize, ParseError>)
    requires
        pos <= s.len(),
    ensures
        match r {
            Ok(e) => field_at(s@, pos as nat, c) == Some(e as nat) && pos <= e < s.len(),
            Err(e) => field_at(s@, pos as nat, c) is None && e == ParseError::MarkupStructureError,
        },
{
    let e = find_exec(s, pos, c);
    if e < s.len() {
        Ok(e)
    } else {
        Err(ParseError::MarkupStructureError)
    }
}

fn read_int(s: &Vec<char>, lo: usize, hi: usize, min: i64, max: i64) -> (r: Result<i64, ParseError>)
    requires
        lo <= hi <= s.len(),
    ensures
        match r {
            Ok(v) => int_of(s@.subrange(lo as int, hi as int), min as int, max as int) == Some(
                v as int,
            ),
            Err(e) => int_of(s@.subrange(lo as int, hi as int), min as int, max as int) is None && e
                == ParseError::NumericParseError,
        },
{
    match read_decimal(s, lo, hi) {
        Some(d) => {
            if d.scale != 0 || d.mant > i64::MAX as u64 {
                return Err(ParseError::NumericParseError);
            }
            let v: i64 = if d.neg {
                -(d.mant as i64)
            } else {
                d.mant as i64
            };
            if v < min || v > max {
                Err(ParseError::NumericParseError)
            } else {
                Ok(v)
            }
        },
        None => Err(ParseError::NumericParseError),
    }
}

fn int_field_exec(s: &Vec<char>, pos: usize, lit: &str, min: i64, max: i64) -> (r: Result<
    (i64, usize),
    ParseError,
>)
    requires
        pos <= s.len(),
    ensures
        match r {
            Ok((v, e)) => int_field(s@, pos as nat, lit@, min as int, max as int) == Ok::<_, ParseError>(
                (v as int, e as nat),
            ) && e < s.len(),
            Err(e) => int_field(s@, pos as nat, lit@, min as int, max as int) == Err::<(int, nat), ParseError>(e),
        },
{
    let p = expect(s, pos, lit)?;
    let e = field_end(s, p, '"')?;
    let v = read_int(s, p, e, min, max)?;
    Ok((v, e))
}

fn clip_attr_exec(s: &Vec<char>, pos: usize) -> (r: Result<(String, usize), ParseError>)
    requires
        pos <= s.len(),
    ensures
        match r {
            Ok((c, e)) => clip_attr_at(s@, pos as nat) == Ok::<_, ParseError>((c@, e as nat)) && e <= s.len(),
            Err(e) => clip_attr_at(s@, pos as nat) == Err::<(Seq<char>, nat), ParseError>(e),
        },
{
    match expect(s, pos, " clip-path=\"") {
        Err(_) => Ok((String::new(), pos)),
        Ok(q) => {
            let e = field_end(s, q, '"')?;
            Ok((unescape(s, q, e), e + 1))
        },
    }
}

fn tail_exec(s: &Vec<char>, pos: usize) -> (r: Result<(Color, String, String, usize), ParseError>)
    requires
        pos <= s.len(),
    ensures
        match r {
            Ok((c, url, clip, end)) => tail_at(s@, pos as nat) == Ok::<_, ParseError>((c, url@, clip@, end as nat))
                && end <= s.len(),
            Err(e) => tail_at(s@, pos as nat) == Err::<(Color, Seq<char>, Seq<char>, nat), ParseError>(e),
        },
{
    reveal(tail_at);
    let p5 = expect(s, pos, "\" fill=\"")?;
    let e5 = field_end(s, p5, '"')?;
    let fill = str_to_color(string_from_chars(&sub_chars(s, p5, e5)).as_str())?;
    let p6 = expect(s, e5, "\" mask=\"url(#")?;
    let e6 = field_end(s, p6, ')')?;
    let p7 = expect(s, e6, ")\"")?;
    let (clip, p8) = clip_attr_exec(s, p7)?;
    let end = expect(s, p8, "/>\n</g>")?;
    let url = unescape(s, p6, e6);
    Ok((fill, url, clip, end))
}

/// Reads the placement at `pos`, and where it ends.
fn read_g(s: &Vec<char>, pos: usize) -> (r: Result<(g, usize), ParseError>)
    requires
        pos <= s.len(),
    ensures
        match r {
            Ok((v, p)) => g_at(s@, pos as nat) == Ok::<_, ParseError>((g_view(v), p as nat)) && p <= s.len(),
            Err(e) => g_at(s@, pos as nat) == Err::<(GView, nat), ParseError>(e),
        },
{
    reveal(g_at);
    let p0 = expect(s, pos, "<g transform=\"")?;
    let e0 = field_end(s, p0, '"')?;
    let transform = Transform::decode_chars(&sub_chars(s, p0, e0))?;
    let (x, e1) = int_field_exec(s, e0, "\">\n<rect x=\"", i32::MIN as i64, i32::MAX as i64)?;
    let (y, e2) = int_field_exec(s, e1, "\" y=\"", i32::MIN as i64, i32::MAX as i64)?;
    let (width, e3) = int_field_exec(s, e2, "\" width=\"", 0, u32::MAX as i64)?;
    let (height, e4) = int_field_exec(s, e3, "\" height=\"", 0, u32::MAX as i64)?;
    let (fill, url, clip, end) = tail_exec(s, e4)?;
    let v = g {
        transform,
        rect: Image {
            x: x as i32,
            y: y as i32,
            width: width as u32,
            height: height as u32,
            href: HrefAndClipMask { url, clip },
            fill,
        },
    };
    Ok((v, end))
}

/// Reads the clip path at `pos`, and where it ends.
fn read_clip(s: &Vec<char>, pos: usize) -> (r: Result<(ClipPath, usize), ParseError>)
    requires
        pos <= s.len(),
    ensures
        match r {
            Ok((v, p)) => clip_at(s@, pos as nat) == Ok::<_, ParseError>((clip_view(v), p as nat)) && p <= s.len(),
            Err(e) => clip_at(s@, pos as nat) == Err::<(ClipView, nat), ParseError>(e),
        },
{
    reveal(clip_at);
    let p = expect(s, pos, "<clipPath id=\"")?;
    let e = field_end(s, p, '"')?;
    let p2 = expect(s, e, "\">\n<polygon points=\"")?;
    let e2 = field_end(s, p2, '"')?;
    let points = points_exec(s, p2, e2)?;
    let end = expect(s, e2, "\"/>\n</clipPath>\n")?;
    let id = unescape(s, p, e);
    Ok((ClipPath { id, polygon: Polygon { points } }, end))
}

fn mask_close_exec(s: &Vec<char>, start: usize) -> (r: Option<usize>)
    requires
        start <= s.len(),
    ensures
        match r {
            Some(i) => mask_close(s@, start as nat, 1) == Some(i as nat) && start <= i <= s.len(),
            None => mask_close(s@, start as nat, 1) is None,
        },
{
    let open = vec!['<', 'm', 'a', 's', 'k'];
    let close = vec!['<', '/', 'm', 'a', 's', 'k', '>'];
    assert(open@ =~= "<mask"@) by {
        reveal_strlit("<mask");
    }
    assert(close@ =~= "</mask>"@) by {
        reveal_strlit("</mask>");
    }
    let mut depth: usize = 1;
    let mut i = start;
    while i < s.len()
        invariant
            start <= i <= s.len(),
            1 <= depth <= i - start + 1,
            open@ == "<mask"@,
            close@ == "</mask>"@,
            open@.len() == 5,
            mask_close(s@, start as nat, 1) == mask_close(s@, i as nat, depth as nat),
        decreases s.len() - i,
    {
        if starts_at(s, i, &close) {
            if depth <= 1 {
                return Some(i);
            }
            depth = depth - 1;
        } else if starts_at(s, i, &open) {
            let k = find_exec(s, i, '>');
            if !(k < s.len() && k > 0 && s[k - 1] == '/') {
                depth = depth + 1;
            }
        }
        i = i + 1;
    }
    None
}

/// Reads the mask entry at `pos`, and where it ends.
fn read_mask(s: &Vec<char>, pos: usize) -> (r: Result<(Mask, usize), ParseError>)
    requires
        pos <= s.len(),
    ensures
        match r {
            Ok((v, p)) => mask_at(s@, pos as nat) == Ok::<_, ParseError>((mask_view(v), p as nat)) && p <= s.len(),
            Err(e) => mask_at(s@, pos as nat) == Err::<(MaskView, nat), ParseError>(e),
        },
{
    reveal(mask_at);
    let p = expect(s, pos, "<mask id=\"")?;
    let e = field_end(s, p, '"')?;
    let start = expect(s, e, "\">")?;
    let i = match mask_close_exec(s, start) {
        Some(i) => i,
        None => {
            return Err(ParseError::MarkupStructureError);
        },
    };
    let end = expect(s, i, "</mask>\n")?;
    let id = unescape(s, p, e);
    let content = string_from_chars(&sub_chars(s, start, i));
    Ok((Mask { id, content }, end))
}

pub open spec fn glue<V>(pre: Seq<V>, r: Result<(Seq<V>, nat), ParseError>) -> Result<
    (Seq<V>, nat),
    ParseError,
> {
    match r {
        Ok((vs, e)) => Ok((pre + vs, e)),
        Err(e) => Err(e),
    }
}

fn read_stamps(s: &Vec<char>, pos: usize) -> (r: Result<(Vec<g>, usize), ParseError>)
    requires
        pos <= s.len(),
    ensures
        match r {
            Ok((v, p)) => stamps_at(s@, pos as nat) == Ok::<_, ParseError>((v@.map_values(|x: g| g_view(x)), p as nat))
                && p <= s.len(),
            Err(e) => stamps_at(s@, pos as nat) == Err::<(Seq<GView>, nat), ParseError>(e),
        },
{
    let start = chars_of("<g ");
    let mut out: Vec<g> = Vec::new();
    let mut p = pos;
    loop
        invariant
            pos <= p <= s.len(),
            start@ == "<g "@,
            stamps_at(s@, pos as nat) == glue(out@.map_values(|x: g| g_view(x)), stamps_at(s@, p as nat)),
        decreases s.len() - p,
    {
        let ghost before = out@;
        if !starts_at(s, p, &start) {
            assert(out@.map_values(|x: g| g_view(x)) + Seq::<GView>::empty() =~= out@.map_values(|x: g| g_view(x)));
            return Ok((out, p));
        }
        let (v, q) = read_g(s, p)?;
        if q <= p || q >= s.len() || s[q] != '\n' {
            return Err(ParseError::MarkupStructureError);
        }
        out.push(v);
        proof {
            let f = |x: g| g_view(x);
            assert(out@.map_values(f) =~= before.map_values(f).push(g_view(v)));
            match stamps_at(s@, (q + 1) as nat) {
                Ok((vs, e)) => {
                    assert(before.map_values(f) + (seq![g_view(v)] + vs) =~= out@.map_values(f) + vs);
                },
                Err(_) => {},
            }
        }
        p = q + 1;
    }
}

fn read_clips(s: &Vec<char>, pos: usize) -> (r: Result<(Vec<ClipPath>, usize), ParseError>)
    requires
        pos <= s.len(),
    ensures
        match r {
            Ok((v, p)) => clips_at(s@, pos as nat) == Ok::<_, ParseError>(
                (v@.map_values(|x: ClipPath| clip_view(x)), p as nat),
            ) && p <= s.len(),
            Err(e) => clips_at(s@, pos as nat) == Err::<(Seq<ClipView>, nat), ParseError>(e),
        },
{
    let start = chars_of("<clipPath ");
    let mut out: Vec<ClipPath> = Vec::new();
    let mut p = pos;
    loop
        invariant
            pos <= p <= s.len(),
            start@ == "<clipPath "@,
            clips_at(s@, pos as nat) == glue(
                out@.map_values(|x: ClipPath| clip_view(x)),
                clips_at(s@, p as nat),
            ),
        decreases s.len() - p,
    {
        let ghost before = out@;
        if !starts_at(s, p, &start) {
            assert(out@.map_values(|x: ClipPath| clip_view(x)) + Seq::<ClipView>::empty()
                =~= out@.map_values(|x: ClipPath| clip_view(x)));
            return Ok((out, p));
        }
        let (v, q) = read_clip(s, p)?;
        if q <= p {
            return Err(ParseError::MarkupStructureError);
        }
        out.push(v);
        proof {
            let f = |x: ClipPath| clip_view(x);
            assert(out@.map_values(f) =~= before.map_values(f).push(clip_view(v)));
            match clips_at(s@, q as nat) {
                Ok((vs, e)) => {
                    assert(before.map_values(f) + (seq![clip_view(v)] + vs) =~= out@.map_values(f) + vs);
                },
                Err(_) => {},
            }
        }
        p = q;
    }
}

fn read_masks(s: &Vec<char>, pos: usize) -> (r: Result<(Vec<Mask>, usize), ParseError>)
    requires
        pos <= s.len(),
    ensures
        match r {
            Ok((v, p)) => masks_at(s@, pos as nat) == Ok::<_, ParseError>(
                (v@.map_values(|x: Mask| mask_view(x)), p as nat),
            ) && p <= s.len(),
            Err(e) => masks_at(s@, pos as nat) == Err::<(Seq<MaskView>, nat), ParseError>(e),
        },
{
    let start = chars_of("<mask ");
    let mut out: Vec<Mask> = Vec::new();
    let mut p = pos;
    loop
        invariant
            pos <= p <= s.len(),
            start@ == "<mask "@,
            masks_at(s@, pos as nat) == glue(out@.map_values(|x: Mask| mask_view(x)), masks_at(s@, p as nat)),
        decreases s.len() - p,
    {
        let ghost before = out@;
        if !starts_at(s, p, &start) {
            assert(out@.map_values(|x: Mask| mask_view(x)) + Seq::<MaskView>::empty()
                =~= out@.map_values(|x: Mask| mask_view(x)));
            return Ok((out, p));
        }
        let (v, q) = read_mask(s, p)?;
        if q <= p {
            return Err(ParseError::MarkupStructureError);
        }
        out.push(v);
        proof {
            let f = |x: Mask| mask_view(x);
            assert(out@.map_values(f) =~= before.map_values(f).push(mask_view(v)));
            match masks_at(s@, q as nat) {
                Ok((vs, e)) => {
                    assert(before.map_values(f) + (seq![mask_view(v)] + vs) =~= out@.map_values(f) + vs);
                },
                Err(_) => {},
            }
        }
        p = q;
    }
}

fn read_defs(s: &Vec<char>, pos: usize) -> (r: Result<(Vec<ClipPath>, Vec<Mask>), ParseError>)
    requires
        pos <= s.len(),
    ensures
        match r {
            Ok((cs, ms)) => defs_at(s@, pos as nat) == Ok::<_, ParseError>(
                (
                    cs@.map_values(|x: ClipPath| clip_view(x)),
                    ms@.map_values(|x: Mask| mask_view(x)),
                ),
            ),
            Err(e) => defs_at(s@, pos as nat) == Err::<(Seq<ClipView>, Seq<MaskView>), ParseError>(e),
        },
{
    let p6 = expect(s, pos, "<defs>\n")?;
    let (clips, p7) = read_clips(s, p6)?;
    let (masks, p8) = read_masks(s, p7)?;
    let end = expect(s, p8, "</defs>\n</svg>")?;
    if end != s.len() {
        return Err(ParseError::MarkupStructureError);
    }
    Ok((clips, masks))
}

fn read_svg(s: &Vec<char>) -> (r: Result<SVG, ParseError>)
    ensures
        match r {
            Ok(d) => doc_at(s@) == Ok::<_, ParseError>(doc_view(d)),
            Err(e) => doc_at(s@) == Err::<DocView, ParseError>(e),
        },
{
    let p = expect(s, 0, "<svg version=\"")?;
    let e = field_end(s, p, '"')?;
    let (width, e1) = int_field_exec(s, e, "\" width=\"", 0, u32::MAX as i64)?;
    let (height, e2) = int_field_exec(s, e1, "\" height=\"", 0, u32::MAX as i64)?;
    let p3 = expect(s, e2, "\" xmlns=\"http://www.w3.org/2000/svg\">\n")?;
    let (stamps, p4) = read_stamps(s, p3)?;
    let p5 = if stamps.len() == 0 {
        expect(s, p4, "\n")?
    } else {
        p4
    };
    let (clips, masks) = read_defs(s, p5)?;
    let version = unescape(s, p, e);
    Ok(SVG { version, width: width as u32, height: height as u32, defs: defs { clipPath: clips, mask: masks }, stamps })
}

proof fn lemma_g_text_view(p: g)
    ensures
        g_text(p) == gv_text(g_view(p)),
{
    reveal(g_text);
}

proof fn lemma_stamps_view(ps: Seq<g>)
    ensures
        crate::document::stamps_text(ps) == gvs_text(ps.map_values(|x: g| g_view(x))),
    decreases ps.len(),
{
    let f = |x: g| g_view(x);
    if ps.len() > 0 {
        lemma_g_text_view(ps[0]);
        lemma_stamps_view(ps.skip(1));
        assert(ps.skip(1).map_values(f) =~= ps.map_values(f).skip(1));
    }
}

proof fn lemma_clips_view(cs: Seq<ClipPath>)
    ensures
        crate::document::clips_text(cs) == cvs_text(cs.map_values(|x: ClipPath| clip_view(x))),
    decreases cs.len(),
{
    let f = |x: ClipPath| clip_view(x);
    if cs.len() > 0 {
        reveal(clip_text);
        lemma_clips_view(cs.skip(1));
        assert(cs.skip(1).map_values(f) =~= cs.map_values(f).skip(1));
    }
}

impl SVG {
    /// Reads a document by the shape of its elements and attributes; each
    /// value is read by its own reader (transform, number, color, point list).
    /// The error is that of the first part that fails: `MarkupStructureError`
    /// for the elements and attributes, `NumericParseError` for a whole
    /// number, `ColorFormatError` for a fill, and the transform's or the point
    /// list's own error for those values.
    pub fn from_str(s: &str) -> (r: Result<SVG, ParseError>)
        ensures
            match r {
                Ok(d) => decode_svg(s@) == Ok::<_, ParseError>(doc_view(d)),
                Err(e) => decode_svg(s@) == Err::<DocView, ParseError>(e),
            },
    {
        let v = chars_of(s);
        read_svg(&v)
    }
}

pub open spec fn no_char(t: Seq<char>, c: char) -> bool {
    forall|i: int| 0 <= i < t.len() ==> #[trigger] t[i] != c
}

proof fn lemma_lit(s: Seq<char>, pos: nat, lit: Seq<char>, r: Seq<char>)
    requires
        pos <= s.len(),
        s.skip(pos as int) == lit + r,
    ensures
        lit_at(s, pos, lit) == Some(pos + lit.len()),
        s.skip((pos + lit.len()) as int) == r,
{
    assert(s.skip(pos as int).len() == lit.len() + r.len());
    assert forall|i: int| 0 <= i < lit.len() implies s[pos + i] == lit[i] by {
        assert(s.skip(pos as int)[i] == s[pos + i]);
    }
    assert(s.subrange(pos as int, (pos + lit.len()) as int) =~= lit);
    assert(s.skip((pos + lit.len()) as int) =~= r) by {
        assert forall|i: int| 0 <= i < r.len() implies s.skip((pos + lit.len()) as int)[i] == r[i] by {
            assert(s.skip(pos as int)[lit.len() + i] == s[pos + lit.len() + i]);
        }
    }
}

proof fn lemma_field(s: Seq<char>, pos: nat, f: Seq<char>, c: char, r: Seq<char>)
    requires
        pos <= s.len(),
        s.skip(pos as int) == f + r,
        r.len() > 0,
        r[0] == c,
        no_char(f, c),
    ensures
        field_at(s, pos, c) == Some(pos + f.len()),
        s.subrange(pos as int, (pos + f.len()) as int) == f,
        s.skip((pos + f.len()) as int) == r,
{
    assert(s.skip(pos as int).len() == f.len() + r.len());
    assert forall|i: int| 0 <= i < f.len() implies s[pos + i] == f[i] by {
        assert(s.skip(pos as int)[i] == s[pos + i]);
    }
    assert(s[(pos + f.len()) as int] == c) by {
        assert(s.skip(pos as int)[f.len() as int] == s[(pos + f.len()) as int]);
    }
    assert forall|i: int| pos <= i < pos + f.len() implies s[i] != c by {
        assert(s[i] == f[i - pos]);
    }
    crate::text::lemma_find_at(s, pos, pos + f.len(), c);
    assert(s.subrange(pos as int, (pos + f.len()) as int) =~= f);
    assert(s.skip((pos + f.len()) as int) =~= r) by {
        assert forall|i: int| 0 <= i < r.len() implies s.skip((pos + f.len()) as int)[i] == r[i] by {
            assert(s.skip(pos as int)[f.len() + i] == s[pos + f.len() + i]);
        }
    }
}

proof fn lemma_peel(s: Seq<char>, pos: nat, p: Seq<Seq<char>>, k: int, rest: Seq<char>)
    requires
        0 <= k < p.len(),
        s.skip(pos as int) == cat(p.skip(k)) + rest,
    ensures
        s.skip(pos as int) == p[k] + (cat(p.skip(k + 1)) + rest),
{
    lemma_cat_step(p, k);
    vstd::seq_lib::lemma_concat_associative(p[k], cat(p.skip(k + 1)), rest);
}

proof fn lemma_int_text(v: int, min: int, max: int)
    requires
        min <= v <= max,
        -0x7fff_ffff_ffff_ffff <= v <= 0x7fff_ffff_ffff_ffff,
    ensures
        int_of(int_text(v), min, max) == Some(v),
        no_char(int_text(v), '"'),
        int_text(v).len() > 0,
{
    let d = crate::document::int_dec(v);
    assert(d.wf());
    crate::decimal::lemma_dec_of_text(d);
    crate::decimal::lemma_dec_chars(d);
    crate::decimal::lemma_scan_text(d);
}

proof fn lemma_transform_text_chars(t: Transform)
    requires
        t.wf(),
    ensures
        no_char(transform_text(t), '"'),
{
    let ts = crate::transform::terms_of(t);
    assert forall|i: int| 0 <= i < ts.len() implies crate::transform::term_wf(#[trigger] ts[i]) by {}
    lemma_terms_chars(ts);
}

#[verifier::rlimit(60)]
proof fn lemma_terms_chars(ts: Seq<crate::transform::Term>)
    requires
        forall|i: int| 0 <= i < ts.len() ==> crate::transform::term_wf(#[trigger] ts[i]),
    ensures
        no_char(crate::transform::terms_text(ts), '"'),
    decreases ts.len(),
{
    if ts.len() > 0 {
        let tt = crate::transform::term_text(ts[0]);
        assert(no_char(tt, '"')) by {
            match ts[0] {
                crate::transform::Term::Scale(d) => {
                    crate::decimal::lemma_dec_chars(d);
                    assert forall|i: int| 0 <= i < tt.len() implies #[trigger] tt[i] != '"' by {
                        if 6 <= i < 6 + crate::decimal::dec_text(d).len() {
                            assert(tt[i] == crate::decimal::dec_text(d)[i - 6]);
                        }
                    }
                },
                crate::transform::Term::Rotate(d) => {
                    crate::decimal::lemma_dec_chars(d);
                    assert forall|i: int| 0 <= i < tt.len() implies #[trigger] tt[i] != '"' by {
                        if 7 <= i < 7 + crate::decimal::dec_text(d).len() {
                            assert(tt[i] == crate::decimal::dec_text(d)[i - 7]);
                        }
                    }
                },
                crate::transform::Term::Translate(x, y) => {
                    crate::decimal::lemma_dec_chars(x);
                    crate::decimal::lemma_dec_chars(y);
                    let lx = crate::decimal::dec_text(x).len();
                    assert forall|i: int| 0 <= i < tt.len() implies #[trigger] tt[i] != '"' by {
                        if 10 <= i < 10 + lx {
                            assert(tt[i] == crate::decimal::dec_text(x)[i - 10]);
                        } else if 12 + lx <= i < 12 + lx + crate::decimal::dec_text(y).len() {
                            assert(tt[i] == crate::decimal::dec_text(y)[i - 12 - lx]);
                        }
                    }
                },
            }
        }
        if ts.len() > 1 {
            let rest = ts.skip(1);
            assert forall|i: int| 0 <= i < rest.len() implies crate::transform::term_wf(#[trigger] rest[i]) by {
                assert(rest[i] == ts[i + 1]);
            }
            lemma_terms_chars(rest);
            let whole = crate::transform::terms_text(ts);
            assert(whole == tt + seq![' '] + crate::transform::terms_text(rest));
            assert forall|i: int| 0 <= i < whole.len() implies #[trigger] whole[i] != '"' by {
                if i < tt.len() {
                    assert(whole[i] == tt[i]);
                } else if i > tt.len() {
                    assert(whole[i] == crate::transform::terms_text(rest)[i - tt.len() - 1]);
                }
            }
        }
    } else {
        assert(crate::transform::terms_text(ts) =~= Seq::<char>::empty());
    }
}

proof fn lemma_color_chars(c: Color)
    ensures
        no_char(color_text(c), '"'),
        color_of(color_text(c)) == Some(c),
{
    crate::color::lemma_color_round_trip(c);
}

/// What a placement needs so that its text reads back: a well-formed
/// transform and a source url without `)`.
pub open spec fn placement_ok(v: GView) -> bool {
    v.0.wf() && no_char(v.5, ')')
}

proof fn lemma_lit_part(s: Seq<char>, pos: nat, p: Seq<Seq<char>>, k: int, rest: Seq<char>)
    requires
        pos <= s.len(),
        0 <= k < p.len(),
        s.skip(pos as int) == cat(p.skip(k)) + rest,
    ensures
        lit_at(s, pos, p[k]) == Some(pos + p[k].len()),
        s.skip((pos + p[k].len()) as int) == cat(p.skip(k + 1)) + rest,
        pos + p[k].len() <= s.len(),
{
    lemma_peel(s, pos, p, k, rest);
    lemma_lit(s, pos, p[k], cat(p.skip(k + 1)) + rest);
}

proof fn lemma_field_part(s: Seq<char>, pos: nat, p: Seq<Seq<char>>, k: int, rest: Seq<char>, c: char)
    requires
        pos <= s.len(),
        0 <= k,
        k + 1 < p.len(),
        p[k + 1].len() > 0,
        p[k + 1][0] == c,
        no_char(p[k], c),
        s.skip(pos as int) == cat(p.skip(k)) + rest,
    ensures
        field_at(s, pos, c) == Some(pos + p[k].len()),
        s.subrange(pos as int, (pos + p[k].len()) as int) == p[k],
        s.skip((pos + p[k].len()) as int) == cat(p.skip(k + 1)) + rest,
        pos + p[k].len() <= s.len(),
{
    lemma_peel(s, pos, p, k, rest);
    lemma_cat_step(p, k + 1);
    vstd::seq_lib::lemma_concat_associative(p[k + 1], cat(p.skip(k + 2)), rest);
    lemma_field(s, pos, p[k], c, cat(p.skip(k + 1)) + rest);
}

/// `lit` and then a whole number, read from parts `k` and `k + 1`.
proof fn lemma_int_part(
    s: Seq<char>,
    pos: nat,
    p: Seq<Seq<char>>,
    k: int,
    rest: Seq<char>,
    v: int,
    min: int,
    max: int,
)
    requires
        pos <= s.len(),
        0 <= k,
        k + 2 < p.len(),
        p[k + 1] == int_text(v),
        p[k + 2].len() > 0,
        p[k + 2][0] == '"',
        min <= v <= max,
        -0x7fff_ffff_ffff_ffff <= v <= 0x7fff_ffff_ffff_ffff,
        s.skip(pos as int) == cat(p.skip(k)) + rest,
    ensures
        int_field(s, pos, p[k], min, max) == Ok::<_, ParseError>((v, pos + p[k].len() + p[k + 1].len())),
        s.skip((pos + p[k].len() + p[k + 1].len()) as int) == cat(p.skip(k + 2)) + rest,
        pos + p[k].len() + p[k + 1].len() <= s.len(),
{
    lemma_int_text(v, min, max);
    lemma_lit_part(s, pos, p, k, rest);
    lemma_field_part(s, pos + p[k].len(), p, k + 1, rest, '"');
}

#[verifier::rlimit(60)]
proof fn lemma_clip_attr(s: Seq<char>, a7: nat, clip: Seq<char>, tail: Seq<char>)
    requires
        a7 <= s.len(),
        s.skip(a7 as int) == clip_attr_text(clip) + tail,
        tail.len() > 0,
        tail[0] == '/',
    ensures
        clip_attr_at(s, a7) == Ok::<_, ParseError>((clip, a7 + clip_attr_text(clip).len())),
        s.skip((a7 + clip_attr_text(clip).len()) as int) == tail,
{
    reveal_strlit(" clip-path=\"");
    reveal_strlit("\"");
    crate::escape::lemma_escaped_chars(clip);
    crate::escape::lemma_unescape_escaped(clip);
    if clip.len() > 0 {
        let lit = " clip-path=\""@;
        let q = "\""@;
        vstd::seq_lib::lemma_concat_associative(lit, escaped(clip), q);
        vstd::seq_lib::lemma_concat_associative(lit, escaped(clip) + q, tail);
        vstd::seq_lib::lemma_concat_associative(escaped(clip), q, tail);
        lemma_lit(s, a7, lit, escaped(clip) + (q + tail));
        lemma_field(s, a7 + lit.len(), escaped(clip), '"', q + tail);
        let e7 = a7 + lit.len() + escaped(clip).len();
        lemma_lit(s, e7, q, tail);
    } else {
        assert(clip_attr_text(clip) =~= Seq::<char>::empty());
        assert(s.skip(a7 as int) =~= tail);
        assert(s.skip(a7 as int).len() > 0);
        assert(s[a7 as int] == s.skip(a7 as int)[0]);
        assert(!has_lit(s, a7, " clip-path=\""@)) by {
            if has_lit(s, a7, " clip-path=\""@) {
                assert(s.subrange(a7 as int, (a7 + 12) as int)[0] == s[a7 as int]);
            }
        }
        assert(clip =~= Seq::<char>::empty());
    }
}

#[verifier::rlimit(60)]
proof fn lemma_tail_at(s: Seq<char>, pos: nat, v: GView, rest: Seq<char>)
    requires
        pos <= s.len(),
        placement_ok(v),
        s.skip(pos as int) == cat(gv_parts(v).skip(10)) + rest,
    ensures
        tail_at(s, pos) == Ok::<_, ParseError>((v.7, v.5, v.6, (s.len() - rest.len()) as nat)),
{
    reveal(tail_at);
    let p = gv_parts(v);
    reveal_strlit("\" mask=\"url(#");
    reveal_strlit(")\"");
    reveal_strlit("/>\n</g>");
    lemma_color_chars(v.7);
    crate::escape::lemma_escaped_chars(v.5);
    crate::escape::lemma_unescape_escaped(v.5);
    lemma_lit_part(s, pos, p, 10, rest);
    let a5 = pos + p[10].len();
    lemma_field_part(s, a5, p, 11, rest, '"');
    let e5 = a5 + p[11].len();
    lemma_lit_part(s, e5, p, 12, rest);
    let a6 = e5 + p[12].len();
    lemma_field_part(s, a6, p, 13, rest, ')');
    let e6 = a6 + p[13].len();
    lemma_lit_part(s, e6, p, 14, rest);
    let a7 = e6 + p[14].len();
    lemma_peel(s, a7, p, 15, rest);
    lemma_cat_step(p, 16);
    assert(p.skip(17) =~= Seq::<Seq<char>>::empty());
    assert(cat(p.skip(16)) =~= p[16]);
    let tail = p[16] + rest;
    let a8 = a7 + p[15].len();
    lemma_clip_attr(s, a7, v.6, tail);
    assert(s.skip(a8 as int) == tail);
    lemma_lit(s, a8, p[16], rest);
    let end = a8 + p[16].len();
    assert(s.skip(end as int).len() == rest.len());
}

/// A placement's text, wherever it stands, reads back as that placement.
#[verifier::rlimit(60)]
proof fn lemma_g_at(s: Seq<char>, pos: nat, v: GView, rest: Seq<char>)
    requires
        pos <= s.len(),
        placement_ok(v),
        s.skip(pos as int) == gv_text(v) + rest,
    ensures
        g_at(s, pos) == Ok::<_, ParseError>((v, pos + gv_text(v).len())),
{
    reveal(g_at);
    let p = gv_parts(v);
    assert(p.skip(0) =~= p);
    reveal_strlit("\">\n<rect x=\"");
    reveal_strlit("\" y=\"");
    reveal_strlit("\" width=\"");
    reveal_strlit("\" height=\"");
    reveal_strlit("\" fill=\"");
    crate::transform::lemma_transform_round_trip(v.0);
    lemma_transform_text_chars(v.0);
    lemma_lit_part(s, pos, p, 0, rest);
    let a0 = pos + p[0].len();
    lemma_field_part(s, a0, p, 1, rest, '"');
    let e0 = a0 + p[1].len();
    lemma_int_part(s, e0, p, 2, rest, v.1 as int, i32::MIN as int, i32::MAX as int);
    let e1 = e0 + p[2].len() + p[3].len();
    lemma_int_part(s, e1, p, 4, rest, v.2 as int, i32::MIN as int, i32::MAX as int);
    let e2 = e1 + p[4].len() + p[5].len();
    lemma_int_part(s, e2, p, 6, rest, v.3 as int, 0, u32::MAX as int);
    let e3 = e2 + p[6].len() + p[7].len();
    lemma_int_part(s, e3, p, 8, rest, v.4 as int, 0, u32::MAX as int);
    let e4 = e3 + p[8].len() + p[9].len();
    lemma_tail_at(s, e4, v, rest);
    assert(s.skip(pos as int).len() == gv_text(v).len() + rest.len());
}

proof fn lemma_points_chars(ps: Seq<Point>)
    requires
        forall|i: int| 0 <= i < ps.len() ==> (#[trigger] ps[i]).0.wf() && ps[i].1.wf(),
    ensures
        no_char(points_text(ps), '"'),
    decreases ps.len(),
{
    if ps.len() > 0 {
        let p0 = ps[0];
        let pt = crate::points::point_text(p0);
        crate::decimal::lemma_dec_chars(p0.0);
        crate::decimal::lemma_dec_chars(p0.1);
        let lx = crate::decimal::dec_text(p0.0).len();
        assert forall|i: int| 0 <= i < pt.len() implies #[trigger] pt[i] != '"' by {
            if i < lx {
                assert(pt[i] == crate::decimal::dec_text(p0.0)[i]);
            } else if i > lx {
                assert(pt[i] == crate::decimal::dec_text(p0.1)[i - lx - 1]);
            }
        }
        if ps.len() > 1 {
            let rest = ps.skip(1);
            assert forall|i: int| 0 <= i < rest.len() implies (#[trigger] rest[i]).0.wf() && rest[i].1.wf() by {
                assert(rest[i] == ps[i + 1]);
            }
            lemma_points_chars(rest);
            let whole = points_text(ps);
            assert(whole == pt + seq![','] + points_text(rest));
            assert forall|i: int| 0 <= i < whole.len() implies #[trigger] whole[i] != '"' by {
                if i < pt.len() {
                    assert(whole[i] == pt[i]);
                } else if i > pt.len() {
                    assert(whole[i] == points_text(rest)[i - pt.len() - 1]);
                }
            }
        }
    }
}

/// What a clip path needs so that its text reads back: at least one point,
/// and well-formed coordinates.
pub open spec fn clip_ok(v: ClipView) -> bool {
    v.1.len() > 0 && forall|i: int| 0 <= i < v.1.len() ==> (#[trigger] v.1[i]).0.wf() && v.1[i].1.wf()
}

#[verifier::rlimit(60)]
proof fn lemma_clip_at(s: Seq<char>, pos: nat, v: ClipView, rest: Seq<char>)
    requires
        pos <= s.len(),
        clip_ok(v),
        s.skip(pos as int) == cv_text(v) + rest,
    ensures
        clip_at(s, pos) == Ok::<_, ParseError>((v, pos + cv_text(v).len())),
{
    reveal(clip_at);
    let p = cv_parts(v);
    assert(p.skip(0) =~= p);
    reveal_strlit("\">\n<polygon points=\"");
    reveal_strlit("\"/>\n</clipPath>\n");
    crate::escape::lemma_escaped_chars(v.0);
    crate::escape::lemma_unescape_escaped(v.0);
    lemma_points_chars(v.1);
    crate::points::lemma_points_round_trip(v.1);
    lemma_lit_part(s, pos, p, 0, rest);
    let a = pos + p[0].len();
    lemma_field_part(s, a, p, 1, rest, '"');
    let e = a + p[1].len();
    lemma_lit_part(s, e, p, 2, rest);
    let a2 = e + p[2].len();
    lemma_field_part(s, a2, p, 3, rest, '"');
    let e2 = a2 + p[3].len();
    lemma_lit_part(s, e2, p, 4, rest);
    assert(p.skip(5) =~= Seq::<Seq<char>>::empty());
    assert(cat(p.skip(5)) + rest =~= rest);
    assert(s.skip(pos as int).len() == cv_text(v).len() + rest.len());
}

/// Whether the content of a mask entry closes exactly at its end: its own
/// mask elements, other than self-closing ones, are balanced.
pub open spec fn mask_closes(c: Seq<char>) -> bool {
    mask_close(c + "</mask>"@, 0, 1) == Some(c.len())
}

#[verifier::rlimit(60)]
proof fn lemma_close_shift(s: Seq<char>, start: nat, c: Seq<char>, i: nat, d: nat, k: nat)
    requires
        start + c.len() + 7 <= s.len(),
        s.subrange(start as int, (start + c.len() + 7) as int) == c + "</mask>"@,
        i <= c.len() + 7,
        mask_close(c + "</mask>"@, i, d) == Some(k),
    ensures
        mask_close(s, start + i, d) == Some(start + k),
    decreases c.len() + 7 - i,
{
    reveal_strlit("</mask>");
    reveal_strlit("<mask");
    let t = c + "</mask>"@;
    let si: int = (start + i) as int;
    let ii: int = i as int;
    let w = s.subrange(start as int, (start + c.len() + 7) as int);
    assert(t.len() == c.len() + 7);
    assert(ii < t.len());
    assert(s[si] == t[ii]) by {
        assert(w[ii] == s[si]);
    }
    if t[ii] != '<' {
        assert(!has_lit(t, i, "</mask>"@)) by {
            if has_lit(t, i, "</mask>"@) {
                assert(t.subrange(ii, ii + 7)[0] == t[ii]);
            }
        }
        assert(!has_lit(t, i, "<mask"@)) by {
            if has_lit(t, i, "<mask"@) {
                assert(t.subrange(ii, ii + 5)[0] == t[ii]);
            }
        }
        assert(!has_lit(s, start + i, "</mask>"@)) by {
            if has_lit(s, start + i, "</mask>"@) {
                assert(s.subrange(si, si + 7)[0] == s[si]);
            }
        }
        assert(!has_lit(s, start + i, "<mask"@)) by {
            if has_lit(s, start + i, "<mask"@) {
                assert(s.subrange(si, si + 5)[0] == s[si]);
            }
        }
        lemma_close_shift(s, start, c, i + 1, d, k);
    } else {
        assert(ii <= c.len()) by {
            if ii > c.len() {
                assert(t[ii] == "</mask>"@[ii - c.len()]);
            }
        }
        assert forall|j: int| 0 <= j < 7 implies #[trigger] s[si + j] == t[ii + j] by {
            assert(w[ii + j] == s[si + j]);
        }
        assert(has_lit(t, i, "</mask>"@) == has_lit(s, start + i, "</mask>"@)) by {
            assert(s.subrange(si, si + 7) =~= t.subrange(ii, ii + 7));
        }
        assert(has_lit(t, i, "<mask"@) == has_lit(s, start + i, "<mask"@)) by {
            assert(s.subrange(si, si + 5) =~= t.subrange(ii, ii + 5));
        }
        if has_lit(t, i, "</mask>"@) {
            if d > 1 {
                lemma_close_shift(s, start, c, i + 1, (d - 1) as nat, k);
            }
        } else if has_lit(t, i, "<mask"@) {
            assert(self_closing(t, i) == self_closing(s, start + i)) by {
                let cl: int = c.len() as int;
                assert(t[cl + 6] == '>');
                crate::text::lemma_find_first(t, i, '>', (cl + 6) as nat);
                let kt = find_char(t, i, '>');
                assert(t[ii] != '>');
                crate::text::lemma_find_bounds(t, i, '>');
                assert(kt > ii);
                assert forall|j: int| si <= j <= (start + kt) as int implies #[trigger] s[j] == t[j - start] by {
                    assert(w[j - start] == s[j]);
                }
                assert forall|j: int| si <= j < (start + kt) as int implies s[j] != '>' by {
                    assert(s[j] == t[j - start]);
                }
                crate::text::lemma_find_at(s, start + i, start + kt, '>');
                assert(s[(start + kt - 1) as int] == t[kt - 1]);
            }
            if self_closing(t, i) {
                lemma_close_shift(s, start, c, i + 1, d, k);
            } else {
                lemma_close_shift(s, start, c, i + 1, d + 1, k);
            }
        } else {
            lemma_close_shift(s, start, c, i + 1, d, k);
        }
    }
}

#[verifier::rlimit(60)]
proof fn lemma_mask_at(s: Seq<char>, pos: nat, v: MaskView, rest: Seq<char>)
    requires
        pos <= s.len(),
        mask_closes(v.1),
        s.skip(pos as int) == mv_text(v) + rest,
    ensures
        mask_at(s, pos) == Ok::<_, ParseError>((v, pos + mv_text(v).len())),
{
    reveal(mask_at);
    let p = mv_parts(v);
    assert(p.skip(0) =~= p);
    reveal_strlit("\">");
    reveal_strlit("</mask>\n");
    reveal_strlit("</mask>");
    crate::escape::lemma_escaped_chars(v.0);
    crate::escape::lemma_unescape_escaped(v.0);
    lemma_lit_part(s, pos, p, 0, rest);
    let a = pos + p[0].len();
    lemma_field_part(s, a, p, 1, rest, '"');
    let e = a + p[1].len();
    lemma_lit_part(s, e, p, 2, rest);
    let start = e + p[2].len();
    lemma_peel(s, start, p, 3, rest);
    lemma_cat_step(p, 4);
    assert(p.skip(5) =~= Seq::<Seq<char>>::empty());
    assert(cat(p.skip(4)) =~= p[4]);
    let tail = p[4] + rest;
    assert(s.skip(start as int) == v.1 + tail);
    assert(s.skip(start as int).len() == v.1.len() + tail.len());
    assert(s.subrange(start as int, (start + v.1.len() + 7) as int) =~= v.1 + "</mask>"@) by {
        assert forall|j: int| 0 <= j < v.1.len() + 7 implies s[start + j] == (v.1 + "</mask>"@)[j] by {
            assert(s.skip(start as int)[j] == s[start + j]);
        }
    }
    lemma_close_shift(s, start, v.1, 0, 1, v.1.len());
    let i = start + v.1.len();
    lemma_lit(s, start, v.1, tail);
    assert(s.subrange(start as int, i as int) =~= v.1) by {
        assert forall|j: int| 0 <= j < v.1.len() implies s[start + j] == v.1[j] by {
            assert(s.skip(start as int)[j] == s[start + j]);
        }
    }
    lemma_lit(s, i, p[4], rest);
    assert(s.skip(pos as int).len() == mv_text(v).len() + rest.len());
}

proof fn lemma_gv_start(v: GView)
    ensures
        gv_text(v).len() > 3,
        gv_text(v).take(3) == "<g "@,
{
    reveal_strlit("<g transform=\"");
    reveal_strlit("<g ");
    let p = gv_parts(v);
    lemma_cat_step(p, 0);
    assert(p.skip(0) =~= p);
    assert(gv_text(v).take(3) =~= "<g "@);
}

#[verifier::rlimit(60)]
proof fn lemma_stamps_at(s: Seq<char>, pos: nat, gs: Seq<GView>, rest: Seq<char>)
    requires
        pos <= s.len(),
        forall|i: int| 0 <= i < gs.len() ==> placement_ok(#[trigger] gs[i]),
        s.skip(pos as int) == gvs_text(gs) + ("\n<defs>\n"@ + rest),
    ensures
        stamps_at(s, pos) == Ok::<_, ParseError>(
            (
                gs,
                if gs.len() == 0 {
                    pos
                } else {
                    pos + gvs_text(gs).len() + 1
                },
            ),
        ),
    decreases gs.len(),
{
    reveal_strlit("\n<defs>\n");
    reveal_strlit("<g ");
    if gs.len() == 0 {
        assert(gs =~= Seq::<GView>::empty());
        assert(gvs_text(gs) =~= Seq::<char>::empty());
        assert(s.skip(pos as int)[0] == s[pos as int]);
        assert(!has_lit(s, pos, "<g "@)) by {
            if has_lit(s, pos, "<g "@) {
                assert(s.subrange(pos as int, (pos + 3) as int)[0] == s[pos as int]);
            }
        }
    } else {
        let v = gs[0];
        let tail = gs.skip(1);
        lemma_gv_start(v);
        let r1 = (if gs.len() > 1 {
            "\n"@ + gvs_text(tail)
        } else {
            Seq::empty()
        }) + ("\n<defs>\n"@ + rest);
        assert(s.skip(pos as int) =~= gv_text(v) + r1);
        assert(s.subrange(pos as int, (pos + 3) as int) =~= "<g "@) by {
            assert forall|j: int| 0 <= j < 3 implies s[pos + j] == "<g "@[j] by {
                assert(s.skip(pos as int)[j] == s[pos + j]);
                assert(gv_text(v).take(3)[j] == gv_text(v)[j]);
            }
        }
        lemma_g_at(s, pos, v, r1);
        let q = pos + gv_text(v).len();
        lemma_lit(s, pos, gv_text(v), r1);
        reveal_strlit("\n");
        assert(r1.len() > 0 && r1[0] == '\n');
        assert(r1 =~= "\n"@ + r1.skip(1));
        assert(s[q as int] == '\n') by {
            assert(s.skip(q as int)[0] == s[q as int]);
        }
        lemma_lit(s, q, "\n"@, r1.skip(1));
        assert forall|i: int| 0 <= i < tail.len() implies placement_ok(#[trigger] tail[i]) by {
            assert(tail[i] == gs[i + 1]);
        }
        if gs.len() > 1 {
            assert(r1.skip(1) =~= gvs_text(tail) + ("\n<defs>\n"@ + rest));
            lemma_stamps_at(s, q + 1, tail, rest);
            assert(seq![v] + tail =~= gs);
        } else {
            assert(r1.skip(1) =~= "<defs>\n"@.add(rest)) by {
                reveal_strlit("<defs>\n");
            }
            reveal_strlit("<defs>\n");
            assert(s.skip((q + 1) as int)[1] == s[(q + 2) as int]);
            assert(!has_lit(s, q + 1, "<g "@)) by {
                if has_lit(s, q + 1, "<g "@) {
                    assert(s.subrange((q + 1) as int, (q + 4) as int)[1] == s[(q + 2) as int]);
                }
            }
            assert(seq![v] + Seq::<GView>::empty() =~= gs);
            assert(gvs_text(gs) == gv_text(v));
        }
    }
}

#[verifier::rlimit(60)]
proof fn lemma_clips_at(s: Seq<char>, pos: nat, cs: Seq<ClipView>, r: Seq<char>)
    requires
        pos <= s.len(),
        forall|i: int| 0 <= i < cs.len() ==> clip_ok(#[trigger] cs[i]),
        s.skip(pos as int) == cvs_text(cs) + r,
        r.len() > 1,
        r[1] != 'c',
    ensures
        clips_at(s, pos) == Ok::<_, ParseError>((cs, pos + cvs_text(cs).len())),
        s.skip((pos + cvs_text(cs).len()) as int) == r,
    decreases cs.len(),
{
    reveal_strlit("<clipPath ");
    reveal_strlit("<clipPath id=\"");
    if cs.len() == 0 {
        assert(cs =~= Seq::<ClipView>::empty());
        assert(cvs_text(cs) =~= Seq::<char>::empty());
        assert(s.skip(pos as int)[1] == s[(pos + 1) as int]);
        assert(!has_lit(s, pos, "<clipPath "@)) by {
            if has_lit(s, pos, "<clipPath "@) {
                assert(s.subrange(pos as int, (pos + 10) as int)[1] == s[(pos + 1) as int]);
            }
        }
    } else {
        let v = cs[0];
        let tail = cs.skip(1);
        let r1 = cvs_text(tail) + r;
        assert(s.skip(pos as int) =~= cv_text(v) + r1);
        let p = cv_parts(v);
        lemma_cat_step(p, 0);
        assert(p.skip(0) =~= p);
        assert(s.subrange(pos as int, (pos + 10) as int) =~= "<clipPath "@) by {
            assert forall|j: int| 0 <= j < 10 implies s[pos + j] == "<clipPath "@[j] by {
                assert(s.skip(pos as int)[j] == s[pos + j]);
                assert(cv_text(v)[j] == p[0][j]);
            }
        }
        lemma_clip_at(s, pos, v, r1);
        let q = pos + cv_text(v).len();
        lemma_lit(s, pos, cv_text(v), r1);
        assert forall|i: int| 0 <= i < tail.len() implies clip_ok(#[trigger] tail[i]) by {
            assert(tail[i] == cs[i + 1]);
        }
        lemma_clips_at(s, q, tail, r);
        assert(seq![v] + tail =~= cs);
    }
}

#[verifier::rlimit(60)]
proof fn lemma_masks_at(s: Seq<char>, pos: nat, ms: Seq<MaskView>, r: Seq<char>)
    requires
        pos <= s.len(),
        forall|i: int| 0 <= i < ms.len() ==> mask_closes((#[trigger] ms[i]).1),
        s.skip(pos as int) == mvs_text(ms) + r,
        r.len() > 1,
        r[1] != 'm',
    ensures
        masks_at(s, pos) == Ok::<_, ParseError>((ms, pos + mvs_text(ms).len())),
        s.skip((pos + mvs_text(ms).len()) as int) == r,
    decreases ms.len(),
{
    reveal_strlit("<mask ");
    reveal_strlit("<mask id=\"");
    if ms.len() == 0 {
        assert(ms =~= Seq::<MaskView>::empty());
        assert(mvs_text(ms) =~= Seq::<char>::empty());
        assert(s.skip(pos as int)[1] == s[(pos + 1) as int]);
        assert(!has_lit(s, pos, "<mask "@)) by {
            if has_lit(s, pos, "<mask "@) {
                assert(s.subrange(pos as int, (pos + 6) as int)[1] == s[(pos + 1) as int]);
            }
        }
    } else {
        let v = ms[0];
        let tail = ms.skip(1);
        let r1 = mvs_text(tail) + r;
        assert(s.skip(pos as int) =~= mv_text(v) + r1);
        let p = mv_parts(v);
        lemma_cat_step(p, 0);
        assert(p.skip(0) =~= p);
        assert(s.subrange(pos as int, (pos + 6) as int) =~= "<mask "@) by {
            assert forall|j: int| 0 <= j < 6 implies s[pos + j] == "<mask "@[j] by {
                assert(s.skip(pos as int)[j] == s[pos + j]);
                assert(mv_text(v)[j] == p[0][j]);
            }
        }
        lemma_mask_at(s, pos, v, r1);
        let q = pos + mv_text(v).len();
        lemma_lit(s, pos, mv_text(v), r1);
        assert forall|i: int| 0 <= i < tail.len() implies mask_closes((#[trigger] tail[i]).1) by {
            assert(tail[i] == ms[i + 1]);
        }
        lemma_masks_at(s, q, tail, r);
        assert(seq![v] + tail =~= ms);
    }
}

/// What a document view needs so that its text reads back: every
/// placement, clip path and mask entry can be read back.
pub open spec fn doc_ok(v: DocView) -> bool {
    &&& forall|i: int| 0 <= i < v.3.len() ==> placement_ok(#[trigger] v.3[i])
    &&& forall|i: int| 0 <= i < v.4.len() ==> clip_ok(#[trigger] v.4[i])
    &&& forall|i: int| 0 <= i < v.5.len() ==> mask_closes((#[trigger] v.5[i]).1)
}

proof fn lemma_masks_next(ms: Seq<MaskView>, r: Seq<char>)
    requires
        r == "</defs>\n</svg>"@,
    ensures
        (mvs_text(ms) + r).len() > 1,
        (mvs_text(ms) + r)[1] != 'c',
{
    reveal_strlit("</defs>\n</svg>");
    reveal_strlit("<mask id=\"");
    if ms.len() == 0 {
        assert(mvs_text(ms) =~= Seq::<char>::empty());
    } else {
        let p = mv_parts(ms[0]);
        lemma_cat_step(p, 0);
        assert(p.skip(0) =~= p);
        assert(mv_text(ms[0])[1] == p[0][1]);
        assert((mvs_text(ms) + r)[1] == mv_text(ms[0])[1]);
    }
}

#[verifier::rlimit(100)]
proof fn lemma_doc_at(v: DocView)
    requires
        doc_ok(v),
    ensures
        doc_at(dv_text(v)) == Ok::<_, ParseError>(v),
{
    let s = dv_text(v);
    let p = dv_parts(v);
    let e = Seq::<char>::empty();
    assert(p.skip(0) =~= p);
    assert(s.skip(0) =~= cat(p.skip(0)) + e);
    reveal_strlit("\" width=\"");
    reveal_strlit("\" height=\"");
    reveal_strlit("\" xmlns=\"http://www.w3.org/2000/svg\">\n");
    reveal_strlit("\n<defs>\n");
    reveal_strlit("\n");
    reveal_strlit("<defs>\n");
    reveal_strlit("</defs>\n</svg>");
    crate::escape::lemma_escaped_chars(v.0);
    crate::escape::lemma_unescape_escaped(v.0);
    lemma_lit_part(s, 0, p, 0, e);
    let a = p[0].len();
    lemma_field_part(s, a, p, 1, e, '"');
    let e0 = a + p[1].len();
    lemma_int_part(s, e0, p, 2, e, v.1 as int, 0, u32::MAX as int);
    let e1 = e0 + p[2].len() + p[3].len();
    lemma_int_part(s, e1, p, 4, e, v.2 as int, 0, u32::MAX as int);
    let e2 = e1 + p[4].len() + p[5].len();
    lemma_lit_part(s, e2, p, 6, e);
    let p3 = e2 + p[6].len();
    lemma_peel(s, p3, p, 7, e);
    lemma_cat_step(p, 8);
    let r9 = cat(p.skip(9)) + e;
    vstd::seq_lib::lemma_concat_associative("\n<defs>\n"@, cat(p.skip(9)), e);
    assert(s.skip(p3 as int) == gvs_text(v.3) + ("\n<defs>\n"@ + r9));
    lemma_stamps_at(s, p3, v.3, r9);
    let p4 = if v.3.len() == 0 {
        p3
    } else {
        p3 + gvs_text(v.3).len() + 1
    };
    lemma_lit(s, p3, gvs_text(v.3), "\n<defs>\n"@ + r9);
    let mid = p3 + gvs_text(v.3).len();
    assert("\n<defs>\n"@ + r9 =~= "\n"@ + ("<defs>\n"@ + r9));
    lemma_lit(s, mid, "\n"@, "<defs>\n"@ + r9);
    let p5 = mid + 1;
    if v.3.len() == 0 {
        assert(gvs_text(v.3) =~= Seq::<char>::empty());
    }
    lemma_defs_part(s, p5, v, r9);
}

#[verifier::rlimit(100)]
proof fn lemma_defs_part(s: Seq<char>, p5: nat, v: DocView, r9: Seq<char>)
    requires
        doc_ok(v),
        s == dv_text(v),
        p5 <= s.len(),
        r9 == cat(dv_parts(v).skip(9)) + Seq::<char>::empty(),
        s.skip(p5 as int) == "<defs>\n"@ + r9,
    ensures
        defs_at(s, p5) == Ok::<_, ParseError>((v.4, v.5)),
{
    let p = dv_parts(v);
    let e = Seq::<char>::empty();
    reveal_strlit("<defs>\n");
    reveal_strlit("</defs>\n</svg>");
    lemma_lit(s, p5, "<defs>\n"@, r9);
    let p6 = p5 + 7;
    lemma_peel(s, p6, p, 9, e);
    lemma_cat_step(p, 10);
    lemma_cat_step(p, 11);
    assert(p.skip(12) =~= Seq::<Seq<char>>::empty());
    let tail = "</defs>\n</svg>"@;
    assert(cat(p.skip(11)) =~= tail);
    assert(cat(p.skip(10)) + e =~= mvs_text(v.5) + tail);
    lemma_masks_next(v.5, tail);
    lemma_clips_at(s, p6, v.4, mvs_text(v.5) + tail);
    let p7 = p6 + cvs_text(v.4).len();
    assert(tail[1] != 'm');
    lemma_masks_at(s, p7, v.5, tail);
    let p8 = p7 + mvs_text(v.5).len();
    assert(s.skip(p8 as int) == tail + e);
    lemma_lit(s, p8, tail, e);
    assert(s.skip(p8 as int).len() == tail.len());
}

/// The text of a document view that can be read back decodes to that view.
pub proof fn lemma_document_round_trip(v: DocView)
    requires
        doc_ok(v),
    ensures
        decode_svg(dv_text(v)) == Ok::<_, ParseError>(v),
{
    lemma_doc_at(v);
}

pub open spec fn mask_views(ids: Seq<Seq<char>>, contents: Seq<String>) -> Seq<MaskView> {
    Seq::new(ids.len(), |i: int| (ids[i], contents[i]@))
}

proof fn lemma_gen_masks_view(ids: Seq<Seq<char>>, contents: Seq<String>)
    requires
        ids.len() == contents.len(),
    ensures
        crate::document::gen_masks_text(ids, contents) == mvs_text(mask_views(ids, contents)),
    decreases ids.len(),
{
    if ids.len() > 0 {
        lemma_gen_masks_view(ids.skip(1), contents.skip(1));
        assert(mask_views(ids.skip(1), contents.skip(1)) =~= mask_views(ids, contents).skip(1));
    } else {
        assert(mask_views(ids, contents) =~= Seq::<MaskView>::empty());
    }
}

/// Encoding a document and decoding the text gives back its placements and
/// clip paths, and its version, at the canvas size that was written; the
/// mask entries are the ones written. This holds for placements with a
/// well-formed transform and a source url without `)`, clip paths with at
/// least one well-formed point, and mask contents whose own mask elements
/// are balanced.
#[verifier::rlimit(60)]
pub proof fn lemma_encode_decode(
    d: SVG,
    width: u32,
    height: u32,
    urls: Seq<Seq<char>>,
    contents: Seq<String>,
)
    requires
        urls.len() == contents.len(),
        forall|i: int| 0 <= i < d.stamps@.len() ==> placement_ok(g_view(#[trigger] d.stamps@[i])),
        forall|i: int|
            0 <= i < d.defs.clipPath@.len() ==> clip_ok(clip_view(#[trigger] d.defs.clipPath@[i])),
        forall|i: int| 0 <= i < contents.len() ==> mask_closes((#[trigger] contents[i])@),
    ensures
        decode_svg(
            crate::document::doc_text(
                d.version@,
                width,
                height,
                d.stamps@,
                d.defs.clipPath@,
                crate::document::gen_masks_text(urls, contents),
            ),
        ) == Ok::<_, ParseError>(
            (
                d.version@,
                width,
                height,
                d.stamps@.map_values(|p: g| g_view(p)),
                d.defs.clipPath@.map_values(|c: ClipPath| clip_view(c)),
                mask_views(urls, contents),
            ),
        ),
{
    let v: DocView = (
        d.version@,
        width,
        height,
        d.stamps@.map_values(|p: g| g_view(p)),
        d.defs.clipPath@.map_values(|c: ClipPath| clip_view(c)),
        mask_views(urls, contents),
    );
    lemma_stamps_view(d.stamps@);
    lemma_clips_view(d.defs.clipPath@);
    lemma_gen_masks_view(urls, contents);
    assert(crate::document::doc_parts(
        d.version@,
        width,
        height,
        d.stamps@,
        d.defs.clipPath@,
        crate::document::gen_masks_text(urls, contents),
    ) =~= dv_parts(v));
    assert forall|i: int| 0 <= i < v.3.len() implies placement_ok(#[trigger] v.3[i]) by {
        assert(v.3[i] == g_view(d.stamps@[i]));
    }
    assert forall|i: int| 0 <= i < v.4.len() implies clip_ok(#[trigger] v.4[i]) by {
        assert(v.4[i] == clip_view(d.defs.clipPath@[i]));
    }
    assert forall|i: int| 0 <= i < v.5.len() implies mask_closes((#[trigger] v.5[i]).1) by {
        assert(v.5[i].1 == contents[i]@);
    }
    lemma_document_round_trip(v);
}

} // verus!
