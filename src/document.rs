//! The scene document: placements of stamp images, clip paths and masks, and
//! its markup text.
use vstd::prelude::*;
use crate::color::{color_text, Color};
use crate::decimal::{dec_text, push_decimal, Decimal};
use crate::escape::{escaped, push_escaped};
use crate::points::{points_text, push_points, Point};
use crate::text::{
    chars_of, lemma_lex_irrefl, lemma_lex_total, lemma_lex_trans, lex_less, lex_lt, push_all,
    push_str, string_from_chars,
};
use crate::transform::{transform_text, Transform};
use crate::reader::{
    cat, clip_attr_text, clip_view, cv_parts, cv_text, g_view, gv_parts, gv_text, lemma_cat_advance,
    lemma_cat_done, lemma_cat_start, mask_view, mv_parts, mv_text,
};

verus! {

/// Which source image a placement shows, and which clip path, if any
/// (`clip` is empty for none), cuts it.
#[derive(Clone, Debug, PartialEq, Eq, Hash)]
pub struct HrefAndClipMask {
    pub url: String,
    pub clip: String,
}

/// The image of a placement, in the placement's local frame.
#[derive(Clone, Debug, PartialEq, Eq)]
pub struct Image {
    pub x: i32,
    pub y: i32,
    pub width: u32,
    pub height: u32,
    pub href: HrefAndClipMask,
    pub fill: Color,
}

/// One placement: a transform and the image it places.
#[allow(non_camel_case_types)]
#[derive(Clone, Debug, PartialEq, Eq)]
pub struct g {
    pub transform: Transform,
    pub rect: Image,
}

#[derive(Clone, Debug, PartialEq, Eq, Default)]
pub struct Polygon {
    pub points: Vec<Point>,
}

#[derive(Clone, Debug, PartialEq, Eq)]
pub struct ClipPath {
    pub id: String,
    pub polygon: Polygon,
}

/// Where a stamp's image lies in a source sheet.
#[derive(Clone, Debug, PartialEq, Eq)]
pub struct SourceStamp {
    pub href: String,
    pub x: u32,
    pub y: u32,
    pub width: u32,
    pub height: u32,
}

/// A mask definition: the id is the source url of a stamp, and the content is
/// that stamp's own markup, kept verbatim.
#[derive(Clone, Debug, PartialEq, Eq)]
pub struct Mask {
    pub id: String,
    pub content: String,
}

#[allow(non_camel_case_types, non_snake_case)]
#[derive(Clone, Debug, PartialEq, Eq)]
pub struct defs {
    pub clipPath: Vec<ClipPath>,
    pub mask: Vec<Mask>,
}

/// The document: canvas size, definitions and the placements in order.
#[derive(Clone, Debug, PartialEq, Eq)]
pub struct SVG {
    pub version: String,
    pub width: u32,
    pub height: u32,
    pub defs: defs,
    pub stamps: Vec<g>,
}

pub open spec fn int_dec(v: int) -> Decimal {
    Decimal { neg: v < 0, mant: (if v < 0 {
        -v
    } else {
        v
    }) as u64, scale: 0, exp: 0 }
}

pub open spec fn int_text(v: int) -> Seq<char> {
    dec_text(int_dec(v))
}

#[verifier::opaque]
pub open spec fn image_text(im: Image) -> Seq<char> {
    "<rect x=\""@ + int_text(im.x as int) + "\" y=\""@ + int_text(im.y as int) + "\" width=\""@
        + int_text(im.width as int) + "\" height=\""@ + int_text(im.height as int)
        + "\" fill=\""@ + color_text(im.fill) + "\" mask=\"url(#"@ + escaped(im.href.url@)
        + ")\""@ + (if im.href.clip@.len() > 0 {
        " clip-path=\""@ + escaped(im.href.clip@) + "\""@
    } else {
        Seq::empty()
    }) + "/>"@
}

#[verifier::opaque]
pub open spec fn g_text(p: g) -> Seq<char> {
    gv_text(g_view(p))
}

/// The placements, one after another, separated by line breaks.
pub open spec fn stamps_text(ps: Seq<g>) -> Seq<char>
    decreases ps.len(),
{
    if ps.len() == 0 {
        Seq::empty()
    } else if ps.len() == 1 {
        g_text(ps[0])
    } else {
        g_text(ps[0]) + "\n"@ + stamps_text(ps.skip(1))
    }
}

#[verifier::opaque]
pub open spec fn clip_text(c: ClipPath) -> Seq<char> {
    cv_text(clip_view(c))
}

pub open spec fn clips_text(cs: Seq<ClipPath>) -> Seq<char>
    decreases cs.len(),
{
    if cs.len() == 0 {
        Seq::empty()
    } else {
        clip_text(cs[0]) + clips_text(cs.skip(1))
    }
}

#[verifier::opaque]
pub open spec fn mask_text(m: Mask) -> Seq<char> {
    mv_text(mask_view(m))
}

pub open spec fn masks_text(ms: Seq<Mask>) -> Seq<char>
    decreases ms.len(),
{
    if ms.len() == 0 {
        Seq::empty()
    } else {
        mask_text(ms[0]) + masks_text(ms.skip(1))
    }
}

/// Mask entries made from the given ids and contents, pair by pair.
pub open spec fn gen_masks_text(ids: Seq<Seq<char>>, contents: Seq<String>) -> Seq<char>
    decreases ids.len(),
{
    if ids.len() == 0 || contents.len() == 0 {
        Seq::empty()
    } else {
        mv_text((ids[0], contents[0]@)) + gen_masks_text(ids.skip(1), contents.skip(1))
    }
}

/// A document with the given parts, where `masks` is the text of its mask
/// entries.
pub open spec fn doc_text(
    version: Seq<char>,
    width: u32,
    height: u32,
    stamps: Seq<g>,
    clips: Seq<ClipPath>,
    masks: Seq<char>,
) -> Seq<char> {
    cat(doc_parts(version, width, height, stamps, clips, masks))
}

pub open spec fn doc_parts(
    version: Seq<char>,
    width: u32,
    height: u32,
    stamps: Seq<g>,
    clips: Seq<ClipPath>,
    masks: Seq<char>,
) -> Seq<Seq<char>> {
    seq![
        "<svg version=\""@,
        escaped(version),
        "\" width=\""@,
        int_text(width as int),
        "\" height=\""@,
        int_text(height as int),
        "\" xmlns=\"http://www.w3.org/2000/svg\">\n"@,
        stamps_text(stamps),
        "\n<defs>\n"@,
        clips_text(clips),
        masks,
        "</defs>\n</svg>"@,
    ]
}

/// The whole document as markup.
pub open spec fn svg_text(d: SVG) -> Seq<char> {
    doc_text(
        d.version@,
        d.width,
        d.height,
        d.stamps@,
        d.defs.clipPath@,
        masks_text(d.defs.mask@),
    )
}

pub open spec fn views(v: Seq<String>) -> Seq<Seq<char>> {
    v.map_values(|x: String| x@)
}

/// The source urls of the placements, each once, in increasing order.
pub open spec fn sorted_urls(urls: Seq<Seq<char>>, stamps: Seq<g>) -> bool {
    &&& forall|i: int, j: int| 0 <= i < j < urls.len() ==> lex_lt(urls[i], urls[j])
    &&& forall|u: Seq<char>|
        urls.contains(u) <==> exists|k: int| 0 <= k < stamps.len() && #[trigger] stamps[k].rect.href.url@ == u
}

/// The canvas bound grown to cover every extent.
pub open spec fn grown(base: u32, extents: Seq<u32>) -> u32
    decreases extents.len(),
{
    if extents.len() == 0 {
        base
    } else {
        let rest = grown(base, extents.drop_last());
        if extents.last() > rest {
            extents.last()
        } else {
            rest
        }
    }
}

fn push_int(out: &mut Vec<char>, v: i64)
    requires
        v > i64::MIN,
    ensures
        final(out)@ == old(out)@ + int_text(v as int),
{
    let d = Decimal {
        neg: v < 0,
        mant: if v < 0 {
            (-v) as u64
        } else {
            v as u64
        },
        scale: 0,
        exp: 0,
    };
    push_decimal(out, &d);
}

fn push_escaped_str(out: &mut Vec<char>, s: &String)
    ensures
        final(out)@ == old(out)@ + escaped(s@),
{
    let v = chars_of(s.as_str());
    push_escaped(out, &v);
}

impl Image {
    pub fn push_text(&self, out: &mut Vec<char>)
        ensures
            final(out)@ == old(out)@ + image_text(*self),
    {
        push_str(out, "<rect x=\"");
        push_int(out, self.x as i64);
        push_str(out, "\" y=\"");
        push_int(out, self.y as i64);
        push_str(out, "\" width=\"");
        push_int(out, self.width as i64);
        push_str(out, "\" height=\"");
        push_int(out, self.height as i64);
        push_str(out, "\" fill=\"");
        self.fill.push_text(out);
        push_str(out, "\" mask=\"url(#");
        push_escaped_str(out, &self.href.url);
        push_str(out, ")\"");
        let ghost mid = out@;
        if self.href.clip.as_str().unicode_len() > 0 {
            push_str(out, " clip-path=\"");
            push_escaped_str(out, &self.href.clip);
            push_str(out, "\"");
        }
        push_str(out, "/>");
        reveal(image_text);
        assert(final(out)@ =~= old(out)@ + image_text(*self));
    }

    /// The image element.
    pub fn to_string(&self) -> (s: String)
        ensures
            s@ == image_text(*self),
    {
        let mut out: Vec<char> = Vec::new();
        self.push_text(&mut out);
        assert(out@ =~= image_text(*self));
        string_from_chars(&out)
    }
}

impl g {
    pub fn push_text(&self, out: &mut Vec<char>)
        ensures
            final(out)@ == old(out)@ + g_text(*self),
    {
        let ghost o = old(out)@;
        let ghost parts = gv_parts(g_view(*self));
        let im = &self.rect;
        proof {
            lemma_cat_start(o, parts);
        }
        let ghost b = out@;
        push_str(out, "<g transform=\"");
        proof { lemma_cat_advance(o, b, parts, 0); }
        let ghost b = out@;
        let t = chars_of(self.transform.to_string().as_str());
        push_all(out, &t);
        proof { lemma_cat_advance(o, b, parts, 1); }
        let ghost b = out@;
        push_str(out, "\">\n<rect x=\"");
        proof { lemma_cat_advance(o, b, parts, 2); }
        let ghost b = out@;
        push_int(out, im.x as i64);
        proof { lemma_cat_advance(o, b, parts, 3); }
        let ghost b = out@;
        push_str(out, "\" y=\"");
        proof { lemma_cat_advance(o, b, parts, 4); }
        let ghost b = out@;
        push_int(out, im.y as i64);
        proof { lemma_cat_advance(o, b, parts, 5); }
        let ghost b = out@;
        push_str(out, "\" width=\"");
        proof { lemma_cat_advance(o, b, parts, 6); }
        let ghost b = out@;
        push_int(out, im.width as i64);
        proof { lemma_cat_advance(o, b, parts, 7); }
        let ghost b = out@;
        push_str(out, "\" height=\"");
        proof { lemma_cat_advance(o, b, parts, 8); }
        let ghost b = out@;
        push_int(out, im.height as i64);
        proof { lemma_cat_advance(o, b, parts, 9); }
        let ghost b = out@;
        push_str(out, "\" fill=\"");
        proof { lemma_cat_advance(o, b, parts, 10); }
        let ghost b = out@;
        im.fill.push_text(out);
        proof { lemma_cat_advance(o, b, parts, 11); }
        let ghost b = out@;
        push_str(out, "\" mask=\"url(#");
        proof { lemma_cat_advance(o, b, parts, 12); }
        let ghost b = out@;
        push_escaped_str(out, &im.href.url);
        proof { lemma_cat_advance(o, b, parts, 13); }
        let ghost b = out@;
        push_str(out, ")\"");
        proof { lemma_cat_advance(o, b, parts, 14); }
        let ghost b = out@;
        if im.href.clip.as_str().unicode_len() > 0 {
            push_str(out, " clip-path=\"");
            push_escaped_str(out, &im.href.clip);
            push_str(out, "\"");
        }
        proof {
            assert(out@ =~= b + clip_attr_text(im.href.clip@));
            lemma_cat_advance(o, b, parts, 15);
        }
        let ghost b = out@;
        push_str(out, "/>\n</g>");
        proof {
            lemma_cat_advance(o, b, parts, 16);
            lemma_cat_done(o, out@, parts);
            reveal(g_text);
        }
    }
}

impl ClipPath {
    pub fn push_text(&self, out: &mut Vec<char>)
        ensures
            final(out)@ == old(out)@ + clip_text(*self),
    {
        let ghost o = old(out)@;
        let ghost parts = cv_parts(clip_view(*self));
        proof {
            lemma_cat_start(o, parts);
        }
        let ghost b = out@;
        push_str(out, "<clipPath id=\"");
        proof { lemma_cat_advance(o, b, parts, 0); }
        let ghost b = out@;
        push_escaped_str(out, &self.id);
        proof { lemma_cat_advance(o, b, parts, 1); }
        let ghost b = out@;
        push_str(out, "\">\n<polygon points=\"");
        proof { lemma_cat_advance(o, b, parts, 2); }
        let ghost b = out@;
        push_points(out, &self.polygon.points);
        proof { lemma_cat_advance(o, b, parts, 3); }
        let ghost b = out@;
        push_str(out, "\"/>\n</clipPath>\n");
        proof {
            lemma_cat_advance(o, b, parts, 4);
            lemma_cat_done(o, out@, parts);
            reveal(clip_text);
        }
    }
}

impl Mask {
    pub fn push_text(&self, out: &mut Vec<char>)
        ensures
            final(out)@ == old(out)@ + mask_text(*self),
    {
        push_mask(out, &self.id, &self.content);
        proof {
            reveal(mask_text);
        }
    }
}

fn push_mask(out: &mut Vec<char>, id: &String, content: &String)
    ensures
        final(out)@ == old(out)@ + mv_text((id@, content@)),
{
    let ghost o = old(out)@;
    let ghost parts = mv_parts((id@, content@));
    proof {
        lemma_cat_start(o, parts);
    }
    let ghost b = out@;
    push_str(out, "<mask id=\"");
    proof { lemma_cat_advance(o, b, parts, 0); }
    let ghost b = out@;
    push_escaped_str(out, id);
    proof { lemma_cat_advance(o, b, parts, 1); }
    let ghost b = out@;
    push_str(out, "\">");
    proof { lemma_cat_advance(o, b, parts, 2); }
    let ghost b = out@;
    push_str(out, content.as_str());
    proof { lemma_cat_advance(o, b, parts, 3); }
    let ghost b = out@;
    push_str(out, "</mask>\n");
    proof {
        lemma_cat_advance(o, b, parts, 4);
        lemma_cat_done(o, out@, parts);
    }
}

proof fn lemma_stamps_text_split(ps: Seq<g>, i: int)
    requires
        0 <= i < ps.len(),
    ensures
        stamps_text(ps.skip(i)) == g_text(ps[i]) + (if i + 1 < ps.len() {
            "\n"@ + stamps_text(ps.skip(i + 1))
        } else {
            Seq::empty()
        }),
{
    assert(ps.skip(i).skip(1) =~= ps.skip(i + 1));
    if i + 1 >= ps.len() {
        assert(ps.skip(i).len() == 1);
        assert(g_text(ps[i]) + Seq::<char>::empty() =~= g_text(ps[i]));
    }
}

fn push_stamps(out: &mut Vec<char>, ps: &Vec<g>)
    ensures
        final(out)@ == old(out)@ + stamps_text(ps@),
{
    let ghost start = out@;
    let mut i: usize = 0;
    while i < ps.len()
        invariant
            i <= ps.len(),
            start == old(out)@,
            i == 0 ==> out@ == start,
            i > 0 ==> out@ + (if i < ps.len() {
                "\n"@ + stamps_text(ps@.skip(i as int))
            } else {
                Seq::empty()
            }) == start + stamps_text(ps@),
        decreases ps.len() - i,
    {
        if i > 0 {
            push_str(out, "\n");
        }
        ps[i].push_text(out);
        proof {
            lemma_stamps_text_split(ps@, i as int);
        }
        i = i + 1;
    }
    proof {
        if ps.len() == 0 {
            assert(stamps_text(ps@) =~= Seq::<char>::empty());
        }
    }
    assert(out@ =~= start + stamps_text(ps@));
}

fn push_clips(out: &mut Vec<char>, cs: &Vec<ClipPath>)
    ensures
        final(out)@ == old(out)@ + clips_text(cs@),
{
    let mut i: usize = 0;
    assert(cs@.skip(0) =~= cs@);
    while i < cs.len()
        invariant
            i <= cs.len(),
            out@ + clips_text(cs@.skip(i as int)) == old(out)@ + clips_text(cs@),
        decreases cs.len() - i,
    {
        assert(cs@.skip(i as int).skip(1) =~= cs@.skip(i + 1));
        cs[i].push_text(out);
        i = i + 1;
    }
    assert(clips_text(cs@.skip(i as int)) =~= Seq::<char>::empty());
    assert(out@ =~= old(out)@ + clips_text(cs@));
}

fn push_masks(out: &mut Vec<char>, ms: &Vec<Mask>)
    ensures
        final(out)@ == old(out)@ + masks_text(ms@),
{
    let mut i: usize = 0;
    assert(ms@.skip(0) =~= ms@);
    while i < ms.len()
        invariant
            i <= ms.len(),
            out@ + masks_text(ms@.skip(i as int)) == old(out)@ + masks_text(ms@),
        decreases ms.len() - i,
    {
        assert(ms@.skip(i as int).skip(1) =~= ms@.skip(i + 1));
        ms[i].push_text(out);
        i = i + 1;
    }
    assert(masks_text(ms@.skip(i as int)) =~= Seq::<char>::empty());
    assert(out@ =~= old(out)@ + masks_text(ms@));
}

fn push_gen_masks(out: &mut Vec<char>, ids: &Vec<String>, contents: &Vec<String>)
    requires
        ids.len() == contents.len(),
    ensures
        final(out)@ == old(out)@ + gen_masks_text(views(ids@), contents@),
{
    let ghost idv = views(ids@);
    let mut i: usize = 0;
    assert(idv.skip(0) =~= idv);
    assert(contents@.skip(0) =~= contents@);
    while i < ids.len()
        invariant
            i <= ids.len() == contents.len(),
            idv == views(ids@),
            out@ + gen_masks_text(idv.skip(i as int), contents@.skip(i as int)) == old(out)@
                + gen_masks_text(idv, contents@),
        decreases ids.len() - i,
    {
        assert(idv.skip(i as int).skip(1) =~= idv.skip(i + 1));
        assert(contents@.skip(i as int).skip(1) =~= contents@.skip(i + 1));
        assert(idv.skip(i as int)[0] == ids@[i as int]@);
        push_mask(out, &ids[i], &contents[i]);
        i = i + 1;
    }
    assert(gen_masks_text(idv.skip(i as int), contents@.skip(i as int)) =~= Seq::<char>::empty());
    assert(out@ =~= old(out)@ + gen_masks_text(idv, contents@));
}

fn push_doc(
    out: &mut Vec<char>,
    version: &String,
    width: u32,
    height: u32,
    stamps: &Vec<g>,
    clips: &Vec<ClipPath>,
    masks: &Vec<char>,
)
    ensures
        final(out)@ == old(out)@ + doc_text(version@, width, height, stamps@, clips@, masks@),
{
    let ghost o = old(out)@;
    let ghost parts = doc_parts(version@, width, height, stamps@, clips@, masks@);
    proof {
        lemma_cat_start(o, parts);
    }
    let ghost b = out@;
    push_str(out, "<svg version=\"");
    proof { lemma_cat_advance(o, b, parts, 0); }
    let ghost b = out@;
    push_escaped_str(out, version);
    proof { lemma_cat_advance(o, b, parts, 1); }
    let ghost b = out@;
    push_str(out, "\" width=\"");
    proof { lemma_cat_advance(o, b, parts, 2); }
    let ghost b = out@;
    push_int(out, width as i64);
    proof { lemma_cat_advance(o, b, parts, 3); }
    let ghost b = out@;
    push_str(out, "\" height=\"");
    proof { lemma_cat_advance(o, b, parts, 4); }
    let ghost b = out@;
    push_int(out, height as i64);
    proof { lemma_cat_advance(o, b, parts, 5); }
    let ghost b = out@;
    push_str(out, "\" xmlns=\"http://www.w3.org/2000/svg\">\n");
    proof { lemma_cat_advance(o, b, parts, 6); }
    let ghost b = out@;
    push_stamps(out, stamps);
    proof { lemma_cat_advance(o, b, parts, 7); }
    let ghost b = out@;
    push_str(out, "\n<defs>\n");
    proof { lemma_cat_advance(o, b, parts, 8); }
    let ghost b = out@;
    push_clips(out, clips);
    proof { lemma_cat_advance(o, b, parts, 9); }
    let ghost b = out@;
    push_all(out, masks);
    proof { lemma_cat_advance(o, b, parts, 10); }
    let ghost b = out@;
    push_str(out, "</defs>\n</svg>");
    proof {
        lemma_cat_advance(o, b, parts, 11);
        lemma_cat_done(o, out@, parts);
    }
}

fn insert_sorted(urls: &mut Vec<String>, u: &String)
    requires
        forall|i: int, j: int| 0 <= i < j < old(urls)@.len() ==> lex_lt(old(urls)@[i]@, old(urls)@[j]@),
    ensures
        forall|i: int, j: int| 0 <= i < j < final(urls)@.len() ==> lex_lt(final(urls)@[i]@, final(urls)@[j]@),
        forall|w: Seq<char>|
            #[trigger] views(final(urls)@).contains(w) <==> (views(old(urls)@).contains(w) || w == u@),
{
    let uc = chars_of(u.as_str());
    let mut p: usize = 0;
    loop
        invariant
            p <= urls.len(),
            urls@ == old(urls)@,
            uc@ == u@,
            forall|k: int| 0 <= k < p ==> lex_lt(#[trigger] urls@[k]@, u@),
        ensures
            p <= urls.len(),
            urls@ == old(urls)@,
            forall|k: int| 0 <= k < p ==> lex_lt(#[trigger] urls@[k]@, u@),
            p < urls.len() ==> !lex_lt(urls@[p as int]@, u@),
        decreases urls.len() - p,
    {
        if p >= urls.len() {
            break;
        }
        let c = chars_of(urls[p].as_str());
        if !lex_less(&c, &uc) {
            break;
        }
        p = p + 1;
    }
    let ghost f = |x: String| x@;
    if p < urls.len() && urls[p] == *u {
        proof {
            assert(views(urls@)[p as int] == u@);
            assert(views(urls@).contains(u@));
            assert forall|w: Seq<char>| #[trigger] views(urls@).contains(w) <==> (views(old(urls)@).contains(w) || w == u@) by {}
        }
        return;
    }
    proof {
        if p < urls.len() {
            lemma_lex_total(urls@[p as int]@, u@);
        }
    }
    let ghost before = urls@;
    urls.insert(p, u.clone());
    proof {
        assert forall|i: int, j: int| 0 <= i < j < urls@.len() implies lex_lt(urls@[i]@, urls@[j]@) by {
            if j == p {
            } else if i == p {
                if j - 1 > p {
                    lemma_lex_trans(u@, before[p as int]@, before[j - 1]@);
                }
            } else if i < p && j > p {
                if j - 1 > p {
                    lemma_lex_trans(u@, before[p as int]@, before[j - 1]@);
                }
                lemma_lex_trans(before[i]@, u@, before[j - 1]@);
            }
        }
        assert forall|w: Seq<char>| #[trigger] views(urls@).contains(w) <==> (views(old(urls)@).contains(w) || w == u@) by {
            if views(urls@).contains(w) {
                let k = choose|k: int| 0 <= k < urls@.len() && views(urls@)[k] == w;
                if k < p {
                    assert(views(before)[k] == w);
                    assert(views(before).contains(w));
                } else if k > p {
                    assert(views(before)[k - 1] == w);
                    assert(views(before).contains(w));
                }
            }
            if views(before).contains(w) {
                let k = choose|k: int| 0 <= k < before.len() && views(before)[k] == w;
                if k < p {
                    assert(views(urls@)[k] == w);
                } else {
                    assert(views(urls@)[k + 1] == w);
                }
                assert(views(urls@).contains(w));
            }
            if w == u@ {
                assert(views(urls@)[p as int] == w);
                assert(views(urls@).contains(w));
            }
        }
    }
}

impl SVG {
    /// An empty document of the given canvas size.
    pub fn new(width: u32, height: u32) -> (r: SVG)
        ensures
            r.version@ == "2.0"@,
            r.width == width,
            r.height == height,
            r.stamps@.len() == 0,
            r.defs.clipPath@.len() == 0,
            r.defs.mask@.len() == 0,
    {
        SVG {
            version: String::from_str("2.0"),
            width,
            height,
            stamps: Vec::new(),
            defs: defs { clipPath: Vec::new(), mask: Vec::new() },
        }
    }

    pub fn resize(&mut self, width: u32, height: u32)
        ensures
            final(self).width == width,
            final(self).height == height,
            final(self).version == old(self).version,
            final(self).stamps == old(self).stamps,
            final(self).defs == old(self).defs,
    {
        self.width = width;
        self.height = height;
    }

    /// Appends a placement of `img` under `transform`. The image sits at the
    /// local origin and is as large as the box whose center is the pivot,
    /// rounded to whole units.
    pub fn add(&mut self, transform: Transform, img: String, clip_mask: String, color: Color)
        ensures
            final(self).stamps@ == old(self).stamps@.push(
                g {
                    transform,
                    rect: Image {
                        x: 0,
                        y: 0,
                        width: transform.midx.double_round_spec(),
                        height: transform.midy.double_round_spec(),
                        href: HrefAndClipMask { url: img, clip: clip_mask },
                        fill: color,
                    },
                },
            ),
            final(self).version == old(self).version,
            final(self).width == old(self).width,
            final(self).height == old(self).height,
            final(self).defs == old(self).defs,
    {
        let width = transform.midx.double_round_u32();
        let height = transform.midy.double_round_u32();
        self.stamps.push(
            g {
                transform,
                rect: Image {
                    x: 0,
                    y: 0,
                    fill: color,
                    width,
                    height,
                    href: HrefAndClipMask { url: img, clip: clip_mask },
                },
            },
        );
    }

    /// The document's markup exactly as it stands, definitions included.
    pub fn render(&self) -> (s: String)
        ensures
            s@ == svg_text(*self),
    {
        let mut masks: Vec<char> = Vec::new();
        push_masks(&mut masks, &self.defs.mask);
        let mut out: Vec<char> = Vec::new();
        push_doc(
            &mut out,
            &self.version,
            self.width,
            self.height,
            &self.stamps,
            &self.defs.clipPath,
            &masks,
        );
        assert(out@ =~= svg_text(*self));
        string_from_chars(&out)
    }

    /// The source urls of the placements, each once, in increasing order:
    /// the ids of the mask entries that encoding writes. The set is kept as
    /// a sorted `Vec` with its own order on characters: the order of `str`
    /// that a `BTreeSet<String>` would walk in is not one Verus can state.
    pub fn mask_urls(&self) -> (r: Vec<String>)
        ensures
            sorted_urls(views(r@), self.stamps@),
    {
        let ghost f = |u: String| u@;
        let mut urls: Vec<String> = Vec::new();
        let mut k: usize = 0;
        while k < self.stamps.len()
            invariant
                k <= self.stamps.len(),
                forall|i: int, j: int| 0 <= i < j < urls@.len() ==> lex_lt(urls@[i]@, urls@[j]@),
                forall|w: Seq<char>|
                    #[trigger] views(urls@).contains(w) <==> exists|m: int|
                        0 <= m < k && #[trigger] self.stamps@[m].rect.href.url@ == w,
            decreases self.stamps.len() - k,
        {
            insert_sorted(&mut urls, &self.stamps[k].rect.href.url);
            proof {
                assert forall|w: Seq<char>|
                    views(urls@).contains(w) <==> exists|m: int|
                        0 <= m < k + 1 && #[trigger] self.stamps@[m].rect.href.url@ == w by {
                    if w == self.stamps@[k as int].rect.href.url@ {
                        assert(0 <= k < k + 1);
                    }
                    if exists|m: int| 0 <= m < k + 1 && #[trigger] self.stamps@[m].rect.href.url@ == w {
                        let m = choose|m: int| 0 <= m < k + 1 && #[trigger] self.stamps@[m].rect.href.url@ == w;
                        if m < k {
                        }
                    }
                }
            }
            k = k + 1;
        }
        proof {
            let v = views(urls@);
            assert forall|i: int, j: int| 0 <= i < j < v.len() implies lex_lt(v[i], v[j]) by {}
        }
        urls
    }

    /// The markup written when the document is saved. The canvas grows to
    /// cover each placement's extent (`extents`, one per placement, in
    /// order), and one mask entry is written for each of
    /// [`SVG::mask_urls`], holding the matching entry of `contents`. `None`
    /// when either list does not match in length.
    pub fn to_string(&self, extents: &Vec<(u32, u32)>, contents: &Vec<String>) -> (r: Option<String>)
        ensures
            match r {
                Some(s) => exists|urls: Seq<Seq<char>>|
                    sorted_urls(urls, self.stamps@) && urls.len() == contents.len() && s@ == doc_text(
                        self.version@,
                        grown(self.width, extents@.map_values(|e: (u32, u32)| e.0)),
                        grown(self.height, extents@.map_values(|e: (u32, u32)| e.1)),
                        self.stamps@,
                        self.defs.clipPath@,
                        gen_masks_text(urls, contents@),
                    ),
                None => extents.len() != self.stamps.len() || forall|urls: Seq<Seq<char>>|
                    sorted_urls(urls, self.stamps@) ==> urls.len() != contents.len(),
            },
    {
        let urls = self.mask_urls();
        if extents.len() != self.stamps.len() {
            return None;
        }
        if urls.len() != contents.len() {
            proof {
                assert forall|us: Seq<Seq<char>>| sorted_urls(us, self.stamps@) implies us.len()
                    != contents.len() by {
                    lemma_sorted_urls_unique(us, views(urls@), self.stamps@);
                }
            }
            return None;
        }
        let ghost ws = extents@.map_values(|e: (u32, u32)| e.0);
        let ghost hs = extents@.map_values(|e: (u32, u32)| e.1);
        let mut width = self.width;
        let mut height = self.height;
        let mut i: usize = 0;
        while i < extents.len()
            invariant
                i <= extents.len(),
                ws == extents@.map_values(|e: (u32, u32)| e.0),
                hs == extents@.map_values(|e: (u32, u32)| e.1),
                width == grown(self.width, ws.take(i as int)),
                height == grown(self.height, hs.take(i as int)),
            decreases extents.len() - i,
        {
            assert(ws.take(i + 1).drop_last() =~= ws.take(i as int));
            assert(hs.take(i + 1).drop_last() =~= hs.take(i as int));
            let (x, y) = extents[i];
            if x > width {
                width = x;
            }
            if y > height {
                height = y;
            }
            i = i + 1;
        }
        assert(ws.take(i as int) =~= ws);
        assert(hs.take(i as int) =~= hs);
        let mut masks: Vec<char> = Vec::new();
        push_gen_masks(&mut masks, &urls, contents);
        let mut out: Vec<char> = Vec::new();
        push_doc(&mut out, &self.version, width, height, &self.stamps, &self.defs.clipPath, &masks);
        Some(string_from_chars(&out))
    }
}

/// The sorted list of the placements' urls is unique.
proof fn lemma_sorted_urls_unique(a: Seq<Seq<char>>, b: Seq<Seq<char>>, stamps: Seq<g>)
    requires
        sorted_urls(a, stamps),
        sorted_urls(b, stamps),
    ensures
        a == b,
    decreases a.len() + b.len(),
{
    assert forall|u: Seq<char>| a.contains(u) <==> b.contains(u) by {
        if a.contains(u) {
            assert(exists|k: int| 0 <= k < stamps.len() && #[trigger] stamps[k].rect.href.url@ == u);
        }
        if b.contains(u) {
            assert(exists|k: int| 0 <= k < stamps.len() && #[trigger] stamps[k].rect.href.url@ == u);
        }
    }
    lemma_sorted_eq(a, b);
}

/// Two strictly increasing lists with the same elements are equal.
proof fn lemma_sorted_eq(a: Seq<Seq<char>>, b: Seq<Seq<char>>)
    requires
        forall|i: int, j: int| 0 <= i < j < a.len() ==> lex_lt(a[i], a[j]),
        forall|i: int, j: int| 0 <= i < j < b.len() ==> lex_lt(b[i], b[j]),
        forall|u: Seq<char>| a.contains(u) <==> b.contains(u),
    ensures
        a == b,
    decreases a.len() + b.len(),
{
    if a.len() == 0 {
        if b.len() > 0 {
            assert(b.contains(b[0]));
        }
        assert(a =~= b);
    } else if b.len() == 0 {
        assert(a.contains(a[0]));
    } else {
        // the first elements are the least ones, hence equal
        assert(a.contains(a[0]));
        assert(b.contains(b[0]));
        let ka = choose|k: int| 0 <= k < b.len() && b[k] == a[0];
        let kb = choose|k: int| 0 <= k < a.len() && a[k] == b[0];
        if a[0] != b[0] {
            assert(ka > 0 && kb > 0);
            lemma_lex_trans(a[0], a[kb], a[0]);
            lemma_lex_irrefl(a[0]);
            assert(lex_lt(b[0], b[ka]));
            assert(lex_lt(a[0], a[kb]));
        }
        let a1 = a.skip(1);
        let b1 = b.skip(1);
        assert forall|u: Seq<char>| a1.contains(u) <==> b1.contains(u) by {
            if a1.contains(u) {
                let k = choose|k: int| 0 <= k < a1.len() && a1[k] == u;
                assert(a[k + 1] == u);
                assert(a.contains(u));
                let m = choose|m: int| 0 <= m < b.len() && b[m] == u;
                lemma_lex_irrefl(u);
                if m == 0 {
                    assert(lex_lt(a[0], a[k + 1]));
                }
                assert(b1[m - 1] == u);
            }
            if b1.contains(u) {
                let k = choose|k: int| 0 <= k < b1.len() && b1[k] == u;
                assert(b[k + 1] == u);
                assert(b.contains(u));
                let m = choose|m: int| 0 <= m < a.len() && a[m] == u;
                lemma_lex_irrefl(u);
                if m == 0 {
                    assert(lex_lt(b[0], b[k + 1]));
                }
                assert(a1[m - 1] == u);
            }
        }
        lemma_sorted_eq(a1, b1);
        assert(a =~= seq![a[0]] + a1);
        assert(b =~= seq![b[0]] + b1);
    }
}

} // verus!
