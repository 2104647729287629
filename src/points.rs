//! Polygon point lists: `x y` pairs separated by commas, as in `1 2,3 4,5 6`.
use vstd::prelude::*;
use crate::decimal::{dec_text, push_decimal, Decimal};
use crate::number::{number_of, read_number};
use crate::error::ParseError;
use crate::text::{chars_of, find_char, string_from_chars};

verus! {

pub type Point = (Decimal, Decimal);

pub open spec fn is_ws(c: char) -> bool {
    c == ' ' || c == '\t' || c == '\n' || c == '\r'
}

/// The first index at or after `pos` whose character is (or, with `ws`
/// false, is not) white space; `s.len()` if there is none.
pub open spec fn find_ws(s: Seq<char>, pos: nat, ws: bool) -> nat
    decreases s.len() - pos,
{
    if pos >= s.len() {
        s.len()
    } else if is_ws(s[pos as int]) == ws {
        pos
    } else {
        find_ws(s, pos + 1, ws)
    }
}

/// The maximal runs of characters other than white space.
pub open spec fn words(s: Seq<char>) -> Seq<Seq<char>>
    decreases s.len(),
{
    let i = find_ws(s, 0, false);
    let j = find_ws(s, i, true);
    if i >= s.len() || j <= i || j > s.len() {
        Seq::empty()
    } else {
        seq![s.subrange(i as int, j as int)] + words(s.skip(j as int))
    }
}

/// One point: exactly two numbers between white space.
pub open spec fn point_of(seg: Seq<char>) -> Result<Point, ParseError> {
    let w = words(seg);
    if w.len() != 2 {
        Err(ParseError::PolygonPointCountError)
    } else {
        match (number_of(w[0]), number_of(w[1])) {
            (Some(x), Some(y)) => Ok((x, y)),
            _ => Err(ParseError::NumericParseError),
        }
    }
}

/// The points of a comma-separated list; the first bad pair decides the error.
pub open spec fn points_of(s: Seq<char>) -> Result<Seq<Point>, ParseError>
    decreases s.len(),
{
    let i = find_char(s, 0, ',');
    match point_of(s.take(i as int)) {
        Err(e) => Err(e),
        Ok(p) => if i >= s.len() {
            Ok(seq![p])
        } else {
            match points_of(s.skip((i + 1) as int)) {
                Ok(r) => Ok(seq![p] + r),
                Err(e) => Err(e),
            }
        },
    }
}

pub open spec fn point_text(p: Point) -> Seq<char> {
    dec_text(p.0) + seq![' '] + dec_text(p.1)
}

pub open spec fn points_text(ps: Seq<Point>) -> Seq<char>
    decreases ps.len(),
{
    if ps.len() == 0 {
        Seq::empty()
    } else if ps.len() == 1 {
        point_text(ps[0])
    } else {
        point_text(ps[0]) + seq![','] + points_text(ps.skip(1))
    }
}

fn find_ws_exec(s: &Vec<char>, lo: usize, hi: usize, pos: usize, ws: bool) -> (r: usize)
    requires
        lo <= pos <= hi <= s.len(),
    ensures
        lo <= pos <= r <= hi,
        r - lo == find_ws(s@.subrange(lo as int, hi as int), (pos - lo) as nat, ws),
{
    let ghost t = s@.subrange(lo as int, hi as int);
    let mut i = pos;
    while i < hi && (s[i] == ' ' || s[i] == '\t' || s[i] == '\n' || s[i] == '\r') != ws
        invariant
            lo <= pos <= i <= hi <= s.len(),
            t == s@.subrange(lo as int, hi as int),
            find_ws(t, (pos - lo) as nat, ws) == find_ws(t, (i - lo) as nat, ws),
        decreases hi - i,
    {
        assert(t[i - lo] == s@[i as int]);
        i = i + 1;
    }
    proof {
        if i < hi {
            assert(t[i - lo] == s@[i as int]);
        }
    }
    i
}

pub fn find_char_in(s: &Vec<char>, lo: usize, hi: usize, c: char) -> (r: usize)
    requires
        lo <= hi <= s.len(),
    ensures
        lo <= r <= hi,
        r - lo == find_char(s@.subrange(lo as int, hi as int), 0, c),
{
    let ghost t = s@.subrange(lo as int, hi as int);
    let mut i = lo;
    while i < hi && s[i] != c
        invariant
            lo <= i <= hi <= s.len(),
            t == s@.subrange(lo as int, hi as int),
            find_char(t, 0, c) == find_char(t, (i - lo) as nat, c),
        decreases hi - i,
    {
        assert(t[i - lo] == s@[i as int]);
        i = i + 1;
    }
    proof {
        if i < hi {
            assert(t[i - lo] == s@[i as int]);
        }
    }
    i
}

/// The words of `s[lo..hi]`, as ranges of `s`, up to the third one.
fn word_ranges(s: &Vec<char>, lo: usize, hi: usize) -> (r: Vec<(usize, usize)>)
    requires
        lo <= hi <= s.len(),
    ensures
        r.len() <= 3,
        r.len() < 3 ==> r.len() == words(s@.subrange(lo as int, hi as int)).len(),
        r.len() == 3 ==> words(s@.subrange(lo as int, hi as int)).len() >= 3,
        forall|k: int|
            0 <= k < r.len() ==> {
                let (a, b) = #[trigger] r@[k];
                lo <= a <= b <= hi && s@.subrange(a as int, b as int) == words(
                    s@.subrange(lo as int, hi as int),
                )[k]
            },
{
    let ghost whole = s@.subrange(lo as int, hi as int);
    let mut out: Vec<(usize, usize)> = Vec::new();
    let mut pos = lo;
    while out.len() < 3
        invariant
            lo <= pos <= hi <= s.len(),
            whole == s@.subrange(lo as int, hi as int),
            out.len() <= 3,
            words(whole) == out@.map_values(|p: (usize, usize)| s@.subrange(p.0 as int, p.1 as int))
                + words(s@.subrange(pos as int, hi as int)),
            forall|k: int|
                0 <= k < out.len() ==> {
                    let (a, b) = #[trigger] out@[k];
                    lo <= a <= b <= hi
                },
        ensures
            out.len() <= 3,
            out.len() < 3 ==> words(whole) == out@.map_values(
                |p: (usize, usize)| s@.subrange(p.0 as int, p.1 as int),
            ),
            words(whole) == out@.map_values(|p: (usize, usize)| s@.subrange(p.0 as int, p.1 as int))
                + words(s@.subrange(pos as int, hi as int)),
            forall|k: int|
                0 <= k < out.len() ==> {
                    let (a, b) = #[trigger] out@[k];
                    lo <= a <= b <= hi
                },
        decreases 3 - out.len(),
    {
        let ghost t = s@.subrange(pos as int, hi as int);
        let i = find_ws_exec(s, pos, hi, pos, false);
        let j = find_ws_exec(s, pos, hi, i, true);
        if i >= hi || j <= i {
            assert(words(t) =~= Seq::<Seq<char>>::empty());
            proof {
                let f = |p: (usize, usize)| s@.subrange(p.0 as int, p.1 as int);
                assert(words(whole) =~= out@.map_values(f));
            }
            break;
        }
        assert(t.subrange((i - pos) as int, (j - pos) as int) =~= s@.subrange(i as int, j as int));
        assert(t.skip((j - pos) as int) =~= s@.subrange(j as int, hi as int));
        let ghost before = out@;
        out.push((i, j));
        proof {
            let f = |p: (usize, usize)| s@.subrange(p.0 as int, p.1 as int);
            assert(out@.map_values(f) =~= before.map_values(f).push(s@.subrange(i as int, j as int)));
            assert(words(whole) =~= out@.map_values(f) + words(s@.subrange(j as int, hi as int)));
        }
        pos = j;
    }
    proof {
        let f = |p: (usize, usize)| s@.subrange(p.0 as int, p.1 as int);
        assert forall|k: int| 0 <= k < out.len() implies s@.subrange(
            (#[trigger] out@[k]).0 as int,
            out@[k].1 as int,
        ) == words(whole)[k] by {
            assert(out@.map_values(f)[k] == words(whole)[k]);
        }
    }
    out
}

fn point_exec(s: &Vec<char>, lo: usize, hi: usize) -> (r: Result<Point, ParseError>)
    requires
        lo <= hi <= s.len(),
    ensures
        r == point_of(s@.subrange(lo as int, hi as int)),
{
    let w = word_ranges(s, lo, hi);
    if w.len() != 2 {
        return Err(ParseError::PolygonPointCountError);
    }
    let (a0, b0) = w[0];
    let (a1, b1) = w[1];
    match (read_number(s, a0, b0), read_number(s, a1, b1)) {
        (Some(x), Some(y)) => Ok((x, y)),
        _ => Err(ParseError::NumericParseError),
    }
}

/// Reads a point list. Every comma-separated pair must hold exactly two
/// numbers; white space around them is free.
pub fn unpack_polygon_points(input: &str) -> (r: Result<Vec<Point>, ParseError>)
    ensures
        match r {
            Ok(v) => points_of(input@) == Ok::<Seq<Point>, ParseError>(v@),
            Err(e) => points_of(input@) == Err::<Seq<Point>, ParseError>(e),
        },
{
    let s = chars_of(input);
    assert(s@.subrange(0, s@.len() as int) =~= input@);
    points_exec(&s, 0, s.len())
}

pub fn points_exec(s: &Vec<char>, lo: usize, hi: usize) -> (r: Result<Vec<Point>, ParseError>)
    requires
        lo <= hi <= s.len(),
    ensures
        match r {
            Ok(v) => points_of(s@.subrange(lo as int, hi as int)) == Ok::<Seq<Point>, ParseError>(
                v@,
            ),
            Err(e) => points_of(s@.subrange(lo as int, hi as int)) == Err::<Seq<Point>, ParseError>(
                e,
            ),
        },
{
    let ghost whole = s@.subrange(lo as int, hi as int);
    let mut out: Vec<Point> = Vec::new();
    let mut pos = lo;
    loop
        invariant
            lo <= pos <= hi <= s.len(),
            whole == s@.subrange(lo as int, hi as int),
            points_of(whole) == match points_of(s@.subrange(pos as int, hi as int)) {
                Ok(rest) => Ok(out@ + rest),
                Err(e) => Err(e),
            },
        decreases hi - pos,
    {
        let ghost t = s@.subrange(pos as int, hi as int);
        let i = find_char_in(s, pos, hi, ',');
        assert(t.take((i - pos) as int) =~= s@.subrange(pos as int, i as int));
        match point_exec(s, pos, i) {
            Err(e) => {
                return Err(e);
            },
            Ok(p) => {
                let ghost before = out@;
                out.push(p);
                if i >= hi {
                    assert(before + seq![p] =~= out@);
                    return Ok(out);
                }
                assert(t.skip((i - pos) + 1) =~= s@.subrange(i + 1, hi as int));
                proof {
                    match points_of(s@.subrange(i + 1, hi as int)) {
                        Ok(rest) => {
                            assert(before + (seq![p] + rest) =~= out@ + rest);
                        },
                        Err(_) => {},
                    }
                }
                pos = i + 1;
            },
        }
    }
}

fn push_point(out: &mut Vec<char>, p: &Point)
    ensures
        final(out)@ == old(out)@ + point_text(*p),
{
    push_decimal(out, &p.0);
    out.push(' ');
    push_decimal(out, &p.1);
    assert(final(out)@ =~= old(out)@ + point_text(*p));
}

pub fn push_points(out: &mut Vec<char>, ps: &Vec<Point>)
    ensures
        final(out)@ == old(out)@ + points_text(ps@),
{
    let ghost start = out@;
    let mut i: usize = 0;
    while i < ps.len()
        invariant
            i <= ps.len(),
            start == old(out)@,
            i == 0 ==> out@ == start,
            i > 0 ==> out@ + (if i < ps.len() {
                seq![','] + points_text(ps@.skip(i as int))
            } else {
                Seq::empty()
            }) == start + points_text(ps@),
        decreases ps.len() - i,
    {
        if i > 0 {
            out.push(',');
        }
        push_point(out, &ps[i]);
        proof {
            lemma_points_text_split(ps@, i as int);
        }
        i = i + 1;
    }
    proof {
        if ps.len() == 0 {
            assert(points_text(ps@) =~= Seq::<char>::empty());
        }
    }
    assert(out@ =~= start + points_text(ps@));
}

proof fn lemma_points_text_split(ps: Seq<Point>, i: int)
    requires
        0 <= i < ps.len(),
    ensures
        points_text(ps.skip(i)) == point_text(ps[i]) + (if i + 1 < ps.len() {
            seq![','] + points_text(ps.skip(i + 1))
        } else {
            Seq::empty()
        }),
{
    assert(ps.skip(i).skip(1) =~= ps.skip(i + 1));
    if i + 1 >= ps.len() {
        assert(ps.skip(i).len() == 1);
        assert(point_text(ps[i]) + Seq::<char>::empty() =~= point_text(ps[i]));
    }
}

/// Writes a point list: `x y` pairs joined by commas.
pub fn pack_polygon_points(input: &Vec<Point>) -> (s: String)
    ensures
        s@ == points_text(input@),
{
    let mut out: Vec<char> = Vec::new();
    push_points(&mut out, input);
    assert(out@ =~= points_text(input@));
    string_from_chars(&out)
}

pub proof fn lemma_find_ws_at(s: Seq<char>, pos: nat, k: nat, ws: bool)
    requires
        pos <= k <= s.len(),
        forall|i: int| pos <= i < k ==> is_ws(#[trigger] s[i]) != ws,
        k < s.len() ==> is_ws(s[k as int]) == ws,
    ensures
        find_ws(s, pos, ws) == k,
    decreases k - pos,
{
    if pos < k {
        lemma_find_ws_at(s, pos + 1, k, ws);
    }
}

proof fn lemma_dec_plain(d: Decimal)
    requires
        d.wf(),
    ensures
        dec_text(d).len() > 0,
        forall|i: int|
            0 <= i < dec_text(d).len() ==> !is_ws(#[trigger] dec_text(d)[i]) && dec_text(d)[i] != ','
                && dec_text(d)[i] != '"',
{
    crate::decimal::lemma_dec_chars(d);
}

/// A point's text reads back as that point.
proof fn lemma_point_of_text(p: Point)
    requires
        p.0.wf(),
        p.1.wf(),
    ensures
        point_of(point_text(p)) == Ok::<Point, ParseError>(p),
{
    let dx = dec_text(p.0);
    let dy = dec_text(p.1);
    lemma_dec_plain(p.0);
    lemma_dec_plain(p.1);
    let s = point_text(p);
    assert forall|i: int| 0 <= i < dx.len() implies !is_ws(#[trigger] s[i]) by {
        assert(s[i] == dx[i]);
    }
    lemma_find_ws_at(s, 0, 0, false);
    lemma_find_ws_at(s, 0, dx.len(), true);
    assert(s.subrange(0, dx.len() as int) =~= dx);
    let t = s.skip(dx.len() as int);
    assert(t =~= seq![' '] + dy);
    assert forall|i: int| 1 <= i < t.len() implies !is_ws(#[trigger] t[i]) by {
        assert(t[i] == dy[i - 1]);
    }
    lemma_find_ws_at(t, 0, 1, false);
    lemma_find_ws_at(t, 1, t.len(), true);
    assert(t.subrange(1, t.len() as int) =~= dy);
    let u = t.skip(t.len() as int);
    assert(u =~= Seq::<char>::empty());
    assert(words(u) =~= Seq::<Seq<char>>::empty());
    assert(words(t) =~= seq![dy]);
    assert(words(s) =~= seq![dx, dy]);
    crate::number::lemma_num_of_text(p.0);
    crate::number::lemma_num_of_text(p.1);
}

/// The text of a non-empty list of well-formed points reads back as that list.
pub proof fn lemma_points_round_trip(ps: Seq<Point>)
    requires
        ps.len() > 0,
        forall|i: int| 0 <= i < ps.len() ==> (#[trigger] ps[i]).0.wf() && ps[i].1.wf(),
    ensures
        points_of(points_text(ps)) == Ok::<Seq<Point>, ParseError>(ps),
    decreases ps.len(),
{
    let p0 = ps[0];
    let pt = point_text(p0);
    let s = points_text(ps);
    lemma_dec_plain(p0.0);
    lemma_dec_plain(p0.1);
    assert forall|i: int| 0 <= i < pt.len() implies #[trigger] pt[i] != ',' by {
        if i < dec_text(p0.0).len() {
            assert(pt[i] == dec_text(p0.0)[i]);
        } else if i > dec_text(p0.0).len() {
            assert(pt[i] == dec_text(p0.1)[i - dec_text(p0.0).len() - 1]);
        }
    }
    lemma_point_of_text(p0);
    if ps.len() == 1 {
        assert(s == pt);
        lemma_find_at_end(s, ',');
        assert(s.take(s.len() as int) =~= s);
        assert(seq![p0] =~= ps);
    } else {
        let tail = ps.skip(1);
        assert(s == pt + seq![','] + points_text(tail));
        assert forall|i: int| 0 <= i < pt.len() implies #[trigger] s[i] != ',' by {
            assert(s[i] == pt[i]);
        }
        crate::text::lemma_find_at(s, 0, pt.len(), ',');
        assert(s.take(pt.len() as int) =~= pt);
        assert(s.skip((pt.len() + 1) as int) =~= points_text(tail));
        assert forall|i: int| 0 <= i < tail.len() implies (#[trigger] tail[i]).0.wf() && tail[i].1.wf() by {
            assert(tail[i] == ps[i + 1]);
        }
        lemma_points_round_trip(tail);
        assert(seq![p0] + tail =~= ps);
    }
}

proof fn lemma_find_at_end(s: Seq<char>, c: char)
    requires
        forall|i: int| 0 <= i < s.len() ==> #[trigger] s[i] != c,
    ensures
        find_char(s, 0, c) == s.len(),
{
    lemma_find_none(s, 0, c);
}

pub proof fn lemma_find_none(s: Seq<char>, pos: nat, c: char)
    requires
        pos <= s.len(),
        forall|i: int| pos <= i < s.len() ==> #[trigger] s[i] != c,
    ensures
        find_char(s, pos, c) == s.len(),
    decreases s.len() - pos,
{
    if pos < s.len() {
        lemma_find_none(s, pos + 1, c);
    }
}

} // verus!
