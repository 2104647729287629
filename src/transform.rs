//! The placement transform and its text form: up to five chained terms,
//! `scale(s) translate(tx, ty) translate(px, py) rotate(deg) translate(-px, -py)`,
//! each written only when it differs from the identity.
use vstd::prelude::*;
use crate::decimal::{dec_text, lemma_dec_chars, push_decimal, Decimal};
use crate::number::{number_of, read_number};
use crate::error::ParseError;
use crate::points::{find_ws, is_ws, lemma_find_ws_at};
use crate::text::{
    chars_of, find_char, find_exec, has_lit, lemma_find_at, lemma_find_bounds, push_all,
    starts_at, string_from_chars,
};

verus! {

/// A uniform scale and a rotation about the pivot `(midx, midy)` of the local
/// box, followed by the translation `(tx, ty)`. The rotation is in degrees.
#[derive(Clone, Copy, Debug, PartialEq, Eq, Structural)]
pub struct Transform {
    pub midx: Decimal,
    pub midy: Decimal,
    pub rotate: Decimal,
    pub tx: Decimal,
    pub ty: Decimal,
    pub scale: Decimal,
}

/// One term of the text form.
#[derive(Clone, Copy, Debug, PartialEq, Eq, Structural)]
pub enum Term {
    Scale(Decimal),
    Translate(Decimal, Decimal),
    Rotate(Decimal),
}

pub open spec fn one_spec() -> Decimal {
    Decimal { neg: false, mant: 1, scale: 0, exp: 0 }
}

pub open spec fn zero_spec() -> Decimal {
    Decimal { neg: false, mant: 0, scale: 0, exp: 0 }
}

pub open spec fn term_wf(tm: Term) -> bool {
    match tm {
        Term::Scale(d) => d.wf(),
        Term::Rotate(d) => d.wf(),
        Term::Translate(x, y) => x.wf() && y.wf(),
    }
}

pub open spec fn kw_scale() -> Seq<char> {
    seq!['s', 'c', 'a', 'l', 'e', '(']
}

pub open spec fn kw_rotate() -> Seq<char> {
    seq!['r', 'o', 't', 'a', 't', 'e', '(']
}

pub open spec fn kw_translate() -> Seq<char> {
    seq!['t', 'r', 'a', 'n', 's', 'l', 'a', 't', 'e', '(']
}

pub open spec fn term_text(tm: Term) -> Seq<char> {
    match tm {
        Term::Scale(d) => kw_scale() + dec_text(d) + seq![')'],
        Term::Rotate(d) => kw_rotate() + dec_text(d) + seq![')'],
        Term::Translate(x, y) => kw_translate() + dec_text(x) + seq![',', ' '] + dec_text(y)
            + seq![')'],
    }
}

/// The terms, separated by single spaces.
pub open spec fn terms_text(ts: Seq<Term>) -> Seq<char>
    decreases ts.len(),
{
    if ts.len() == 0 {
        Seq::empty()
    } else if ts.len() == 1 {
        term_text(ts[0])
    } else {
        term_text(ts[0]) + seq![' '] + terms_text(ts.skip(1))
    }
}

/// The term that starts at `pos`, and where it ends.
pub open spec fn term_at(s: Seq<char>, pos: nat) -> Result<(Term, nat), ParseError> {
    if has_lit(s, pos, kw_scale()) || has_lit(s, pos, kw_rotate()) {
        let a = find_ws(
            s,
            if has_lit(s, pos, kw_scale()) {
                pos + 6
            } else {
                pos + 7
            },
            false,
        );
        let e = find_char(s, a, ')');
        if e >= s.len() {
            Err(ParseError::TransformGrammarMismatch)
        } else {
            match number_of(s.subrange(a as int, e as int)) {
                Some(d) => Ok(
                    (
                        if has_lit(s, pos, kw_scale()) {
                            Term::Scale(d)
                        } else {
                            Term::Rotate(d)
                        },
                        e + 1,
                    ),
                ),
                None => Err(ParseError::NumericParseError),
            }
        }
    } else if has_lit(s, pos, kw_translate()) {
        let a = find_ws(s, pos + 10, false);
        let m = find_char(s, a, ',');
        if m >= s.len() {
            Err(ParseError::TransformGrammarMismatch)
        } else {
            let b = find_ws(s, m + 1, false);
            let e = find_char(s, b, ')');
            if e >= s.len() {
                Err(ParseError::TransformGrammarMismatch)
            } else {
                match (number_of(s.subrange(a as int, m as int)), number_of(s.subrange(b as int, e as int))) {
                    (Some(x), Some(y)) => Ok((Term::Translate(x, y), e + 1)),
                    _ => Err(ParseError::NumericParseError),
                }
            }
        }
    } else {
        Err(ParseError::TransformGrammarMismatch)
    }
}

/// The terms from `pos` to the end, with any white space between and after them.
pub open spec fn terms_at(s: Seq<char>, pos: nat) -> Result<Seq<Term>, ParseError>
    decreases s.len() - pos,
{
    if pos >= s.len() {
        Err(ParseError::TransformGrammarMismatch)
    } else {
        match term_at(s, pos) {
            Err(e) => Err(e),
            Ok((tm, p)) => {
                let q = find_ws(s, p, false);
                if p <= pos || q <= pos {
                    Err(ParseError::TransformGrammarMismatch)
                } else if q >= s.len() {
                    Ok(seq![tm])
                } else {
                    match terms_at(s, q) {
                        Ok(rest) => Ok(seq![tm] + rest),
                        Err(e) => Err(e),
                    }
                }
            },
        }
    }
}

/// The terms of the text, white space before, between and after them free.
pub open spec fn tokens_of(s: Seq<char>) -> Result<Seq<Term>, ParseError> {
    let q = find_ws(s, 0, false);
    if q >= s.len() {
        Ok(Seq::empty())
    } else {
        terms_at(s, q)
    }
}

/// The five slots of the grammar, as filled by a list of terms.
pub struct Slots {
    pub scale: Option<Decimal>,
    pub a: Option<(Decimal, Decimal)>,
    pub b: Option<(Decimal, Decimal)>,
    pub rot: Option<Decimal>,
    pub c: Option<(Decimal, Decimal)>,
}

pub open spec fn pair_of(tm: Term) -> (Decimal, Decimal) {
    match tm {
        Term::Translate(x, y) => (x, y),
        _ => (zero_spec(), zero_spec()),
    }
}

pub open spec fn num_of(tm: Term) -> Decimal {
    match tm {
        Term::Scale(d) => d,
        Term::Rotate(d) => d,
        Term::Translate(x, _) => x,
    }
}

pub open spec fn slots(
    scale: Option<Decimal>,
    a: Option<Term>,
    b: Option<Term>,
    rot: Option<Term>,
    c: Option<Term>,
) -> Slots {
    Slots {
        scale,
        a: match a {
            Some(t) => Some(pair_of(t)),
            None => None,
        },
        b: match b {
            Some(t) => Some(pair_of(t)),
            None => None,
        },
        rot: match rot {
            Some(t) => Some(num_of(t)),
            None => None,
        },
        c: match c {
            Some(t) => Some(pair_of(t)),
            None => None,
        },
    }
}

/// How a list of terms fills the slots. After the optional scale come at
/// most two translates, an optional rotate and, after the rotate, at most one
/// translate. Without a rotate, a lone translate is the plain translation, two
/// are the translation and the closing translate, and three fill all three
/// translate slots.
pub open spec fn slots_of(ts: Seq<Term>) -> Option<Slots> {
    let has_scale = ts.len() > 0 && ts[0] is Scale;
    let sc = if has_scale {
        Some(num_of(ts[0]))
    } else {
        None
    };
    let r = if has_scale {
        ts.skip(1)
    } else {
        ts
    };
    let n = r.len();
    if n == 0 {
        Some(slots(sc, None, None, None, None))
    } else if n == 1 {
        if r[0] is Translate {
            Some(slots(sc, Some(r[0]), None, None, None))
        } else if r[0] is Rotate {
            Some(slots(sc, None, None, Some(r[0]), None))
        } else {
            None
        }
    } else if n == 2 {
        if r[0] is Translate && r[1] is Translate {
            Some(slots(sc, Some(r[0]), None, None, Some(r[1])))
        } else if r[0] is Translate && r[1] is Rotate {
            Some(slots(sc, Some(r[0]), None, Some(r[1]), None))
        } else if r[0] is Rotate && r[1] is Translate {
            Some(slots(sc, None, None, Some(r[0]), Some(r[1])))
        } else {
            None
        }
    } else if n == 3 {
        if r[0] is Translate && r[1] is Translate && r[2] is Translate {
            Some(slots(sc, Some(r[0]), Some(r[1]), None, Some(r[2])))
        } else if r[0] is Translate && r[1] is Translate && r[2] is Rotate {
            Some(slots(sc, Some(r[0]), Some(r[1]), Some(r[2]), None))
        } else if r[0] is Translate && r[1] is Rotate && r[2] is Translate {
            Some(slots(sc, Some(r[0]), None, Some(r[1]), Some(r[2])))
        } else {
            None
        }
    } else if n == 4 {
        if r[0] is Translate && r[1] is Translate && r[2] is Rotate && r[3] is Translate {
            Some(slots(sc, Some(r[0]), Some(r[1]), Some(r[2]), Some(r[3])))
        } else {
            None
        }
    } else {
        None
    }
}

pub open spec fn or_zero(p: Option<(Decimal, Decimal)>) -> (Decimal, Decimal) {
    match p {
        Some(v) => v,
        None => (zero_spec(), zero_spec()),
    }
}

/// The transform that filled slots denote. The closing translate must be the
/// negation of the pivot translate; when there is no pivot translate but the
/// plain translation and the closing translate cancel, the plain translation
/// is taken as the pivot.
pub open spec fn from_slots(sl: Slots) -> Result<Transform, ParseError> {
    let (tx, ty) = or_zero(sl.a);
    let (mx, my) = or_zero(sl.b);
    let (ix, iy) = or_zero(sl.c);
    let scale = match sl.scale {
        Some(d) => d,
        None => one_spec(),
    };
    let rotate = match sl.rot {
        Some(d) => d,
        None => zero_spec(),
    };
    if mx == ix.neg_spec() && my == iy.neg_spec() {
        Ok(Transform { midx: mx, midy: my, rotate, tx, ty, scale })
    } else if mx.mant == 0 && my.mant == 0 && tx == ix.neg_spec() && ty == iy.neg_spec() {
        Ok(Transform { midx: tx, midy: ty, rotate, tx: zero_spec(), ty: zero_spec(), scale })
    } else {
        Err(ParseError::TransformConsistencyError)
    }
}

/// What the text `s` decodes to.
pub open spec fn decode_transform(s: Seq<char>) -> Result<Transform, ParseError> {
    match tokens_of(s) {
        Err(e) => Err(e),
        Ok(ts) => match slots_of(ts) {
            None => Err(ParseError::TransformGrammarMismatch),
            Some(sl) => from_slots(sl),
        },
    }
}

/// The terms that encode `t`.
pub open spec fn terms_of(t: Transform) -> Seq<Term> {
    let pivot = !(t.midx.mant == 0 && t.midy.mant == 0);
    (if t.scale != one_spec() {
        seq![Term::Scale(t.scale)]
    } else {
        Seq::empty()
    }) + (if !(t.tx.mant == 0 && t.ty.mant == 0) {
        seq![Term::Translate(t.tx, t.ty)]
    } else {
        Seq::empty()
    }) + (if pivot {
        seq![Term::Translate(t.midx, t.midy)]
    } else {
        Seq::empty()
    }) + (if t.rotate.mant != 0 {
        seq![Term::Rotate(t.rotate)]
    } else {
        Seq::empty()
    }) + (if pivot {
        seq![Term::Translate(t.midx.neg_spec(), t.midy.neg_spec())]
    } else {
        Seq::empty()
    })
}

pub open spec fn transform_text(t: Transform) -> Seq<char> {
    terms_text(terms_of(t))
}

fn push_term(out: &mut Vec<char>, tm: &Term)
    ensures
        final(out)@ == old(out)@ + term_text(*tm),
{
    match tm {
        Term::Scale(d) => {
            push_all(out, &vec!['s', 'c', 'a', 'l', 'e', '(']);
            push_decimal(out, d);
            out.push(')');
        },
        Term::Rotate(d) => {
            push_all(out, &vec!['r', 'o', 't', 'a', 't', 'e', '(']);
            push_decimal(out, d);
            out.push(')');
        },
        Term::Translate(x, y) => {
            push_all(out, &vec!['t', 'r', 'a', 'n', 's', 'l', 'a', 't', 'e', '(']);
            push_decimal(out, x);
            out.push(',');
            out.push(' ');
            push_decimal(out, y);
            out.push(')');
        },
    }
    assert(final(out)@ =~= old(out)@ + term_text(*tm));
}

fn push_terms(out: &mut Vec<char>, ts: &Vec<Term>)
    ensures
        final(out)@ == old(out)@ + terms_text(ts@),
{
    let ghost start = out@;
    let mut i: usize = 0;
    while i < ts.len()
        invariant
            i <= ts.len(),
            start == old(out)@,
            i == 0 ==> out@ == start,
            i > 0 ==> out@ + (if i < ts.len() {
                seq![' '] + terms_text(ts@.skip(i as int))
            } else {
                Seq::empty()
            }) == start + terms_text(ts@),
        decreases ts.len() - i,
    {
        if i > 0 {
            out.push(' ');
        }
        push_term(out, &ts[i]);
        proof {
            lemma_terms_text_split(ts@, i as int);
        }
        i = i + 1;
    }
}

proof fn lemma_terms_text_split(ts: Seq<Term>, i: int)
    requires
        0 <= i < ts.len(),
    ensures
        terms_text(ts.skip(i)) == term_text(ts[i]) + (if i + 1 < ts.len() {
            seq![' '] + terms_text(ts.skip(i + 1))
        } else {
            Seq::empty()
        }),
{
    assert(ts.skip(i).skip(1) =~= ts.skip(i + 1));
    if i + 1 >= ts.len() {
        assert(ts.skip(i).len() == 1);
        assert(term_text(ts[i]) + Seq::<char>::empty() =~= term_text(ts[i]));
    }
}

/// The first position at or after `pos` that is not white space.
fn skip_ws(s: &Vec<char>, pos: usize) -> (r: usize)
    requires
        pos <= s.len(),
    ensures
        r == find_ws(s@, pos as nat, false),
        pos <= r <= s.len(),
{
    let mut i = pos;
    while i < s.len() && (s[i] == ' ' || s[i] == '\t' || s[i] == '\n' || s[i] == '\r')
        invariant
            pos <= i <= s.len(),
            find_ws(s@, pos as nat, false) == find_ws(s@, i as nat, false),
        decreases s.len() - i,
    {
        i = i + 1;
    }
    i
}

fn term_at_exec(s: &Vec<char>, pos: usize) -> (r: Result<(Term, usize), ParseError>)
    requires
        pos <= s.len(),
    ensures
        match r {
            Ok((tm, p)) => term_at(s@, pos as nat) == Ok::<(Term, nat), ParseError>((tm, p as nat)),
            Err(e) => term_at(s@, pos as nat) == Err::<(Term, nat), ParseError>(e),
        },
{
    let is_scale = starts_at(s, pos, &vec!['s', 'c', 'a', 'l', 'e', '(']);
    let is_rotate = starts_at(s, pos, &vec!['r', 'o', 't', 'a', 't', 'e', '(']);
    if is_scale || is_rotate {
        let a = skip_ws(s, if is_scale {
            pos + 6
        } else {
            pos + 7
        });
        let e = find_exec(s, a, ')');
        if e >= s.len() {
            return Err(ParseError::TransformGrammarMismatch);
        }
        match read_number(s, a, e) {
            Some(d) => {
                let tm = if is_scale {
                    Term::Scale(d)
                } else {
                    Term::Rotate(d)
                };
                Ok((tm, e + 1))
            },
            None => Err(ParseError::NumericParseError),
        }
    } else if starts_at(s, pos, &vec!['t', 'r', 'a', 'n', 's', 'l', 'a', 't', 'e', '(']) {
        let a = skip_ws(s, pos + 10);
        let m = find_exec(s, a, ',');
        if m >= s.len() {
            return Err(ParseError::TransformGrammarMismatch);
        }
        let b = skip_ws(s, m + 1);
        let e = find_exec(s, b, ')');
        if e >= s.len() {
            return Err(ParseError::TransformGrammarMismatch);
        }
        match (read_number(s, a, m), read_number(s, b, e)) {
            (Some(x), Some(y)) => Ok((Term::Translate(x, y), e + 1)),
            _ => Err(ParseError::NumericParseError),
        }
    } else {
        Err(ParseError::TransformGrammarMismatch)
    }
}

pub open spec fn glue(pre: Seq<Term>, r: Result<Seq<Term>, ParseError>) -> Result<
    Seq<Term>,
    ParseError,
> {
    match r {
        Ok(x) => Ok(pre + x),
        Err(e) => Err(e),
    }
}

/// Splits the text into its terms.
pub fn tokenize(s: &Vec<char>) -> (r: Result<Vec<Term>, ParseError>)
    ensures
        match r {
            Ok(v) => tokens_of(s@) == Ok::<Seq<Term>, ParseError>(v@),
            Err(e) => tokens_of(s@) == Err::<Seq<Term>, ParseError>(e),
        },
{
    let mut out: Vec<Term> = Vec::new();
    let q0 = skip_ws(s, 0);
    if q0 >= s.len() {
        assert(out@ =~= Seq::<Term>::empty());
        return Ok(out);
    }
    let mut pos: usize = q0;
    loop
        invariant
            pos < s.len(),
            tokens_of(s@) == glue(out@, terms_at(s@, pos as nat)),
        decreases s.len() - pos,
    {
        match term_at_exec(s, pos) {
            Err(e) => {
                return Err(e);
            },
            Ok((tm, p)) => {
                if p <= pos || p > s.len() {
                    return Err(ParseError::TransformGrammarMismatch);
                }
                let q = skip_ws(s, p);
                if q <= pos {
                    return Err(ParseError::TransformGrammarMismatch);
                }
                if q >= s.len() {
                    let ghost before = out@;
                    out.push(tm);
                    assert(before + seq![tm] =~= out@);
                    return Ok(out);
                }
                let ghost before = out@;
                out.push(tm);
                proof {
                    let x = terms_at(s@, q as nat);
                    assert(glue(before, glue(seq![tm], x)) == glue(out@, x)) by {
                        match x {
                            Ok(v) => {
                                assert(before + (seq![tm] + v) =~= out@ + v);
                            },
                            Err(_) => {},
                        }
                    }
                }
                pos = q;
            },
        }
    }
}

fn pair_exec(tm: &Term) -> (r: (Decimal, Decimal))
    ensures
        r == pair_of(*tm),
{
    match tm {
        Term::Translate(x, y) => (*x, *y),
        _ => (Decimal::zero(), Decimal::zero()),
    }
}

fn num_exec(tm: &Term) -> (r: Decimal)
    ensures
        r == num_of(*tm),
{
    match tm {
        Term::Scale(d) => *d,
        Term::Rotate(d) => *d,
        Term::Translate(x, _) => *x,
    }
}

fn is_tr(tm: &Term) -> (r: bool)
    ensures
        r == (*tm is Translate),
{
    match tm {
        Term::Translate(..) => true,
        _ => false,
    }
}

fn is_rot(tm: &Term) -> (r: bool)
    ensures
        r == (*tm is Rotate),
{
    match tm {
        Term::Rotate(..) => true,
        _ => false,
    }
}

fn slots_exec(ts: &Vec<Term>) -> (r: Option<Slots>)
    ensures
        r == slots_of(ts@),
{
    let has_scale = ts.len() > 0 && match ts[0] {
        Term::Scale(_) => true,
        _ => false,
    };
    let sc = if has_scale {
        Some(num_exec(&ts[0]))
    } else {
        None
    };
    let k: usize = if has_scale {
        1
    } else {
        0
    };
    let ghost r = if has_scale {
        ts@.skip(1)
    } else {
        ts@
    };
    assert(forall|i: int| 0 <= i < r.len() ==> r[i] == ts@[k + i]);
    let n = ts.len() - k;
    let p = |i: usize| -> (o: Option<(Decimal, Decimal)>)
        requires
            k + i < ts.len(),
        ensures
            o == Some(pair_of(ts@[k + i])),
        { Some(pair_exec(&ts[k + i])) };
    if n == 0 {
        Some(Slots { scale: sc, a: None, b: None, rot: None, c: None })
    } else if n == 1 {
        if is_tr(&ts[k]) {
            Some(Slots { scale: sc, a: p(0), b: None, rot: None, c: None })
        } else if is_rot(&ts[k]) {
            Some(Slots { scale: sc, a: None, b: None, rot: Some(num_exec(&ts[k])), c: None })
        } else {
            None
        }
    } else if n == 2 {
        let (t0, t1) = (is_tr(&ts[k]), is_tr(&ts[k + 1]));
        let (r0, r1) = (is_rot(&ts[k]), is_rot(&ts[k + 1]));
        if t0 && t1 {
            Some(Slots { scale: sc, a: p(0), b: None, rot: None, c: p(1) })
        } else if t0 && r1 {
            Some(Slots { scale: sc, a: p(0), b: None, rot: Some(num_exec(&ts[k + 1])), c: None })
        } else if r0 && t1 {
            Some(Slots { scale: sc, a: None, b: None, rot: Some(num_exec(&ts[k])), c: p(1) })
        } else {
            None
        }
    } else if n == 3 {
        let (t0, t1, t2) = (is_tr(&ts[k]), is_tr(&ts[k + 1]), is_tr(&ts[k + 2]));
        let (r1, r2) = (is_rot(&ts[k + 1]), is_rot(&ts[k + 2]));
        if t0 && t1 && t2 {
            Some(Slots { scale: sc, a: p(0), b: p(1), rot: None, c: p(2) })
        } else if t0 && t1 && r2 {
            Some(Slots { scale: sc, a: p(0), b: p(1), rot: Some(num_exec(&ts[k + 2])), c: None })
        } else if t0 && r1 && t2 {
            Some(Slots { scale: sc, a: p(0), b: None, rot: Some(num_exec(&ts[k + 1])), c: p(2) })
        } else {
            None
        }
    } else if n == 4 {
        if is_tr(&ts[k]) && is_tr(&ts[k + 1]) && is_rot(&ts[k + 2]) && is_tr(&ts[k + 3]) {
            Some(Slots { scale: sc, a: p(0), b: p(1), rot: Some(num_exec(&ts[k + 2])), c: p(3) })
        } else {
            None
        }
    } else {
        None
    }
}

fn or_zero_exec(p: Option<(Decimal, Decimal)>) -> (r: (Decimal, Decimal))
    ensures
        r == or_zero(p),
{
    match p {
        Some(v) => v,
        None => (Decimal::zero(), Decimal::zero()),
    }
}

fn from_slots_exec(sl: Slots) -> (r: Result<Transform, ParseError>)
    ensures
        r == from_slots(sl),
{
    let (tx, ty) = or_zero_exec(sl.a);
    let (mx, my) = or_zero_exec(sl.b);
    let (ix, iy) = or_zero_exec(sl.c);
    let scale = match sl.scale {
        Some(d) => d,
        None => Decimal::one(),
    };
    let rotate = match sl.rot {
        Some(d) => d,
        None => Decimal::zero(),
    };
    if mx == ix.negate() && my == iy.negate() {
        Ok(Transform { midx: mx, midy: my, rotate, tx, ty, scale })
    } else if mx.is_zero() && my.is_zero() && tx == ix.negate() && ty == iy.negate() {
        Ok(Transform { midx: tx, midy: ty, rotate, tx: Decimal::zero(), ty: Decimal::zero(), scale })
    } else {
        Err(ParseError::TransformConsistencyError)
    }
}

impl Transform {
    pub open spec fn new_spec(width: nat, height: nat) -> Transform {
        Transform {
            scale: one_spec(),
            midx: Decimal::half_spec(width),
            midy: Decimal::half_spec(height),
            rotate: zero_spec(),
            tx: zero_spec(),
            ty: zero_spec(),
        }
    }

    pub open spec fn wf(&self) -> bool {
        &&& self.midx.wf()
        &&& self.midy.wf()
        &&& self.rotate.wf()
        &&& self.tx.wf()
        &&& self.ty.wf()
        &&& self.scale.wf()
    }

    /// The identity placement of a `width` by `height` box: the pivot is the
    /// box's center.
    pub fn new(width: u32, height: u32) -> (t: Transform)
        ensures
            t == Transform::new_spec(width as nat, height as nat),
            t.wf(),
            !t.midx.neg && t.midx.mant * 2 == width * crate::decimal::pow10(t.midx.scale as nat),
            !t.midy.neg && t.midy.mant * 2 == height * crate::decimal::pow10(t.midy.scale as nat),
    {
        Transform {
            scale: Decimal::one(),
            midx: Decimal::half_of(width),
            midy: Decimal::half_of(height),
            rotate: Decimal::zero(),
            tx: Decimal::zero(),
            ty: Decimal::zero(),
        }
    }

    /// The terms of the text form, in order.
    pub fn terms(&self) -> (ts: Vec<Term>)
        ensures
            ts@ == terms_of(*self),
    {
        let mut ts: Vec<Term> = Vec::new();
        let pivot = !(self.midx.is_zero() && self.midy.is_zero());
        if self.scale != Decimal::one() {
            ts.push(Term::Scale(self.scale));
        }
        if !(self.tx.is_zero() && self.ty.is_zero()) {
            ts.push(Term::Translate(self.tx, self.ty));
        }
        if pivot {
            ts.push(Term::Translate(self.midx, self.midy));
        }
        if !self.rotate.is_zero() {
            ts.push(Term::Rotate(self.rotate));
        }
        if pivot {
            ts.push(Term::Translate(self.midx.negate(), self.midy.negate()));
        }
        assert(ts@ =~= terms_of(*self));
        ts
    }

    /// The text form.
    pub fn to_string(&self) -> (s: String)
        ensures
            s@ == transform_text(*self),
    {
        let ts = self.terms();
        let mut out: Vec<char> = Vec::new();
        push_terms(&mut out, &ts);
        assert(out@ =~= transform_text(*self));
        string_from_chars(&out)
    }

    pub fn decode_chars(s: &Vec<char>) -> (r: Result<Transform, ParseError>)
        ensures
            r == decode_transform(s@),
    {
        match tokenize(s) {
            Err(e) => Err(e),
            Ok(ts) => match slots_exec(&ts) {
                None => Err(ParseError::TransformGrammarMismatch),
                Some(sl) => from_slots_exec(sl),
            },
        }
    }

    /// Reads the text form.
    pub fn from_str(s: &str) -> (r: Result<Transform, ParseError>)
        ensures
            r == decode_transform(s@),
    {
        let v = chars_of(s);
        Transform::decode_chars(&v)
    }
}

impl Default for Transform {
    fn default() -> (t: Transform)
        ensures
            t == Transform::new_spec(64, 64),
    {
        Transform::new(64, 64)
    }
}

proof fn lemma_no_delims(d: Decimal, s: Seq<char>, a: int)
    requires
        d.wf(),
        0 <= a,
        a + dec_text(d).len() <= s.len(),
        s.subrange(a, a + dec_text(d).len()) == dec_text(d),
    ensures
        forall|i: int| a <= i < a + dec_text(d).len() ==> s[i] != ')' && s[i] != ',' && !is_ws(s[i]),
        dec_text(d).len() > 0,
{
    lemma_dec_chars(d);
    assert forall|i: int| a <= i < a + dec_text(d).len() implies s[i] != ')' && s[i] != ',' && !is_ws(s[i]) by {
        assert(s[i] == dec_text(d)[i - a]);
    }
}

/// A term's text, wherever it stands, reads back as that term.
#[verifier::rlimit(60)]
proof fn lemma_term_at(pre: Seq<char>, tm: Term, rest: Seq<char>)
    requires
        term_wf(tm),
    ensures
        term_at(pre + term_text(tm) + rest, pre.len()) == Ok::<(Term, nat), ParseError>(
            (tm, pre.len() + term_text(tm).len()),
        ),
{
    let s = pre + term_text(tm) + rest;
    let pos: int = pre.len() as int;
    let tt = term_text(tm);
    assert(s.subrange(pos, pos + tt.len()) =~= tt);
    assert forall|i: int| 0 <= i < tt.len() implies s[pos + i] == tt[i] by {
        assert(s.subrange(pos, pos + tt.len())[i] == s[pos + i]);
    }
    match tm {
        Term::Scale(d) => {
            let l: int = dec_text(d).len() as int;
            assert(s.subrange(pos, pos + 6) =~= kw_scale());
            assert(s.subrange(pos + 6, pos + 6 + l) =~= dec_text(d));
            assert(s[pos + 6 + l] == tt[6 + l]);
            lemma_no_delims(d, s, pos + 6);
            lemma_find_ws_at(s, (pos + 6) as nat, (pos + 6) as nat, false);
            lemma_find_at(s, (pos + 6) as nat, (pos + 6 + l) as nat, ')');
            crate::number::lemma_num_of_text(d);
        },
        Term::Rotate(d) => {
            let l: int = dec_text(d).len() as int;
            assert(s[pos] == 'r');
            assert(!has_lit(s, pos as nat, kw_scale())) by {
                if has_lit(s, pos as nat, kw_scale()) {
                    assert(s.subrange(pos, pos + 6)[0] == s[pos]);
                }
            }
            assert(s.subrange(pos, pos + 7) =~= kw_rotate());
            assert(s.subrange(pos + 7, pos + 7 + l) =~= dec_text(d));
            assert(s[pos + 7 + l] == tt[7 + l]);
            lemma_no_delims(d, s, pos + 7);
            lemma_find_ws_at(s, (pos + 7) as nat, (pos + 7) as nat, false);
            lemma_find_at(s, (pos + 7) as nat, (pos + 7 + l) as nat, ')');
            crate::number::lemma_num_of_text(d);
        },
        Term::Translate(x, y) => {
            let lx: int = dec_text(x).len() as int;
            let ly: int = dec_text(y).len() as int;
            assert(s[pos] == 't');
            assert(!has_lit(s, pos as nat, kw_scale())) by {
                if has_lit(s, pos as nat, kw_scale()) {
                    assert(s.subrange(pos, pos + 6)[0] == s[pos]);
                }
            }
            assert(!has_lit(s, pos as nat, kw_rotate())) by {
                if has_lit(s, pos as nat, kw_rotate()) {
                    assert(s.subrange(pos, pos + 7)[0] == s[pos]);
                }
            }
            assert(s.subrange(pos, pos + 10) =~= kw_translate());
            let a = pos + 10;
            let m = a + lx;
            let b = m + 2;
            assert(s.subrange(a, m) =~= dec_text(x));
            assert(s[m] == tt[10 + lx]);
            assert(s[m + 1] == tt[11 + lx]);
            assert(s.subrange(b, b + ly) =~= dec_text(y));
            assert(s[b + ly] == tt[12 + lx + ly]);
            lemma_no_delims(x, s, a);
            lemma_no_delims(y, s, b);
            lemma_find_ws_at(s, a as nat, a as nat, false);
            lemma_find_ws_at(s, (m + 1) as nat, b as nat, false);
            lemma_find_at(s, a as nat, m as nat, ',');
            lemma_find_at(s, b as nat, (b + ly) as nat, ')');
            crate::number::lemma_num_of_text(x);
            crate::number::lemma_num_of_text(y);
        },
    }
}

proof fn lemma_term_text_start(tm: Term)
    ensures
        term_text(tm).len() > 0,
        !is_ws(term_text(tm)[0]),
{
}

#[verifier::rlimit(60)]
proof fn lemma_terms_at(pre: Seq<char>, ts: Seq<Term>)
    requires
        ts.len() > 0,
        forall|i: int| 0 <= i < ts.len() ==> term_wf(#[trigger] ts[i]),
    ensures
        terms_at(pre + terms_text(ts), pre.len()) == Ok::<Seq<Term>, ParseError>(ts),
    decreases ts.len(),
{
    let tm = ts[0];
    let tt = term_text(tm);
    assert(tt.len() > 0) by {
        match tm {
            Term::Scale(d) => {},
            Term::Rotate(d) => {},
            Term::Translate(x, y) => {},
        }
    }
    if ts.len() == 1 {
        lemma_term_at(pre, tm, Seq::empty());
        assert(pre + terms_text(ts) =~= pre + tt + Seq::<char>::empty());
        assert(seq![tm] =~= ts);
    } else {
        let rest = seq![' '] + terms_text(ts.skip(1));
        let s = pre + terms_text(ts);
        assert(s =~= pre + tt + rest);
        lemma_term_at(pre, tm, rest);
        let p = pre.len() + tt.len();
        assert(s[p as int] == ' ');
        lemma_term_text_start(ts.skip(1)[0]);
        assert(terms_text(ts.skip(1)).len() > 0 && terms_text(ts.skip(1))[0] == term_text(ts.skip(1)[0])[0]);
        assert(s[(p + 1) as int] == terms_text(ts.skip(1))[0]);
        lemma_find_ws_at(s, p, p + 1, false);
        assert(s =~= (pre + tt + seq![' ']) + terms_text(ts.skip(1)));
        lemma_terms_at(pre + tt + seq![' '], ts.skip(1));
        assert(seq![tm] + ts.skip(1) =~= ts);
    }
}

/// The text of any list of well-formed terms splits back into those terms.
pub proof fn lemma_tokens_round_trip(ts: Seq<Term>)
    requires
        forall|i: int| 0 <= i < ts.len() ==> term_wf(#[trigger] ts[i]),
    ensures
        tokens_of(terms_text(ts)) == Ok::<Seq<Term>, ParseError>(ts),
{
    if ts.len() > 0 {
        lemma_term_text_start(ts[0]);
        assert(terms_text(ts)[0] == term_text(ts[0])[0]);
        lemma_find_ws_at(terms_text(ts), 0, 0, false);
        lemma_terms_at(Seq::empty(), ts);
        assert(Seq::<char>::empty() + terms_text(ts) =~= terms_text(ts));
        assert(terms_text(ts).len() > 0) by {
            match ts[0] {
                Term::Scale(d) => {},
                Term::Rotate(d) => {},
                Term::Translate(x, y) => {},
            }
        }
    } else {
        assert(terms_text(ts) =~= Seq::<char>::empty());
        assert(ts =~= Seq::<Term>::empty());
    }
}

#[verifier::rlimit(60)]
proof fn lemma_slots_rest(t: Transform, sc: Option<Decimal>, ts: Seq<Term>, r: Seq<Term>)
    requires
        t.wf(),
        sc == (if t.scale != one_spec() {
            Some(t.scale)
        } else {
            None::<Decimal>
        }),
        r == (if !(t.tx.mant == 0 && t.ty.mant == 0) {
            seq![Term::Translate(t.tx, t.ty)]
        } else {
            Seq::empty()
        }) + (if !(t.midx.mant == 0 && t.midy.mant == 0) {
            seq![Term::Translate(t.midx, t.midy)]
        } else {
            Seq::empty()
        }) + (if t.rotate.mant != 0 {
            seq![Term::Rotate(t.rotate)]
        } else {
            Seq::empty()
        }) + (if !(t.midx.mant == 0 && t.midy.mant == 0) {
            seq![Term::Translate(t.midx.neg_spec(), t.midy.neg_spec())]
        } else {
            Seq::empty()
        }),
        ts.len() > 0 && ts[0] is Scale ==> sc == Some(num_of(ts[0])) && ts.skip(1) == r,
        !(ts.len() > 0 && ts[0] is Scale) ==> sc is None && ts == r,
    ensures
        match slots_of(ts) {
            Some(sl) => from_slots(sl) == Ok::<Transform, ParseError>(t),
            None => false,
        },
{
    let tr = !(t.tx.mant == 0 && t.ty.mant == 0);
    let pv = !(t.midx.mant == 0 && t.midy.mant == 0);
    let ro = t.rotate.mant != 0;
    let a = Term::Translate(t.tx, t.ty);
    let b = Term::Translate(t.midx, t.midy);
    let rt = Term::Rotate(t.rotate);
    let c = Term::Translate(t.midx.neg_spec(), t.midy.neg_spec());
    crate::decimal::lemma_neg_neg(t.midx);
    crate::decimal::lemma_neg_neg(t.midy);
    if tr {
        if pv {
            if ro {
                assert(r =~= seq![a, b, rt, c]);
            } else {
                assert(r =~= seq![a, b, c]);
            }
        } else {
            if ro {
                assert(r =~= seq![a, rt]);
            } else {
                assert(r =~= seq![a]);
            }
        }
    } else {
        if pv {
            if ro {
                assert(r =~= seq![b, rt, c]);
            } else {
                assert(r =~= seq![b, c]);
            }
        } else {
            if ro {
                assert(r =~= seq![rt]);
            } else {
                assert(r =~= Seq::<Term>::empty());
            }
        }
    }
}

/// Decoding the text of a well-formed transform gives back that transform,
/// field for field.
#[verifier::rlimit(60)]
pub proof fn lemma_transform_round_trip(t: Transform)
    requires
        t.wf(),
    ensures
        decode_transform(transform_text(t)) == Ok::<Transform, ParseError>(t),
{
    let ts = terms_of(t);
    let pivot = !(t.midx.mant == 0 && t.midy.mant == 0);
    let sc: Seq<Term> = if t.scale != one_spec() {
        seq![Term::Scale(t.scale)]
    } else {
        Seq::empty()
    };
    let r: Seq<Term> = (if !(t.tx.mant == 0 && t.ty.mant == 0) {
        seq![Term::Translate(t.tx, t.ty)]
    } else {
        Seq::empty()
    }) + (if pivot {
        seq![Term::Translate(t.midx, t.midy)]
    } else {
        Seq::empty()
    }) + (if t.rotate.mant != 0 {
        seq![Term::Rotate(t.rotate)]
    } else {
        Seq::empty()
    }) + (if pivot {
        seq![Term::Translate(t.midx.neg_spec(), t.midy.neg_spec())]
    } else {
        Seq::empty()
    });
    assert(ts =~= sc + r);
    assert forall|i: int| 0 <= i < ts.len() implies term_wf(#[trigger] ts[i]) by {}
    lemma_tokens_round_trip(ts);
    let sco = if t.scale != one_spec() {
        Some(t.scale)
    } else {
        None::<Decimal>
    };
    if t.scale != one_spec() {
        assert(ts[0] is Scale);
        assert(ts.skip(1) =~= r);
    } else {
        assert(ts =~= r);
        assert(r.len() > 0 ==> !(r[0] is Scale));
    }
    lemma_slots_rest(t, sco, ts, r);
}

} // verus!
