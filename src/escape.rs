//! Escaping of attribute values in the markup.
use vstd::prelude::*;
use crate::text::{chars_of, string_from_chars};

verus! {

pub open spec fn is_special(c: char) -> bool {
    c == '<' || c == '>' || c == '"' || c == '\'' || c == '&'
}

/// The entity that stands for `c` inside an attribute value.
pub open spec fn escape_char(c: char) -> Seq<char> {
    if c == '<' {
        seq!['&', 'l', 't', ';']
    } else if c == '>' {
        seq!['&', 'g', 't', ';']
    } else if c == '"' {
        seq!['&', 'q', 'u', 'o', 't', ';']
    } else if c == '\'' {
        seq!['&', 'a', 'p', 'o', 's', ';']
    } else if c == '&' {
        seq!['&', 'a', 'm', 'p', ';']
    } else {
        seq![c]
    }
}

/// `s` with each special character replaced by its entity.
pub open spec fn escaped(s: Seq<char>) -> Seq<char>
    decreases s.len(),
{
    if s.len() == 0 {
        Seq::empty()
    } else {
        escaped(s.drop_last()) + escape_char(s.last())
    }
}

pub fn push_escape_char(out: &mut Vec<char>, c: char)
    ensures
        final(out)@ == old(out)@ + escape_char(c),
{
    if c == '<' {
        out.push('&');
        out.push('l');
        out.push('t');
        out.push(';');
    } else if c == '>' {
        out.push('&');
        out.push('g');
        out.push('t');
        out.push(';');
    } else if c == '"' {
        out.push('&');
        out.push('q');
        out.push('u');
        out.push('o');
        out.push('t');
        out.push(';');
    } else if c == '\'' {
        out.push('&');
        out.push('a');
        out.push('p');
        out.push('o');
        out.push('s');
        out.push(';');
    } else if c == '&' {
        out.push('&');
        out.push('a');
        out.push('m');
        out.push('p');
        out.push(';');
    } else {
        out.push(c);
    }
    assert(final(out)@ =~= old(out)@ + escape_char(c));
}

pub fn push_escaped(out: &mut Vec<char>, s: &Vec<char>)
    ensures
        final(out)@ == old(out)@ + escaped(s@),
{
    let mut i: usize = 0;
    while i < s.len()
        invariant
            i <= s.len(),
            out@ == old(out)@ + escaped(s@.take(i as int)),
        decreases s.len() - i,
    {
        push_escape_char(out, s[i]);
        i = i + 1;
        assert(s@.take(i as int).drop_last() =~= s@.take(i - 1));
        assert(out@ =~= old(out)@ + escaped(s@.take(i as int)));
    }
    assert(s@.take(i as int) =~= s@);
}

proof fn lemma_escaped_plain(s: Seq<char>)
    requires
        forall|i: int| 0 <= i < s.len() ==> !is_special(#[trigger] s[i]),
    ensures
        escaped(s) == s,
    decreases s.len(),
{
    if s.len() > 0 {
        lemma_escaped_plain(s.drop_last());
        assert(s.drop_last().push(s.last()) =~= s);
    }
}

/// The value of `s` as it stands in an attribute: `s` itself when it holds no
/// special character, else the escaped text, kept in `scratch`.
pub fn attr_escape<'a>(s: &'a String, scratch: &'a mut String) -> (r: &'a str)
    ensures
        r@ == escaped(s@),
        (exists|j: int| 0 <= j < s@.len() && is_special(#[trigger] s@[j])) ==> final(scratch)@
            == escaped(s@),
        (forall|j: int| 0 <= j < s@.len() ==> !is_special(#[trigger] s@[j])) ==> *final(scratch)
            == *old(scratch),
{
    let v = chars_of(s.as_str());
    let mut any_found = false;
    let mut i: usize = 0;
    while i < v.len()
        invariant
            i <= v.len(),
            any_found == exists|j: int| 0 <= j < i && is_special(#[trigger] v@[j]),
        decreases v.len() - i,
    {
        let c = v[i];
        if c == '<' || c == '>' || c == '"' || c == '\'' || c == '&' {
            any_found = true;
        }
        i = i + 1;
    }
    if any_found {
        let mut out: Vec<char> = Vec::new();
        push_escaped(&mut out, &v);
        assert(out@ =~= escaped(s@));
        *scratch = string_from_chars(&out);
        scratch.as_str()
    } else {
        proof {
            lemma_escaped_plain(s@);
        }
        s.as_str()
    }
}

/// The length of the entity that `s` starts with, or 0.
pub open spec fn entity_len(s: Seq<char>) -> nat {
    if s.len() >= 4 && s.take(4) == seq!['&', 'l', 't', ';'] {
        4
    } else if s.len() >= 4 && s.take(4) == seq!['&', 'g', 't', ';'] {
        4
    } else if s.len() >= 5 && s.take(5) == seq!['&', 'a', 'm', 'p', ';'] {
        5
    } else if s.len() >= 6 && s.take(6) == seq!['&', 'q', 'u', 'o', 't', ';'] {
        6
    } else if s.len() >= 6 && s.take(6) == seq!['&', 'a', 'p', 'o', 's', ';'] {
        6
    } else {
        0
    }
}

pub open spec fn entity_char(s: Seq<char>) -> char {
    if s[1] == 'l' {
        '<'
    } else if s[1] == 'g' {
        '>'
    } else if s[1] == 'q' {
        '"'
    } else if s[2] == 'p' {
        '\''
    } else {
        '&'
    }
}

/// `s` with each entity replaced by the character it stands for.
pub open spec fn unescaped(s: Seq<char>) -> Seq<char>
    decreases s.len(),
{
    if s.len() == 0 {
        Seq::empty()
    } else if entity_len(s) > 0 {
        seq![entity_char(s)] + unescaped(s.skip(entity_len(s) as int))
    } else {
        seq![s[0]] + unescaped(s.skip(1))
    }
}

pub proof fn lemma_escaped_concat(a: Seq<char>, b: Seq<char>)
    ensures
        escaped(a + b) == escaped(a) + escaped(b),
    decreases b.len(),
{
    if b.len() == 0 {
        assert(a + b =~= a);
        assert(escaped(a) + escaped(b) =~= escaped(a));
    } else {
        assert((a + b).drop_last() =~= a + b.drop_last());
        lemma_escaped_concat(a, b.drop_last());
    }
}

#[verifier::rlimit(60)]
proof fn lemma_unescape_char(c: char, e: Seq<char>)
    ensures
        unescaped(escape_char(c) + e) == seq![c] + unescaped(e),
{
    let t = escape_char(c) + e;
    let n = escape_char(c).len();
    assert(t.skip(n as int) =~= e);
    if c == '<' {
        assert(t.take(4) =~= seq!['&', 'l', 't', ';']);
    } else if c == '>' {
        assert(t.take(4) =~= seq!['&', 'g', 't', ';']);
        assert(t.take(4) != seq!['&', 'l', 't', ';']) by {
            assert(t.take(4)[1] != seq!['&', 'l', 't', ';'][1]);
        }
    } else if c == '&' {
        assert(t.take(5) =~= seq!['&', 'a', 'm', 'p', ';']);
        assert(t.take(4) != seq!['&', 'l', 't', ';']) by {
            assert(t.take(4)[1] != seq!['&', 'l', 't', ';'][1]);
        }
        assert(t.take(4) != seq!['&', 'g', 't', ';']) by {
            assert(t.take(4)[1] != seq!['&', 'g', 't', ';'][1]);
        }
    } else if c == '"' {
        assert(t.take(6) =~= seq!['&', 'q', 'u', 'o', 't', ';']);
        assert(t.take(4) != seq!['&', 'l', 't', ';']) by {
            assert(t.take(4)[1] != seq!['&', 'l', 't', ';'][1]);
        }
        assert(t.take(4) != seq!['&', 'g', 't', ';']) by {
            assert(t.take(4)[1] != seq!['&', 'g', 't', ';'][1]);
        }
        assert(t.take(5) != seq!['&', 'a', 'm', 'p', ';']) by {
            assert(t.take(5)[1] != seq!['&', 'a', 'm', 'p', ';'][1]);
        }
    } else if c == '\'' {
        assert(t.take(6) =~= seq!['&', 'a', 'p', 'o', 's', ';']);
        assert(t.take(4) != seq!['&', 'l', 't', ';']) by {
            assert(t.take(4)[1] != seq!['&', 'l', 't', ';'][1]);
        }
        assert(t.take(4) != seq!['&', 'g', 't', ';']) by {
            assert(t.take(4)[1] != seq!['&', 'g', 't', ';'][1]);
        }
        assert(t.take(5) != seq!['&', 'a', 'm', 'p', ';']) by {
            assert(t.take(5)[2] != seq!['&', 'a', 'm', 'p', ';'][2]);
        }
        assert(t.take(6) != seq!['&', 'q', 'u', 'o', 't', ';']) by {
            assert(t.take(6)[1] != seq!['&', 'q', 'u', 'o', 't', ';'][1]);
        }
    } else {
        assert(t[0] == c);
        assert(entity_len(t) == 0) by {
            if t.len() >= 4 {
                assert(t.take(4)[0] == c);
            }
            if t.len() >= 5 {
                assert(t.take(5)[0] == c);
            }
            if t.len() >= 6 {
                assert(t.take(6)[0] == c);
            }
        }
    }
}

proof fn lemma_escaped_front(c: char, r: Seq<char>)
    ensures
        escaped(seq![c] + r) == escape_char(c) + escaped(r),
{
    lemma_escaped_concat(seq![c], r);
    assert(seq![c].drop_last() =~= Seq::<char>::empty());
    assert(escaped(Seq::<char>::empty()) =~= Seq::<char>::empty());
    assert(escaped(seq![c]) == escaped(Seq::<char>::empty()) + escape_char(seq![c].last()));
    assert(escaped(seq![c]) =~= escape_char(c));
}

/// Escaping, then reading the entities back, gives the text unchanged.
pub proof fn lemma_unescape_escaped(x: Seq<char>)
    ensures
        unescaped(escaped(x)) == x,
    decreases x.len(),
{
    if x.len() > 0 {
        let c = x[0];
        let r = x.skip(1);
        assert(x =~= seq![c] + r);
        lemma_escaped_front(c, r);
        lemma_unescape_escaped(r);
        lemma_unescape_char(c, escaped(r));
        assert(seq![c] + r =~= x);
    } else {
        assert(escaped(x) =~= Seq::<char>::empty());
        assert(x =~= Seq::<char>::empty());
    }
}

/// The escaped text holds no quote, and no `)` unless the text does.
pub proof fn lemma_escaped_chars(x: Seq<char>)
    ensures
        forall|i: int| 0 <= i < escaped(x).len() ==> #[trigger] escaped(x)[i] != '"',
        (forall|i: int| 0 <= i < x.len() ==> #[trigger] x[i] != ')') ==> forall|i: int|
            0 <= i < escaped(x).len() ==> #[trigger] escaped(x)[i] != ')',
    decreases x.len(),
{
    if x.len() > 0 {
        let p = x.drop_last();
        lemma_escaped_chars(p);
        let a = escaped(p);
        let b = escape_char(x.last());
        assert(escaped(x) == a + b);
        assert forall|i: int| 0 <= i < escaped(x).len() implies #[trigger] escaped(x)[i] != '"' by {
            if i >= a.len() {
                assert(escaped(x)[i] == b[i - a.len()]);
            } else {
                assert(escaped(x)[i] == a[i]);
            }
        }
        if forall|i: int| 0 <= i < x.len() ==> #[trigger] x[i] != ')' {
            assert forall|i: int| 0 <= i < p.len() implies #[trigger] p[i] != ')' by {
                assert(p[i] == x[i]);
            }
            assert(x.last() != ')');
            assert forall|i: int| 0 <= i < escaped(x).len() implies #[trigger] escaped(x)[i] != ')' by {
                if i >= a.len() {
                    assert(escaped(x)[i] == b[i - a.len()]);
                } else {
                    assert(escaped(x)[i] == a[i]);
                }
            }
        }
    }
}

fn entity_at(s: &Vec<char>, i: usize, hi: usize) -> (r: (usize, char))
    requires
        i < hi <= s.len(),
    ensures
        r.0 == entity_len(s@.subrange(i as int, hi as int)),
        r.0 > 0 ==> r.1 == entity_char(s@.subrange(i as int, hi as int)),
{
    let ghost t = s@.subrange(i as int, hi as int);
    let n = hi - i;
    let at = |k: usize| -> (c: char)
        requires
            k < n,
        ensures
            c == s@[i + k],
        { s[i + k] };
    if s[i] != '&' {
        proof {
            if t.len() >= 4 {
                assert(t.take(4)[0] == t[0]);
            }
            if t.len() >= 5 {
                assert(t.take(5)[0] == t[0]);
            }
            if t.len() >= 6 {
                assert(t.take(6)[0] == t[0]);
            }
        }
        return (0, ' ');
    }
    if n >= 4 && at(1) == 'l' && at(2) == 't' && at(3) == ';' {
        assert(t.take(4) =~= seq!['&', 'l', 't', ';']);
        return (4, '<');
    }
    proof {
        if t.len() >= 4 && t.take(4) == seq!['&', 'l', 't', ';'] {
            assert(t.take(4)[1] == t[1]);
        }
    }
    if n >= 4 && at(1) == 'g' && at(2) == 't' && at(3) == ';' {
        assert(t.take(4) =~= seq!['&', 'g', 't', ';']);
        return (4, '>');
    }
    proof {
        if t.len() >= 4 && t.take(4) == seq!['&', 'g', 't', ';'] {
            assert(t.take(4)[1] == t[1] && t.take(4)[2] == t[2] && t.take(4)[3] == t[3]);
        }
    }
    if n >= 5 && at(1) == 'a' && at(2) == 'm' && at(3) == 'p' && at(4) == ';' {
        assert(t.take(5) =~= seq!['&', 'a', 'm', 'p', ';']);
        return (5, '&');
    }
    proof {
        if t.len() >= 5 && t.take(5) == seq!['&', 'a', 'm', 'p', ';'] {
            assert(t.take(5)[1] == t[1] && t.take(5)[2] == t[2] && t.take(5)[3] == t[3] && t.take(5)[4] == t[4]);
        }
    }
    if n >= 6 && at(1) == 'q' && at(2) == 'u' && at(3) == 'o' && at(4) == 't' && at(5) == ';' {
        assert(t.take(6) =~= seq!['&', 'q', 'u', 'o', 't', ';']);
        return (6, '"');
    }
    proof {
        if t.len() >= 6 && t.take(6) == seq!['&', 'q', 'u', 'o', 't', ';'] {
            assert(t.take(6)[1] == t[1] && t.take(6)[2] == t[2] && t.take(6)[3] == t[3] && t.take(6)[4] == t[4] && t.take(6)[5] == t[5]);
        }
    }
    if n >= 6 && at(1) == 'a' && at(2) == 'p' && at(3) == 'o' && at(4) == 's' && at(5) == ';' {
        assert(t.take(6) =~= seq!['&', 'a', 'p', 'o', 's', ';']);
        return (6, '\'');
    }
    proof {
        if t.len() >= 6 && t.take(6) == seq!['&', 'a', 'p', 'o', 's', ';'] {
            assert(t.take(6)[1] == t[1] && t.take(6)[2] == t[2] && t.take(6)[3] == t[3] && t.take(6)[4] == t[4] && t.take(6)[5] == t[5]);
        }
    }
    (0, ' ')
}

/// Reads the entities of `s[lo..hi]` back into characters.
pub fn unescape(s: &Vec<char>, lo: usize, hi: usize) -> (r: String)
    requires
        lo <= hi <= s.len(),
    ensures
        r@ == unescaped(s@.subrange(lo as int, hi as int)),
{
    let mut out: Vec<char> = Vec::new();
    let mut i = lo;
    while i < hi
        invariant
            lo <= i <= hi <= s.len(),
            out@ + unescaped(s@.subrange(i as int, hi as int)) == unescaped(
                s@.subrange(lo as int, hi as int),
            ),
        decreases hi - i,
    {
        let ghost t = s@.subrange(i as int, hi as int);
        let (n, c) = entity_at(s, i, hi);
        if n > 0 {
            out.push(c);
            assert(t.skip(n as int) =~= s@.subrange(i + n, hi as int));
            i = i + n;
        } else {
            out.push(s[i]);
            assert(t.skip(1) =~= s@.subrange(i + 1, hi as int));
            i = i + 1;
        }
    }
    assert(unescaped(s@.subrange(i as int, hi as int)) =~= Seq::<char>::empty());
    assert(out@ =~= unescaped(s@.subrange(lo as int, hi as int)));
    string_from_chars(&out)
}

} // verus!
