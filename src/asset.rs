//! Where a stamp's own markup lives: its image url with `/stamps/` dropped
//! and the extension replaced by `.svg`.
use vstd::prelude::*;
use crate::text::{chars_of, has_lit, push_range, starts_at, string_from_chars};

verus! {

pub open spec fn stamps_dir() -> Seq<char> {
    seq!['/', 's', 't', 'a', 'm', 'p', 's', '/']
}

pub open spec fn svg_ext() -> Seq<char> {
    seq!['.', 's', 'v', 'g']
}

/// `s` with each `/stamps/`, read from left to right, replaced by `/`.
pub open spec fn drop_stamps(s: Seq<char>) -> Seq<char>
    decreases s.len(),
{
    if s.len() == 0 {
        Seq::empty()
    } else if has_lit(s, 0, stamps_dir()) {
        seq!['/'] + drop_stamps(s.skip(8))
    } else {
        seq![s[0]] + drop_stamps(s.skip(1))
    }
}

/// Where the extension of the last path segment starts: its last `.`.
pub open spec fn ext_start(r: Seq<char>) -> Option<nat>
    decreases r.len(),
{
    if r.len() == 0 {
        None
    } else if r.last() == '.' {
        Some((r.len() - 1) as nat)
    } else if r.last() == '/' {
        None
    } else {
        ext_start(r.drop_last())
    }
}

/// The path of the markup of the stamp whose image is `url`.
pub open spec fn asset_path_of(url: Seq<char>) -> Seq<char> {
    let r = drop_stamps(url);
    match ext_start(r) {
        Some(k) => r.take(k as int) + svg_ext(),
        None => r + svg_ext(),
    }
}

proof fn lemma_ext_start_bound(r: Seq<char>)
    ensures
        ext_start(r) matches Some(k) ==> k < r.len(),
    decreases r.len(),
{
    if r.len() > 0 && r.last() != '.' && r.last() != '/' {
        lemma_ext_start_bound(r.drop_last());
    }
}

/// The markup path of the stamp whose image is `url`.
pub fn asset_path(url: &str) -> (r: String)
    ensures
        r@ == asset_path_of(url@),
{
    let s = chars_of(url);
    let lit = vec!['/', 's', 't', 'a', 'm', 'p', 's', '/'];
    assert(lit@ =~= stamps_dir());
    let mut out: Vec<char> = Vec::new();
    let mut i: usize = 0;
    assert(s@.skip(0) =~= s@);
    while i < s.len()
        invariant
            i <= s.len(),
            lit@ == stamps_dir(),
            out@ + drop_stamps(s@.skip(i as int)) == drop_stamps(s@),
        decreases s.len() - i,
    {
        let ghost t = s@.skip(i as int);
        if starts_at(&s, i, &lit) {
            assert(t.subrange(0, 8) =~= s@.subrange(i as int, i + 8));
            assert(t.skip(8) =~= s@.skip(i + 8));
            let ghost before = out@;
            out.push('/');
            assert(before + (seq!['/'] + drop_stamps(t.skip(8))) =~= out@ + drop_stamps(t.skip(8)));
            i = i + 8;
        } else {
            assert(!has_lit(t, 0, stamps_dir())) by {
                if has_lit(t, 0, stamps_dir()) {
                    assert(t.subrange(0, 8) =~= s@.subrange(i as int, i + 8));
                }
            }
            assert(t.skip(1) =~= s@.skip(i + 1));
            let ghost before = out@;
            out.push(s[i]);
            assert(before + (seq![t[0]] + drop_stamps(t.skip(1))) =~= out@ + drop_stamps(t.skip(1)));
            i = i + 1;
        }
    }
    assert(s@.skip(i as int) =~= Seq::<char>::empty());
    assert(out@ =~= drop_stamps(s@));
    let mut j = out.len();
    assert(out@.take(j as int) =~= out@);
    let mut ext: Option<usize> = None;
    loop
        invariant_except_break
            ext is None,
        invariant
            j <= out.len(),
            ext_start(out@) == ext_start(out@.take(j as int)),
        ensures
            ext matches Some(k) ==> ext_start(out@) == Some(k as nat) && k < out.len(),
            ext is None ==> ext_start(out@) is None,
        decreases j,
    {
        if j == 0 {
            assert(out@.take(0) =~= Seq::<char>::empty());
            break;
        }
        let c = out[j - 1];
        assert(out@.take(j as int).drop_last() =~= out@.take(j - 1));
        if c == '.' {
            ext = Some(j - 1);
            break;
        }
        if c == '/' {
            break;
        }
        j = j - 1;
    }
    let mut res: Vec<char> = Vec::new();
    match ext {
        Some(k) => {
            push_range(&mut res, &out, 0, k);
            assert(ext_start(out@) == Some(k as nat));
        },
        None => {
            push_range(&mut res, &out, 0, out.len());
            assert(out@.subrange(0, out@.len() as int) =~= out@);
            assert(ext_start(out@) is None);
        },
    }
    res.push('.');
    res.push('s');
    res.push('v');
    res.push('g');
    proof {
        match ext {
            Some(k) => {
                assert(out@.subrange(0, k as int) =~= out@.take(k as int));
            },
            None => {},
        }
    }
    assert(res@ =~= asset_path_of(url@));
    string_from_chars(&res)
}

} // verus!
