//! Reading numbers as a float parser accepts them: an optional sign, digits
//! with at most one point, and an optional exponent. The value is kept
//! exactly, as a canonical `Decimal`.
use vstd::prelude::*;
use crate::decimal::{dec_text, lemma_dec_chars, lemma_pow10_pos, pow10, Decimal};
use crate::points::find_char_in;
use crate::text::{all_digits, digit_char, digit_val, digits_val, find_char, is_digit, lemma_digit_char};

verus! {

/// The largest exponent magnitude that is read. A double's own range ends
/// near `1e308` (and `1e-324`); past this limit it gives infinity or zero,
/// and the token is refused.
pub const EXP_LIMIT: u64 = 400;

/// Reading a mantissa from left to right. The digits read so far denote
/// `m * 10^z`, where `m` is 0 or ends in a digit other than 0, and fits 64
/// bits: a digit that would make `m` outgrow them is read as 0 (a double
/// keeps fewer digits than that). Then the count of digits after the point,
/// whether a point was seen, the count of digits, and whether every
/// character was a digit or the one point.
pub open spec fn mscan(s: Seq<char>) -> (nat, nat, nat, bool, nat, bool)
    decreases s.len(),
{
    if s.len() == 0 {
        (0, 0, 0, false, 0, true)
    } else {
        let st = mscan(s.drop_last());
        let c = s.last();
        if !st.5 {
            st
        } else if is_digit(c) {
            let f = if st.3 {
                st.2 + 1
            } else {
                st.2
            };
            if digit_val(c) == 0 || st.0 * pow10(st.1 + 1) + digit_val(c) > u64::MAX {
                (st.0, st.1 + 1, f, st.3, st.4 + 1, true)
            } else {
                (st.0 * pow10(st.1 + 1) + digit_val(c), 0, f, st.3, st.4 + 1, true)
            }
        } else if c == '.' && !st.3 {
            (st.0, st.1, st.2, true, st.4, true)
        } else {
            (st.0, st.1, st.2, st.3, st.4, false)
        }
    }
}

/// An exponent: an optional sign and at least one digit, of magnitude at
/// most `EXP_LIMIT`.
pub open spec fn exp_of(b: Seq<char>) -> Option<int> {
    let sgn = b.len() > 0 && (b[0] == '+' || b[0] == '-');
    let body = if sgn {
        b.skip(1)
    } else {
        b
    };
    if body.len() > 0 && all_digits(body) && digits_val(body) <= EXP_LIMIT {
        Some(
            if b.len() > 0 && b[0] == '-' {
                -(digits_val(body) as int)
            } else {
                digits_val(body) as int
            },
        )
    } else {
        None
    }
}

/// The canonical decimal `(-1)^neg * m * 10^p`, when it fits.
pub open spec fn normalize(neg: bool, m: nat, p: int) -> Option<Decimal> {
    if m == 0 {
        Some(Decimal { neg: false, mant: 0, scale: 0, exp: 0 })
    } else if m > u64::MAX {
        None
    } else if p >= 0 {
        if m * pow10(p as nat) <= u64::MAX {
            Some(Decimal { neg, mant: (m * pow10(p as nat)) as u64, scale: 0, exp: 0 })
        } else if p <= u32::MAX {
            Some(Decimal { neg, mant: m as u64, scale: 0, exp: p as u32 })
        } else {
            None
        }
    } else if -p <= u32::MAX {
        Some(Decimal { neg, mant: m as u64, scale: (-p) as u32, exp: 0 })
    } else {
        None
    }
}

/// Where the exponent marker `e` or `E` first stands, or `u.len()`.
pub open spec fn exp_mark(u: Seq<char>) -> nat {
    let a = find_char(u, 0, 'e');
    let b = find_char(u, 0, 'E');
    if a <= b {
        a
    } else {
        b
    }
}

/// The number that the token `t` denotes. Tokens that name no finite
/// number (`inf`, `infinity`, `NaN`) are refused: a placement or a point is
/// always finite. So are exponents beyond `EXP_LIMIT`.
#[verifier::opaque]
pub open spec fn number_of(t: Seq<char>) -> Option<Decimal> {
    let sgn = t.len() > 0 && (t[0] == '+' || t[0] == '-');
    let neg = t.len() > 0 && t[0] == '-';
    let u = if sgn {
        t.skip(1)
    } else {
        t
    };
    let k = exp_mark(u);
    let ex = if k < u.len() {
        exp_of(u.skip((k + 1) as int))
    } else {
        Some(0int)
    };
    let st = mscan(u.take(k as int));
    match ex {
        None => None,
        Some(e) => if !st.5 || st.4 == 0 {
            None
        } else {
            normalize(neg, st.0, st.1 + e - st.2)
        },
    }
}

pub proof fn lemma_mscan_shape(s: Seq<char>)
    ensures
        mscan(s).0 == 0 || mscan(s).0 % 10 != 0,
        mscan(s).0 <= u64::MAX,
    decreases s.len(),
{
    if s.len() > 0 {
        lemma_mscan_shape(s.drop_last());
        let st = mscan(s.drop_last());
        let c = s.last();
        if st.5 && is_digit(c) && digit_val(c) != 0 && st.0 * pow10(st.1 + 1) + digit_val(c) <= u64::MAX {
            let a = st.0 * pow10(st.1 + 1);
            lemma_pow10_pos(st.1);
            assert(pow10(st.1 + 1) == 10 * pow10(st.1));
            let q = st.0 * pow10(st.1);
            assert(a == q * 10) by (nonlinear_arith)
                requires
                    a == st.0 * (10 * pow10(st.1)),
                    q == st.0 * pow10(st.1),
            ;
            vstd::arithmetic::div_mod::lemma_mod_multiples_basic(q as int, 10);
            assert((a + digit_val(c)) % 10 == digit_val(c)) by (nonlinear_arith)
                requires
                    a % 10 == 0,
                    digit_val(c) < 10,
            ;
        }
    }
}

proof fn lemma_mscan_mono(s: Seq<char>, i: int)
    requires
        0 <= i <= s.len(),
        mscan(s).5,
    ensures
        mscan(s.take(i)).5,
    decreases s.len(),
{
    if i < s.len() {
        assert(s.drop_last().take(i) =~= s.take(i));
        lemma_mscan_mono(s.drop_last(), i);
    } else {
        assert(s.take(i) =~= s);
    }
}

fn pow10_u128(k: u32) -> (r: u128)
    requires
        k <= 19,
    ensures
        r == pow10(k as nat),
        r <= 10_000_000_000_000_000_000u128,
{
    let mut r: u128 = 1;
    let mut j: u32 = 0;
    assert(pow10(0) == 1);
    while j < k
        invariant
            j <= k <= 19,
            r == pow10(j as nat),
            r <= pow10(j as nat),
        decreases k - j,
    {
        assert(pow10((j + 1) as nat) == 10 * pow10(j as nat));
        proof {
            lemma_pow10_le19(j as nat);
        }
        r = r * 10;
        j = j + 1;
    }
    proof {
        lemma_pow10_le19(k as nat);
    }
    r
}

proof fn lemma_pow10_le19(k: nat)
    requires
        k <= 19,
    ensures
        pow10(k) <= 10_000_000_000_000_000_000,
{
    lemma_pow10_mono(k, 19);
    reveal_with_fuel(pow10, 20);
}

proof fn lemma_pow10_20()
    ensures
        pow10(20) == 100_000_000_000_000_000_000,
{
    reveal_with_fuel(pow10, 21);
}

proof fn lemma_pow10_mono(a: nat, b: nat)
    requires
        a <= b,
    ensures
        pow10(a) <= pow10(b),
    decreases b,
{
    if a < b {
        lemma_pow10_mono(a, (b - 1) as nat);
        lemma_pow10_pos((b - 1) as nat);
    }
}

/// Scans the mantissa `s[lo..hi]`: `m`, `z`, `f` and the digit count, or
/// `None` when a character does not belong or `m` outgrows `u64`.
fn scan_mant(s: &Vec<char>, lo: usize, hi: usize) -> (r: Option<(u64, usize, usize, usize)>)
    requires
        lo <= hi <= s.len(),
    ensures
        match r {
            Some((m, z, f, nd)) => {
                let st = mscan(s@.subrange(lo as int, hi as int));
                st.5 && st.0 == m && st.1 == z && st.2 == f && st.4 == nd
            },
            None => !mscan(s@.subrange(lo as int, hi as int)).5,
        },
{
    let ghost whole = s@.subrange(lo as int, hi as int);
    let mut m: u64 = 0;
    let mut z: usize = 0;
    let mut f: usize = 0;
    let mut nd: usize = 0;
    let mut dot = false;
    let mut i = lo;
    while i < hi
        invariant
            lo <= i <= hi <= s.len(),
            whole == s@.subrange(lo as int, hi as int),
            z <= i - lo,
            f <= i - lo,
            nd <= i - lo,
            mscan(s@.subrange(lo as int, i as int)) == (m as nat, z as nat, f as nat, dot, nd as nat, true),
        decreases hi - i,
    {
        let c = s[i];
        let ghost pre = s@.subrange(lo as int, i as int);
        let ghost next = s@.subrange(lo as int, i + 1);
        assert(next.drop_last() =~= pre);
        assert(whole.take(i + 1 - lo) =~= next);
        if '0' <= c && c <= '9' {
            let d = (c as u32 - 48) as u64;
            assert(digit_val(c) == d);
            if dot {
                f = f + 1;
            }
            nd = nd + 1;
            if d == 0 {
                z = z + 1;
            } else if m == 0 {
                proof {
                    assert(0 * pow10((z + 1) as nat) == 0);
                }
                m = d;
                z = 0;
            } else {
                if z >= 19 {
                    proof {
                        lemma_pow10_mono(20, (z + 1) as nat);
                        lemma_pow10_20();
                        assert(m * pow10((z + 1) as nat) >= pow10(20)) by (nonlinear_arith)
                            requires
                                m >= 1,
                                pow10((z + 1) as nat) >= pow10(20),
                        ;
                    }
                    z = z + 1;
                } else {
                let p = pow10_u128((z + 1) as u32);
                assert((m as u128) * p <= 18_446_744_073_709_551_615u128 * 10_000_000_000_000_000_000u128)
                    by (nonlinear_arith)
                    requires
                        m <= u64::MAX,
                        p <= 10_000_000_000_000_000_000u128,
                ;
                let big: u128 = (m as u128) * p + (d as u128);
                if big > u64::MAX as u128 {
                    z = z + 1;
                } else {
                    m = big as u64;
                    z = 0;
                }
                }
            }
        } else if c == '.' && !dot {
            dot = true;
        } else {
            proof {
                if mscan(whole).5 {
                    lemma_mscan_mono(whole, i + 1 - lo);
                }
            }
            return None;
        }
        i = i + 1;
    }
    assert(s@.subrange(lo as int, i as int) == whole);
    Some((m, z, f, nd))
}

/// Reads the exponent `s[lo..hi]`.
fn read_exp(s: &Vec<char>, lo: usize, hi: usize) -> (r: Option<i64>)
    requires
        lo <= hi <= s.len(),
    ensures
        match r {
            Some(e) => exp_of(s@.subrange(lo as int, hi as int)) == Some(e as int),
            None => exp_of(s@.subrange(lo as int, hi as int)) is None,
        },
{
    let ghost b = s@.subrange(lo as int, hi as int);
    let sgn = lo < hi && (s[lo] == '+' || s[lo] == '-');
    let neg = lo < hi && s[lo] == '-';
    let st = if sgn {
        lo + 1
    } else {
        lo
    };
    let ghost body = s@.subrange(st as int, hi as int);
    assert(body =~= if sgn {
        b.skip(1)
    } else {
        b
    });
    if st >= hi {
        return None;
    }
    let mut v: u64 = 0;
    let mut i = st;
    while i < hi
        invariant
            st <= i <= hi <= s.len(),
            body == s@.subrange(st as int, hi as int),
            b == s@.subrange(lo as int, hi as int),
            body == if sgn {
                b.skip(1)
            } else {
                b
            },
            sgn == (b.len() > 0 && (b[0] == '+' || b[0] == '-')),
            neg == (b.len() > 0 && b[0] == '-'),
            st < hi,
            all_digits(s@.subrange(st as int, i as int)),
            v as nat == if digits_val(s@.subrange(st as int, i as int)) > EXP_LIMIT {
                (EXP_LIMIT + 1) as nat
            } else {
                digits_val(s@.subrange(st as int, i as int))
            },
        decreases hi - i,
    {
        let c = s[i];
        if !('0' <= c && c <= '9') {
            assert(!all_digits(body)) by {
                assert(body[i - st] == c);
            }
            return None;
        }
        let ghost pre = s@.subrange(st as int, i as int);
        let ghost next = s@.subrange(st as int, i + 1);
        assert(next.drop_last() =~= pre);
        assert(digit_val(c) == (c as u32 - 48));
        if v <= EXP_LIMIT {
            v = v * 10 + (c as u32 - 48) as u64;
            if v > EXP_LIMIT {
                v = EXP_LIMIT + 1;
            }
        }
        i = i + 1;
        assert(all_digits(next)) by {
            assert forall|j: int| 0 <= j < next.len() implies is_digit(#[trigger] next[j]) by {
                if j < pre.len() {
                    assert(next[j] == pre[j]);
                }
            }
        }
    }
    assert(s@.subrange(st as int, i as int) == body);
    if v > EXP_LIMIT {
        return None;
    }
    if neg {
        Some(-(v as i64))
    } else {
        Some(v as i64)
    }
}

/// Reads the number token `s[lo..hi]`.
pub fn read_number(s: &Vec<char>, lo: usize, hi: usize) -> (r: Option<Decimal>)
    requires
        lo <= hi <= s.len(),
    ensures
        r == number_of(s@.subrange(lo as int, hi as int)),
        r matches Some(d) ==> d.wf(),
{
    reveal(number_of);
    let ghost t = s@.subrange(lo as int, hi as int);
    let sgn = lo < hi && (s[lo] == '+' || s[lo] == '-');
    let neg = lo < hi && s[lo] == '-';
    let b = if sgn {
        lo + 1
    } else {
        lo
    };
    let ghost u = s@.subrange(b as int, hi as int);
    assert(u =~= if sgn {
        t.skip(1)
    } else {
        t
    });
    let ke = find_char_in(s, b, hi, 'e');
    let kk = find_char_in(s, b, hi, 'E');
    let k = if ke <= kk {
        ke
    } else {
        kk
    };
    assert(k - b == exp_mark(u));
    let e: i64 = if k < hi {
        assert(u.skip(k - b + 1) =~= s@.subrange(k + 1, hi as int));
        match read_exp(s, k + 1, hi) {
            Some(e) => e,
            None => {
                return None;
            },
        }
    } else {
        0
    };
    assert(u.take(k - b) =~= s@.subrange(b as int, k as int));
    let ghost st = mscan(u.take(k - b));
    proof {
        lemma_mscan_shape(u.take(k - b));
    }
    let (m, z, f, nd) = match scan_mant(s, b, k) {
        Some(x) => x,
        None => {
            return None;
        },
    };
    if nd == 0 {
        return None;
    }
    normalize_exec(neg, m, z, f, e)
}

fn normalize_exec(neg: bool, m: u64, z: usize, f: usize, e: i64) -> (r: Option<Decimal>)
    requires
        m == 0 || m % 10 != 0,
    ensures
        r == normalize(neg, m as nat, z + e - f),
        r matches Some(d) ==> d.wf(),
{
    if m == 0 {
        return Some(Decimal { neg: false, mant: 0, scale: 0, exp: 0 });
    }
    let p: i128 = z as i128 + e as i128 - f as i128;
    if p >= 0 {
        if p > 19 {
            proof {
                lemma_pow10_mono(20, p as nat);
                lemma_pow10_20();
                assert(m * pow10(p as nat) >= pow10(20)) by (nonlinear_arith)
                    requires
                        m >= 1,
                        pow10(p as nat) >= pow10(20),
                ;
            }
            if p > u32::MAX as i128 {
                return None;
            }
            return Some(Decimal { neg, mant: m, scale: 0, exp: p as u32 });
        }
        let q = pow10_u128(p as u32);
        assert((m as u128) * q <= 18_446_744_073_709_551_615u128 * 10_000_000_000_000_000_000u128)
            by (nonlinear_arith)
            requires
                m <= u64::MAX,
                q <= 10_000_000_000_000_000_000u128,
        ;
        let v: u128 = (m as u128) * q;
        if v > u64::MAX as u128 {
            return Some(Decimal { neg, mant: m, scale: 0, exp: p as u32 });
        }
        proof {
            lemma_pow10_pos(p as nat);
            assert(m * q >= 1) by (nonlinear_arith)
                requires
                    m >= 1,
                    q >= 1,
            ;
        }
        Some(Decimal { neg, mant: v as u64, scale: 0, exp: 0 })
    } else {
        if -p > u32::MAX as i128 {
            return None;
        }
        Some(Decimal { neg, mant: m, scale: (-p) as u32, exp: 0 })
    }
}

proof fn lemma_mscan_digit_step(s: Seq<char>, v: nat)
    requires
        s.len() > 0,
        is_digit(s.last()),
        mscan(s.drop_last()).5,
        mscan(s.drop_last()).0 * pow10(mscan(s.drop_last()).1) == v,
        v * 10 + digit_val(s.last()) <= u64::MAX,
    ensures
        mscan(s).5,
        mscan(s).0 * pow10(mscan(s).1) == v * 10 + digit_val(s.last()),
        s.last() != '0' ==> mscan(s).1 == 0,
        mscan(s).3 == mscan(s.drop_last()).3,
        mscan(s).2 == if mscan(s.drop_last()).3 {
            mscan(s.drop_last()).2 + 1
        } else {
            mscan(s.drop_last()).2
        },
        mscan(s).4 == mscan(s.drop_last()).4 + 1,
{
    let st = mscan(s.drop_last());
    let d = digit_val(s.last());
    assert(pow10(st.1 + 1) == 10 * pow10(st.1));
    assert(d == 0 <==> s.last() == '0');
    assert(st.0 * pow10(st.1 + 1) == (st.0 * pow10(st.1)) * 10) by (nonlinear_arith)
        requires
            pow10(st.1 + 1) == 10 * pow10(st.1),
    ;
    if d != 0 {
        assert(pow10(0) == 1);
        let m2 = st.0 * pow10(st.1 + 1) + d;
        assert(m2 * pow10(0) == m2);
    }
}

proof fn lemma_mscan_digits(a: Seq<char>)
    requires
        all_digits(a),
        digits_val(a) <= u64::MAX,
    ensures
        mscan(a).5,
        !mscan(a).3,
        mscan(a).2 == 0,
        mscan(a).4 == a.len(),
        mscan(a).0 * pow10(mscan(a).1) == digits_val(a),
        a.len() > 0 && a.last() != '0' ==> mscan(a).1 == 0,
    decreases a.len(),
{
    if a.len() == 0 {
        assert(pow10(0) == 1);
        assert(digits_val(a) == 0);
        assert(mscan(a).0 == 0 && mscan(a).1 == 0);
        assert(mscan(a).0 * pow10(mscan(a).1) == 0);
    } else {
        lemma_mscan_digits(a.drop_last());
        lemma_mscan_digit_step(a, digits_val(a.drop_last()));
    }
}

proof fn lemma_mscan_point(a: Seq<char>, b: Seq<char>)
    requires
        all_digits(a),
        all_digits(b),
        digits_val(a + b) <= u64::MAX,
    ensures
        mscan(a + seq!['.'] + b).5,
        mscan(a + seq!['.'] + b).3,
        mscan(a + seq!['.'] + b).2 == b.len(),
        mscan(a + seq!['.'] + b).4 == a.len() + b.len(),
        mscan(a + seq!['.'] + b).0 * pow10(mscan(a + seq!['.'] + b).1) == digits_val(a + b),
        b.len() > 0 && b.last() != '0' ==> mscan(a + seq!['.'] + b).1 == 0,
    decreases b.len(),
{
    let s = a + seq!['.'] + b;
    if b.len() == 0 {
        assert(s =~= a.push('.'));
        assert(s.drop_last() =~= a);
        assert(a + b =~= a);
        lemma_mscan_digits(a);
    } else {
        assert(s.drop_last() =~= a + seq!['.'] + b.drop_last());
        assert((a + b).drop_last() =~= a + b.drop_last());
        assert(digits_val(a + b) == digits_val(a + b.drop_last()) * 10 + digit_val(b.last()));
        lemma_mscan_point(a, b.drop_last());
        assert(s.last() == b.last());
        assert((a + b).last() == b.last());
        lemma_mscan_digit_step(s, digits_val(a + b.drop_last()));
    }
}

#[verifier::rlimit(60)]
proof fn lemma_unsigned_read(d: Decimal)
    requires
        d.wf(),
        d.exp == 0,
    ensures
        ({
            let u = crate::decimal::unsigned_text(d.mant as nat, d.scale as nat);
            &&& u.len() > 0
            &&& is_digit(u[0])
            &&& exp_mark(u) == u.len()
            &&& mscan(u).5
            &&& mscan(u).4 > 0
            &&& normalize(d.neg, mscan(u).0, mscan(u).1 + 0 - mscan(u).2) == Some(d)
        }),
{
    let m = d.mant as nat;
    let k = d.scale as nat;
    let u = crate::decimal::unsigned_text(m, k);
    lemma_mscan_shape(u);
    crate::text::lemma_nat_digits(m);
    lemma_digit_char(m % 10);
    assert(pow10(0) == 1);
    if k == 0 {
        assert(u == crate::text::nat_digits(m));
        lemma_mscan_digits(u);
        assert forall|i: int| 0 <= i < u.len() implies #[trigger] u[i] != 'e' && u[i] != 'E' by {}
        crate::points::lemma_find_none(u, 0, 'e');
        crate::points::lemma_find_none(u, 0, 'E');
        let st = mscan(u);
        lemma_pow10_pos(st.1);
        if m > 0 {
            assert(st.0 != 0) by {
                if st.0 == 0 {
                    assert(0 * pow10(st.1) == 0);
                }
            }
        } else {
            assert(st.0 == 0) by {
                if st.0 != 0 {
                    assert(st.0 * pow10(st.1) >= 1) by (nonlinear_arith)
                        requires
                            st.0 >= 1,
                            pow10(st.1) >= 1,
                    ;
                }
            }
        }
    } else {
        crate::decimal::lemma_padded(m, k);
        let p = crate::decimal::padded(m, k);
        let a = p.take(p.len() - k);
        let b = p.skip(p.len() - k);
        assert(all_digits(a));
        assert(all_digits(b));
        assert(a + b =~= p);
        assert(b.last() == p.last());
        assert(u == a + seq!['.'] + b);
        assert(u[0] == p[0]);
        lemma_mscan_point(a, b);
        assert forall|i: int| 0 <= i < u.len() implies #[trigger] u[i] != 'e' && u[i] != 'E' by {
            if i < a.len() {
                assert(u[i] == a[i]);
            } else if i > a.len() {
                assert(u[i] == b[i - a.len() - 1]);
            }
        }
        crate::points::lemma_find_none(u, 0, 'e');
        crate::points::lemma_find_none(u, 0, 'E');
        let st = mscan(u);
        assert(st.1 == 0);
        assert(pow10(0) == 1);
        assert(st.0 * pow10(st.1) == m);
        let x = st.0;
        let y = pow10(st.1);
        assert(x == m) by (nonlinear_arith)
            requires
                x * y == m,
                y == 1,
        ;
    }
}

proof fn lemma_mscan_zeros(a: Seq<char>, k: nat)
    requires
        mscan(a).5,
        !mscan(a).3,
    ensures
        mscan(a + crate::text::zeros(k)) == (mscan(a).0, mscan(a).1 + k, mscan(a).2, false, mscan(a).4 + k, true),
    decreases k,
{
    let zk = crate::text::zeros(k);
    if k == 0 {
        assert(a + zk =~= a);
    } else {
        let zp = crate::text::zeros((k - 1) as nat);
        lemma_mscan_zeros(a, (k - 1) as nat);
        assert((a + zk).drop_last() =~= a + zp);
        assert((a + zk).last() == '0');
        lemma_digit_char(0);
    }
}

proof fn lemma_big_read(d: Decimal)
    requires
        d.wf(),
        d.exp > 0,
    ensures
        ({
            let u = crate::decimal::body_text(d);
            &&& u.len() > 0
            &&& is_digit(u[0])
            &&& exp_mark(u) == u.len()
            &&& mscan(u).5
            &&& mscan(u).4 > 0
            &&& normalize(d.neg, mscan(u).0, mscan(u).1 + 0 - mscan(u).2) == Some(d)
        }),
{
    let m = d.mant as nat;
    let nd = crate::text::nat_digits(m);
    let u = crate::decimal::body_text(d);
    crate::text::lemma_nat_digits(m);
    lemma_digit_char(m % 10);
    lemma_dec_chars(d);
    lemma_mscan_digits(nd);
    assert(mscan(nd).1 == 0);
    assert(pow10(0) == 1);
    let x = mscan(nd).0;
    assert(x == m) by (nonlinear_arith)
        requires
            x * pow10(0) == m,
            pow10(0) == 1,
    ;
    lemma_mscan_zeros(nd, d.exp as nat);
    assert forall|i: int| 0 <= i < u.len() implies #[trigger] u[i] != 'e' && u[i] != 'E' by {
        assert(is_digit(crate::decimal::dec_text(d)[if d.neg { i + 1 } else { i }]));
        if d.neg {
            assert(crate::decimal::dec_text(d)[i + 1] == u[i]);
        }
    }
    crate::points::lemma_find_none(u, 0, 'e');
    crate::points::lemma_find_none(u, 0, 'E');
}

/// The canonical text of a well-formed decimal reads back as that decimal.
pub proof fn lemma_num_of_text(d: Decimal)
    requires
        d.wf(),
    ensures
        number_of(dec_text(d)) == Some(d),
{
    reveal(number_of);
    let t = dec_text(d);
    let u = crate::decimal::body_text(d);
    if d.exp > 0 {
        lemma_big_read(d);
    } else {
        lemma_unsigned_read(d);
    }
    if d.neg {
        assert(t.skip(1) =~= u);
        assert(t[0] == '-');
    } else {
        assert(t == u);
    }
    assert(u.take(u.len() as int) =~= u);
}

} // verus!
