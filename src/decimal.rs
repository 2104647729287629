//! Exact decimal numbers: the numeric fields of a transform and the
//! coordinates of a polygon, held as the document writes them.
use vstd::prelude::*;
use crate::text::{
    all_digits, digit_char, digit_val, digits_val, is_digit, lemma_digit_char, lemma_nat_digits,
    lemma_zeros_val, nat_digits, push_all, push_nat, push_range, range_eq, zeros, chars_of,
    string_from_chars,
};

verus! {

/// The number `(-1)^neg * mant * 10^exp / 10^scale`. The power `exp` is
/// used only for whole numbers too large for `mant` alone.
#[derive(Clone, Copy, Debug, PartialEq, Eq, Structural)]
pub struct Decimal {
    pub neg: bool,
    pub mant: u64,
    pub scale: u32,
    pub exp: u32,
}

/// The unsigned digits of `mant`, with leading zeros so that there are more
/// than `scale` of them.
pub open spec fn padded(mant: nat, scale: nat) -> Seq<char> {
    if nat_digits(mant).len() > scale {
        nat_digits(mant)
    } else {
        zeros((scale + 1 - nat_digits(mant).len()) as nat) + nat_digits(mant)
    }
}

pub open spec fn unsigned_text(mant: nat, scale: nat) -> Seq<char> {
    if scale == 0 {
        nat_digits(mant)
    } else {
        let p = padded(mant, scale);
        p.take(p.len() - scale) + seq!['.'] + p.skip(p.len() - scale)
    }
}

/// The digits of a decimal without its sign.
pub open spec fn body_text(d: Decimal) -> Seq<char> {
    if d.exp > 0 {
        nat_digits(d.mant as nat) + zeros(d.exp as nat)
    } else {
        unsigned_text(d.mant as nat, d.scale as nat)
    }
}

/// The canonical text of a decimal: an optional `-`, the integer digits, and
/// the fractional digits after a `.` when there are any.
pub open spec fn dec_text(d: Decimal) -> Seq<char> {
    if d.neg {
        seq!['-'] + body_text(d)
    } else {
        body_text(d)
    }
}

pub open spec fn pow10(k: nat) -> nat
    decreases k,
{
    if k == 0 {
        1
    } else {
        10 * pow10((k - 1) as nat)
    }
}

/// Reading a number's digits from left to right: the value of the digits,
/// the count of those after the point, whether a point was seen, and whether
/// every character was a digit or the one point.
pub open spec fn scan(s: Seq<char>) -> (nat, nat, bool, bool)
    decreases s.len(),
{
    if s.len() == 0 {
        (0, 0, false, true)
    } else {
        let st = scan(s.drop_last());
        let c = s.last();
        if !st.3 {
            st
        } else if is_digit(c) {
            (st.0 * 10 + digit_val(c), if st.2 {
                st.1 + 1
            } else {
                st.1
            }, st.2, true)
        } else if c == '.' && !st.2 {
            (st.0, st.1, true, true)
        } else {
            (st.0, st.1, st.2, false)
        }
    }
}

pub open spec fn scan_signed(s: Seq<char>) -> Option<Decimal> {
    let neg = s.len() > 0 && s[0] == '-';
    let st = scan(if neg {
        s.skip(1)
    } else {
        s
    });
    if st.3 && st.0 <= u64::MAX && st.1 <= u32::MAX {
        Some(Decimal { neg, mant: st.0 as u64, scale: st.1 as u32, exp: 0 })
    } else {
        None
    }
}

impl Decimal {
    /// Canonical form: zero has no sign and no fractional digits, a
    /// fractional part never ends in `0`, and the power `exp` is used only
    /// when the whole number does not fit `mant`.
    pub open spec fn wf(&self) -> bool {
        &&& (self.mant == 0 ==> !self.neg && self.scale == 0)
        &&& (self.scale > 0 ==> self.mant % 10 != 0)
        &&& (self.exp > 0 ==> self.scale == 0 && self.mant % 10 != 0 && self.mant * pow10(
            self.exp as nat,
        ) > u64::MAX)
    }

    /// Twice the magnitude, rounded to the nearest whole number, halves
    /// away from zero: the whole part of four times it, plus one, halved.
    pub open spec fn double_round(&self) -> int {
        ((4 * self.mant) as int / (pow10(self.scale as nat) as int) + 1) / 2
    }

    pub open spec fn is_zero_spec(&self) -> bool {
        self.mant == 0
    }

    pub open spec fn neg_spec(&self) -> Decimal {
        if self.mant == 0 {
            *self
        } else {
            Decimal { neg: !self.neg, ..*self }
        }
    }

    pub fn zero() -> (r: Decimal)
        ensures
            r.wf(),
            r.mant == 0,
    {
        Decimal { neg: false, mant: 0, scale: 0, exp: 0 }
    }

    pub fn one() -> (r: Decimal)
        ensures
            r.wf(),
            r == (Decimal { neg: false, mant: 1, scale: 0, exp: 0 }),
    {
        Decimal { neg: false, mant: 1, scale: 0, exp: 0 }
    }

    pub open spec fn half_spec(n: nat) -> Decimal {
        if n % 2 == 0 {
            Decimal { neg: false, mant: (n / 2) as u64, scale: 0, exp: 0 }
        } else {
            Decimal { neg: false, mant: (n * 5) as u64, scale: 1, exp: 0 }
        }
    }

    /// Half of `n`, exactly.
    pub fn half_of(n: u32) -> (r: Decimal)
        ensures
            r == Decimal::half_spec(n as nat),
            r.wf(),
            !r.neg,
            r.mant * 2 == n * pow10(r.scale as nat),
    {
        assert(pow10(0) == 1);
        assert(pow10(1) == 10 * pow10(0));
        if n % 2 != 0 {
            assert((n as u64) * 5 % 10 != 0) by (nonlinear_arith)
                requires
                    n % 2 != 0,
            ;
        }
        if n % 2 == 0 {
            let r = Decimal { neg: false, mant: (n / 2) as u64, scale: 0, exp: 0 };
            assert((n / 2) as u64 * 2 == n);
            assert(pow10(r.scale as nat) == 1);
            r
        } else {
            let r = Decimal { neg: false, mant: (n as u64) * 5, scale: 1, exp: 0 };
            assert(r.mant * 2 == n * 10);
            r
        }
    }

    pub fn is_zero(&self) -> (r: bool)
        ensures
            r == self.is_zero_spec(),
    {
        self.mant == 0
    }

    /// The negation; zero stays without a sign.
    pub fn negate(&self) -> (r: Decimal)
        ensures
            r == self.neg_spec(),
            self.wf() ==> r.wf(),
    {
        if self.mant == 0 {
            *self
        } else {
            Decimal { neg: !self.neg, ..*self }
        }
    }

    pub open spec fn double_round_spec(&self) -> u32 {
        if self.neg {
            0
        } else if self.exp > 0 || self.double_round() > u32::MAX {
            u32::MAX
        } else {
            self.double_round() as u32
        }
    }

    /// `2 * self` rounded to the nearest whole number, halves away from
    /// zero, as a saturating cast to `u32` gives it: a negative value gives 0.
    pub fn double_round_u32(&self) -> (r: u32)
        ensures
            r == self.double_round_spec(),
    {
        if self.neg {
            return 0;
        }
        if self.exp > 0 {
            return u32::MAX;
        }
        let mut q: u128 = 4 * (self.mant as u128);
        let mut k: u32 = 0;
        assert(pow10(0) == 1);
        while k < self.scale
            invariant
                k <= self.scale,
                q as int == (4 * self.mant) as int / (pow10(k as nat) as int),
                q <= 4 * self.mant,
            decreases self.scale - k,
        {
            proof {
                lemma_pow10_pos(k as nat);
                vstd::arithmetic::div_mod::lemma_div_denominator(
                    (4 * self.mant) as int,
                    pow10(k as nat) as int,
                    10,
                );
                assert(pow10((k + 1) as nat) == pow10(k as nat) * 10);
            }
            q = q / 10;
            k = k + 1;
        }
        let w = (q + 1) / 2;
        if w > u32::MAX as u128 {
            u32::MAX
        } else {
            w as u32
        }
    }
}

pub proof fn lemma_pow10_pos(k: nat)
    ensures
        pow10(k) > 0,
    decreases k,
{
    if k > 0 {
        lemma_pow10_pos((k - 1) as nat);
    }
}

pub proof fn lemma_neg_neg(d: Decimal)
    requires
        d.wf(),
    ensures
        d.neg_spec().neg_spec() == d,
{
}

pub proof fn lemma_scan_digits(s: Seq<char>)
    requires
        all_digits(s),
    ensures
        scan(s) == (digits_val(s), 0nat, false, true),
    decreases s.len(),
{
    if s.len() > 0 {
        lemma_scan_digits(s.drop_last());
    }
}

pub proof fn lemma_scan_point(a: Seq<char>, b: Seq<char>)
    requires
        all_digits(a),
        all_digits(b),
    ensures
        scan(a + seq!['.'] + b) == (digits_val(a + b), b.len(), true, true),
    decreases b.len(),
{
    if b.len() == 0 {
        assert(a + seq!['.'] + b =~= a.push('.'));
        assert((a.push('.')).drop_last() =~= a);
        assert(a + b =~= a);
        lemma_scan_digits(a);
    } else {
        let s = a + seq!['.'] + b;
        assert(s.drop_last() =~= a + seq!['.'] + b.drop_last());
        lemma_scan_point(a, b.drop_last());
        assert((a + b).drop_last() =~= a + b.drop_last());
    }
}

pub proof fn lemma_scan_prefix(s: Seq<char>, i: int)
    requires
        0 <= i <= s.len(),
        scan(s).3,
    ensures
        scan(s.take(i)).3,
        scan(s.take(i)).0 <= scan(s).0,
        scan(s.take(i)).1 <= scan(s).1,
    decreases s.len(),
{
    if i < s.len() {
        assert(s.drop_last().take(i) =~= s.take(i));
        lemma_scan_prefix(s.drop_last(), i);
    } else {
        assert(s.take(i) =~= s);
    }
}

pub proof fn lemma_padded(mant: nat, scale: nat)
    ensures
        padded(mant, scale).len() > scale,
        all_digits(padded(mant, scale)),
        digits_val(padded(mant, scale)) == mant,
        padded(mant, scale).last() == digit_char(mant % 10),
{
    lemma_nat_digits(mant);
    let ds = nat_digits(mant);
    if ds.len() <= scale {
        let z = (scale + 1 - ds.len()) as nat;
        lemma_zeros_val(z, ds);
        assert(all_digits(zeros(z) + ds)) by {
            assert forall|i: int| 0 <= i < (zeros(z) + ds).len() implies is_digit(
                #[trigger] (zeros(z) + ds)[i],
            ) by {
                if i >= z {
                    assert((zeros(z) + ds)[i] == ds[i - z]);
                }
            }
        }
    }
}

/// The canonical text of a well-formed decimal reads back as that decimal.
pub proof fn lemma_scan_text(d: Decimal)
    requires
        d.wf(),
        d.exp == 0,
    ensures
        scan_signed(dec_text(d)) == Some(d),
        dec_text(d).len() > 0,
{
    let m = d.mant as nat;
    let k = d.scale as nat;
    let u = unsigned_text(m, k);
    lemma_nat_digits(m);
    if k == 0 {
        lemma_scan_digits(u);
        lemma_digit_char(m % 10);
        assert(is_digit(u[0]));
    } else {
        let p = padded(m, k);
        lemma_padded(m, k);
        let a = p.take(p.len() - k);
        let b = p.skip(p.len() - k);
        assert(all_digits(a));
        assert(all_digits(b));
        lemma_scan_point(a, b);
        assert(a + b =~= p);
        assert(u[0] == p[0]);
        assert(is_digit(p[0]));
    }
    if d.neg {
        assert(dec_text(d).skip(1) =~= u);
    }
}

/// The decimal whose canonical text is `t`, if there is one.
pub open spec fn dec_of(t: Seq<char>) -> Option<Decimal> {
    if exists|d: Decimal| d.wf() && d.exp == 0 && dec_text(d) == t {
        Some(choose|d: Decimal| d.wf() && d.exp == 0 && dec_text(d) == t)
    } else {
        None
    }
}

pub proof fn lemma_dec_of_text(d: Decimal)
    requires
        d.wf(),
        d.exp == 0,
    ensures
        dec_of(dec_text(d)) == Some(d),
{
    let e = choose|e: Decimal| e.wf() && e.exp == 0 && dec_text(e) == dec_text(d);
    lemma_scan_text(d);
    lemma_scan_text(e);
}

/// Every character of a decimal's text is a digit, `-` or `.`.
pub proof fn lemma_dec_chars(d: Decimal)
    ensures
        forall|i: int|
            0 <= i < dec_text(d).len() ==> is_digit(#[trigger] dec_text(d)[i]) || dec_text(d)[i]
                == '-' || dec_text(d)[i] == '.',
        dec_text(d).len() > 0,
        is_digit(body_text(d)[0]),
{
    let m = d.mant as nat;
    let k = d.scale as nat;
    let u = body_text(d);
    lemma_nat_digits(m);
    if d.exp > 0 {
        let nd = nat_digits(m);
        assert forall|i: int| 0 <= i < u.len() implies is_digit(#[trigger] u[i]) by {
            if i < nd.len() {
                assert(u[i] == nd[i]);
            } else {
                assert(u[i] == zeros(d.exp as nat)[i - nd.len()]);
            }
        }
        assert(u[0] == nd[0]);
    } else {
        lemma_unsigned_chars(m, k);
    }
    if d.neg {
        assert forall|i: int| 0 < i < dec_text(d).len() implies dec_text(d)[i] == u[i - 1] by {}
    }
}

proof fn lemma_unsigned_chars(m: nat, k: nat)
    ensures
        unsigned_text(m, k).len() > 0,
        is_digit(unsigned_text(m, k)[0]),
        forall|i: int|
            0 <= i < unsigned_text(m, k).len() ==> is_digit(#[trigger] unsigned_text(m, k)[i])
                || unsigned_text(m, k)[i] == '.',
{
    let u = unsigned_text(m, k);
    lemma_nat_digits(m);
    if k > 0 {
        lemma_padded(m, k);
    }
    assert forall|i: int| 0 <= i < u.len() implies is_digit(#[trigger] u[i]) || u[i] == '.' by {
        if k > 0 {
            let p = padded(m, k);
            let cut = p.len() - k;
            if i < cut {
                assert(u[i] == p[i]);
            } else if i > cut {
                assert(u[i] == p[i - 1]);
            }
        }
    }
    if k > 0 {
        let p = padded(m, k);
        assert(u[0] == p[0]);
    } else {
        lemma_digit_char(m % 10);
    }
}

/// Reads `s[lo..hi]` as a decimal in canonical text.
pub fn read_decimal(s: &Vec<char>, lo: usize, hi: usize) -> (r: Option<Decimal>)
    requires
        lo <= hi <= s.len(),
    ensures
        r == dec_of(s@.subrange(lo as int, hi as int)),
{
    match parse_decimal(s, lo, hi) {
        Some(d) => {
            proof {
                lemma_dec_of_text(d);
            }
            Some(d)
        },
        None => None,
    }
}

fn scan_exec(s: &Vec<char>, lo: usize, hi: usize) -> (r: Option<Decimal>)
    requires
        lo <= hi <= s.len(),
    ensures
        r == scan_signed(s@.subrange(lo as int, hi as int)),
{
    let ghost t = s@.subrange(lo as int, hi as int);
    let neg = lo < hi && s[lo] == '-';
    let b: usize = if neg {
        lo + 1
    } else {
        lo
    };
    let ghost body = if neg {
        t.skip(1)
    } else {
        t
    };
    assert(body =~= s@.subrange(b as int, hi as int));
    assert(neg == (t.len() > 0 && t[0] == '-'));
    assert(scan_signed(t) == (if scan(body).3 && scan(body).0 <= u64::MAX && scan(body).1 <= u32::MAX {
        Some(Decimal { neg, mant: scan(body).0 as u64, scale: scan(body).1 as u32, exp: 0 })
    } else {
        None
    }));
    let mut mant: u64 = 0;
    let mut scale: u32 = 0;
    let mut dot = false;
    let mut i: usize = b;
    while i < hi
        invariant
            lo <= b <= i <= hi <= s.len(),
            body == s@.subrange(b as int, hi as int),
            t == s@.subrange(lo as int, hi as int),
            scan_signed(t) == (if scan(body).3 && scan(body).0 <= u64::MAX && scan(body).1
                <= u32::MAX {
                Some(Decimal { neg, mant: scan(body).0 as u64, scale: scan(body).1 as u32, exp: 0 })
            } else {
                None
            }),
            scan(s@.subrange(b as int, i as int)) == (mant as nat, scale as nat, dot, true),
        decreases hi - i,
    {
        let c = s[i];
        let ghost pre = s@.subrange(b as int, i as int);
        let ghost next = s@.subrange(b as int, i + 1);
        assert(next.drop_last() =~= pre);
        assert(body.take(i + 1 - b) =~= next);
        if '0' <= c && c <= '9' {
            let dv = (c as u32 - 48) as u64;
            if mant > (u64::MAX - dv) / 10 || (dot && scale == u32::MAX) {
                proof {
                    assert(digit_val(c) == dv);
                    if mant > (u64::MAX - dv) / 10 {
                        assert(mant * 10 + dv > u64::MAX) by (nonlinear_arith)
                            requires
                                mant > (u64::MAX - dv) / 10,
                                dv <= 9,
                        ;
                    }
                    assert(scan(next).0 == mant * 10 + dv);
                    assert(scan(next).1 == if dot {
                        scale + 1
                    } else {
                        scale as int
                    });
                    assert(scan(next).3);
                    if scan(body).3 {
                        lemma_scan_prefix(body, i + 1 - b);
                    }
                    assert(!scan(body).3 || scan(body).0 > u64::MAX || scan(body).1 > u32::MAX);
                }
                return None;
            }
            mant = mant * 10 + dv;
            if dot {
                scale = scale + 1;
            }
        } else if c == '.' && !dot {
            dot = true;
        } else {
            proof {
                assert(!scan(next).3);
                if scan(body).3 {
                    lemma_scan_prefix(body, i + 1 - b);
                }
                assert(!scan(body).3);
            }
            return None;
        }
        i = i + 1;
    }
    assert(s@.subrange(b as int, i as int) == body);
    Some(Decimal { neg, mant, scale, exp: 0 })
}

pub fn push_decimal(out: &mut Vec<char>, d: &Decimal)
    ensures
        final(out)@ == old(out)@ + dec_text(*d),
{
    if d.neg {
        out.push('-');
    }
    let ghost start = out@;
    if d.exp > 0 {
        push_nat(out, d.mant);
        let mut j: u32 = 0;
        let ghost mid = out@;
        while j < d.exp
            invariant
                j <= d.exp,
                out@ == mid + zeros(j as nat),
            decreases d.exp - j,
        {
            out.push('0');
            j = j + 1;
            assert(out@ =~= mid + zeros(j as nat));
        }
    } else if d.scale == 0 {
        push_nat(out, d.mant);
    } else {
        let mut ds: Vec<char> = Vec::new();
        push_nat(&mut ds, d.mant);
        assert(ds@ =~= nat_digits(d.mant as nat));
        let mut p: Vec<char> = Vec::new();
        if (ds.len() as u64) <= (d.scale as u64) {
            let z: u64 = d.scale as u64 + 1 - ds.len() as u64;
            let mut j: u64 = 0;
            while j < z
                invariant
                    j <= z,
                    p@ == zeros(j as nat),
                decreases z - j,
            {
                p.push('0');
                j = j + 1;
                assert(p@ =~= zeros(j as nat));
            }
        }
        push_all(&mut p, &ds);
        assert(p@ =~= padded(d.mant as nat, d.scale as nat));
        proof {
            lemma_padded(d.mant as nat, d.scale as nat);
        }
        let cut = p.len() - d.scale as usize;
        push_range(out, &p, 0, cut);
        out.push('.');
        push_range(out, &p, cut, p.len());
        assert(p@.subrange(0, cut as int) =~= p@.take(cut as int));
        assert(p@.subrange(cut as int, p@.len() as int) =~= p@.skip(cut as int));
    }
    assert(out@ =~= old(out)@ + dec_text(*d));
}

/// Reads `s[lo..hi]` as a decimal in canonical text, and nothing else.
pub fn parse_decimal(s: &Vec<char>, lo: usize, hi: usize) -> (r: Option<Decimal>)
    requires
        lo <= hi <= s.len(),
    ensures
        match r {
            Some(d) => d.wf() && d.exp == 0 && dec_text(d) == s@.subrange(lo as int, hi as int),
            None => forall|d: Decimal| d.wf() && d.exp == 0 ==> dec_text(d) != s@.subrange(lo as int, hi as int),
        },
{
    let ghost t = s@.subrange(lo as int, hi as int);
    let cand = scan_exec(s, lo, hi);
    match cand {
        None => {
            proof {
                assert forall|d: Decimal| d.wf() && d.exp == 0 implies dec_text(d) != t by {
                    lemma_scan_text(d);
                }
            }
            None
        },
        Some(d) => {
            let ok = (d.mant != 0 || (!d.neg && d.scale == 0)) && (d.scale == 0 || d.mant % 10 != 0);
            if !ok {
                proof {
                    assert forall|e: Decimal| e.wf() && e.exp == 0 implies dec_text(e) != t by {
                        lemma_scan_text(e);
                    }
                }
                return None;
            }
            let mut v: Vec<char> = Vec::new();
            push_decimal(&mut v, &d);
            assert(v@ =~= dec_text(d));
            if range_eq(s, lo, hi, &v) {
                Some(d)
            } else {
                proof {
                    assert forall|e: Decimal| e.wf() && e.exp == 0 implies dec_text(e) != t by {
                        lemma_scan_text(e);
                    }
                }
                None
            }
        },
    }
}

impl Decimal {
    /// Reads a number as a float parser accepts it, exactly.
    pub fn parse(s: &str) -> (r: Option<Decimal>)
        ensures
            r == crate::number::number_of(s@),
    {
        let v = chars_of(s);
        assert(v@.subrange(0, v@.len() as int) =~= s@);
        crate::number::read_number(&v, 0, v.len())
    }

    /// The canonical text.
    pub fn to_string(&self) -> (s: String)
        ensures
            s@ == dec_text(*self),
    {
        let mut v: Vec<char> = Vec::new();
        push_decimal(&mut v, self);
        assert(v@ =~= dec_text(*self));
        string_from_chars(&v)
    }

    /// The whole number `v`.
    pub fn from_int(v: i64) -> (r: Decimal)
        requires
            v > i64::MIN,
        ensures
            r.wf(),
            r == (Decimal { neg: v < 0, mant: (if v < 0 {
                -v
            } else {
                v as int
            }) as u64, scale: 0, exp: 0 }),
    {
        Decimal {
            neg: v < 0,
            mant: if v < 0 {
                (-v) as u64
            } else {
                v as u64
            },
            scale: 0,
            exp: 0,
        }
    }
}

} // verus!
