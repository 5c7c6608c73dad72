//! Verified parsing of decimal text.
//!
//! Coordinates and elevations arrive as decimal-degree or metre strings
//! and are held as fixed-point integers, so the accepted grammar is
//! stated exactly: an optional sign, digits, and at most one decimal
//! point, with at least one digit overall.  Fractional digits beyond the
//! kept precision are dropped; a magnitude beyond `i64::MAX` units is
//! rejected.
use vstd::prelude::*;
use vstd::string::StrSliceExecFns;

verus! {

pub open spec fn is_digit(c: char) -> bool {
    48 <= c as int <= 57
}

pub open spec fn digit_val(c: char) -> int {
    c as int - 48
}

pub open spec fn all_digits(s: Seq<char>) -> bool {
    forall|i: int| 0 <= i < s.len() ==> is_digit(#[trigger] s[i])
}

/// The value of a plain digit string, most significant first.
pub open spec fn digits_val(s: Seq<char>) -> int
    decreases s.len(),
{
    if s.len() == 0 {
        0
    } else {
        digits_val(s.drop_last()) * 10 + digit_val(s.last())
    }
}

pub open spec fn pow10(e: int) -> int
    decreases e,
{
    if e <= 0 {
        1
    } else {
        10 * pow10(e - 1)
    }
}

/// The index of the first `'.'` in `s`, or `s.len()` if there is none.
pub open spec fn first_dot(s: Seq<char>) -> int
    decreases s.len(),
{
    if s.len() == 0 {
        0
    } else if s[0] == '.' {
        0
    } else {
        1 + first_dot(s.drop_first())
    }
}

/// The value of a fraction-digit string kept to `k` digits: truncated
/// beyond `k`, padded with zeroes below.
pub open spec fn frac_val(f: Seq<char>, k: int) -> int {
    let m = if f.len() < k {
        f.len() as int
    } else {
        k
    };
    digits_val(f.subrange(0, m)) * pow10(k - m)
}

/// The number that `s` denotes, scaled by `10^k` and rounded towards
/// zero, or `None` if `s` is not a decimal number or its magnitude
/// exceeds `i64::MAX` scaled units.
pub open spec fn parse_decimal_s(s: Seq<char>, k: int) -> Option<i64> {
    let neg = s.len() > 0 && s[0] == '-';
    let body = if s.len() > 0 && (s[0] == '-' || s[0] == '+') {
        s.drop_first()
    } else {
        s
    };
    let di = first_dot(body);
    let ip = body.subrange(0, di);
    let fp = if di < body.len() {
        body.subrange(di + 1, body.len() as int)
    } else {
        Seq::<char>::empty()
    };
    if !(all_digits(ip) && all_digits(fp)) || ip.len() + fp.len() == 0 {
        Option::None
    } else {
        let v = digits_val(ip) * pow10(k) + frac_val(fp, k);
        if v > i64::MAX {
            Option::None
        } else if neg {
            Option::Some((-v) as i64)
        } else {
            Option::Some(v as i64)
        }
    }
}

proof fn lemma_first_dot_at(s: Seq<char>, i: int)
    requires
        0 <= i <= s.len(),
        forall|l: int| 0 <= l < i ==> #[trigger] s[l] != '.',
        i < s.len() ==> s[i] == '.',
    ensures
        first_dot(s) == i,
    decreases i + 1,
{
    if s.len() == 0 {
    } else if i == 0 {
    } else {
        assert(s[0] != '.');
        lemma_first_dot_at(s.drop_first(), i - 1);
    }
}

proof fn lemma_digits_val_nonneg(s: Seq<char>)
    requires
        all_digits(s),
    ensures
        digits_val(s) >= 0,
    decreases s.len(),
{
    if s.len() > 0 {
        assert(all_digits(s.drop_last()));
        lemma_digits_val_nonneg(s.drop_last());
        assert(digits_val(s.drop_last()) * 10 >= 0) by (nonlinear_arith)
            requires
                digits_val(s.drop_last()) >= 0,
        ;
    }
}

proof fn lemma_digits_val_push(s: Seq<char>, i: int)
    requires
        0 <= i < s.len(),
    ensures
        digits_val(s.subrange(0, i + 1)) == digits_val(s.subrange(0, i)) * 10 + digit_val(s[i]),
{
    let p = s.subrange(0, i + 1);
    assert(p.drop_last() =~= s.subrange(0, i));
    assert(p.last() == s[i]);
}

proof fn lemma_pow10_pos(e: int)
    ensures
        pow10(e) >= 1,
    decreases
            if e <= 0 {
                0int
            } else {
                e
            },
{
    if e > 0 {
        lemma_pow10_pos(e - 1);
        assert(10 * pow10(e - 1) >= 1) by (nonlinear_arith)
            requires
                pow10(e - 1) >= 1,
        ;
    }
}

proof fn lemma_pow10_mono(a: int, b: int)
    requires
        a <= b,
    ensures
        pow10(a) <= pow10(b),
        1 <= pow10(a),
    decreases b - a,
{
    lemma_pow10_pos(a);
    if a < b {
        lemma_pow10_mono(a, b - 1);
        if b > 0 {
            lemma_pow10_pos(b - 1);
            assert(10 * pow10(b - 1) >= pow10(b - 1)) by (nonlinear_arith)
                requires
                    pow10(b - 1) >= 1,
            ;
        }
    }
}

proof fn lemma_mul_pow_ge(v: int, k: int)
    requires
        v >= 0,
        k >= 0,
    ensures
        v * pow10(k) >= v,
    decreases k,
{
    lemma_pow10_mono(0, k);
    assert(v * pow10(k) >= v) by (nonlinear_arith)
        requires
            v >= 0,
            pow10(k) >= 1,
    ;
}

proof fn lemma_frac_val_nonneg(f: Seq<char>, k: int)
    requires
        all_digits(f),
        k >= 0,
    ensures
        frac_val(f, k) >= 0,
{
    let m = if f.len() < k {
        f.len() as int
    } else {
        k
    };
    assert(all_digits(f.subrange(0, m)));
    lemma_digits_val_nonneg(f.subrange(0, m));
    lemma_mul_pow_ge(digits_val(f.subrange(0, m)), k - m);
}

#[verifier::loop_isolation(false)]
fn pow10_u64(e: u64) -> (r: u64)
    requires
        e <= 9,
    ensures
        r as int == pow10(e as int),
        r <= 1_000_000_000,
{
    let mut r: u64 = 1;
    let mut i: u64 = 0;
    while i < e
        invariant
            i <= e <= 9,
            r as int == pow10(i as int),
            r <= 1_000_000_000,
        decreases e - i,
    {
        proof {
            reveal_with_fuel(pow10, 11);
            lemma_pow10_mono(i as int, 8);
            assert(pow10(8int) == 100_000_000);
        }
        r = r * 10;
        i = i + 1;
    }
    r
}

/// Parses `s` as a decimal number scaled by `10^k`, rounding towards
/// zero, exactly as [`parse_decimal_s`] states.
#[verifier::loop_isolation(false)]
#[verifier::rlimit(80)]
pub fn parse_decimal(s: &str, k: u64) -> (r: Option<i64>)
    requires
        k <= 9,
    ensures
        r == parse_decimal_s(s@, k as int),
{
    let n = s.unicode_len();
    let ghost sv = s@;
    let mut pos: usize = 0;
    let mut neg = false;
    if n > 0 {
        let c0 = s.get_char(0);
        if c0 == '-' {
            neg = true;
            pos = 1;
        } else if c0 == '+' {
            pos = 1;
        }
    }
    let ghost body = if sv.len() > 0 && (sv[0] == '-' || sv[0] == '+') {
        sv.drop_first()
    } else {
        sv
    };
    proof {
        assert(body.len() == n - pos);
        assert(forall|l: int| 0 <= l < body.len() ==> body[l] == sv[l + pos]);
    }
    // Find the first decimal point.
    let mut dotpos: usize = pos;
    while dotpos < n && s.get_char(dotpos) as u32 != 46
        invariant
            pos <= dotpos <= n,
            n == sv.len(),
            body.len() == n - pos,
            forall|l: int| 0 <= l < body.len() ==> body[l] == sv[l + pos],
            forall|l: int| 0 <= l < dotpos - pos ==> #[trigger] body[l] != '.',
        decreases n - dotpos,
    {
        proof {
            assert(body[dotpos - pos] == sv[dotpos as int]);
            assert(sv[dotpos as int] as int != 46);
        }
        dotpos = dotpos + 1;
    }
    proof {
        if dotpos < n {
            assert(body[dotpos - pos] == sv[dotpos as int]);
            assert(sv[dotpos as int] as int == 46);
            assert(body[dotpos - pos] == '.');
        }
        lemma_first_dot_at(body, dotpos - pos);
    }
    let ghost di = dotpos - pos;
    let ghost ip = body.subrange(0, di);
    let ghost fp = if di < body.len() {
        body.subrange(di + 1, body.len() as int)
    } else {
        Seq::<char>::empty()
    };
    // Integer digits.
    let mut acc: u128 = 0;
    let mut big = false;
    let mut i: usize = pos;
    while i < dotpos
        invariant
            pos <= i <= dotpos <= n,
            n == sv.len(),
            body.len() == n - pos,
            forall|l: int| 0 <= l < body.len() ==> body[l] == sv[l + pos],
            ip == body.subrange(0, di),
            di == dotpos - pos,
            forall|l: int| 0 <= l < i - pos ==> is_digit(#[trigger] body[l]),
            !big ==> acc as int == digits_val(body.subrange(0, i - pos)),
            !big ==> acc <= 0x7fff_ffff_ffff_ffff,
            big ==> digits_val(body.subrange(0, i - pos)) > i64::MAX,
        decreases dotpos - i,
    {
        let c = s.get_char(i);
        let cv = c as u32;
        proof {
            assert(body[i - pos] == sv[i as int]);
        }
        if !(48 <= cv && cv <= 57) {
            proof {
                assert(!is_digit(body[i - pos]));
                assert(body.subrange(0, di)[i - pos] == body[i - pos]);
            }
            return None;
        }
        proof {
            assert(is_digit(body[i - pos]));
            lemma_digits_val_push(body, i - pos);
            lemma_digits_val_nonneg(body.subrange(0, i - pos));
        }
        if big {
        } else {
            let na: u128 = acc * 10 + ((cv - 48) as u128);
            if na > 0x7fff_ffff_ffff_ffff {
                big = true;
            } else {
                acc = na;
            }
        }
        i = i + 1;
    }
    proof {
        assert(body.subrange(0, i - pos) =~= ip);
        assert(all_digits(ip));
    }
    // Fraction digits.
    let mut facc: u128 = 0;
    let mut fcount: u64 = 0;
    if dotpos < n {
        let mut j: usize = dotpos + 1;
        while j < n
            invariant
                dotpos < n,
                dotpos + 1 <= j <= n,
                n == sv.len(),
                k <= 9,
                body.len() == n - pos,
                di == dotpos - pos,
                di < body.len(),
                fp == body.subrange(di + 1, body.len() as int),
                fp.len() == n - dotpos - 1,
                forall|l: int| 0 <= l < fp.len() ==> fp[l] == sv[l + dotpos + 1],
                forall|l: int| 0 <= l < j - dotpos - 1 ==> is_digit(#[trigger] fp[l]),
                fcount as int == (if j - dotpos - 1 < k {
                    j - dotpos - 1
                } else {
                    k as int
                }),
                facc as int == digits_val(fp.subrange(0, fcount as int)),
                (facc as int) < pow10(fcount as int),
            decreases n - j,
        {
            let c = s.get_char(j);
            let cv = c as u32;
            proof {
                assert(body[j - pos] == sv[j as int]);
                assert(fp[j - dotpos - 1] == body[j - pos]);
            }
            if !(48 <= cv && cv <= 57) {
                proof {
                    assert(!is_digit(fp[j - dotpos - 1]));
                }
                return None;
            }
            proof {
                assert(is_digit(fp[j - dotpos - 1]));
            }
            if fcount < k {
                proof {
                    reveal_with_fuel(pow10, 11);
                    lemma_digits_val_push(fp, fcount as int);
                    lemma_digits_val_nonneg(fp.subrange(0, fcount as int));
                    lemma_pow10_mono(fcount as int, 8);
                    assert(pow10(8int) == 100_000_000);
                    assert(digits_val(fp.subrange(0, fcount as int)) * 10 + digit_val(
                        fp[fcount as int],
                    ) < pow10(fcount as int) * 10) by (nonlinear_arith)
                        requires
                            digits_val(fp.subrange(0, fcount as int)) < pow10(fcount as int),
                            digit_val(fp[fcount as int]) <= 9,
                    ;
                }
                facc = facc * 10 + ((cv - 48) as u128);
                fcount = fcount + 1;
            }
            j = j + 1;
        }
        proof {
            assert(all_digits(fp));
        }
    } else {
        proof {
            assert(fp =~= Seq::<char>::empty());
            assert(all_digits(fp));
        }
    }
    // Syntax is settled; reject an empty digit set, then range-check.
    if dotpos == pos && (dotpos == n || dotpos + 1 == n) {
        proof {
            assert(ip.len() == 0 && fp.len() == 0);
        }
        return None;
    }
    proof {
        assert(ip.len() + fp.len() > 0);
        lemma_digits_val_nonneg(ip);
        lemma_frac_val_nonneg(fp, k as int);
    }
    if big {
        proof {
            lemma_mul_pow_ge(digits_val(ip), k as int);
        }
        return None;
    }
    let ghost m = if fp.len() < k {
        fp.len() as int
    } else {
        k as int
    };
    proof {
        assert(fcount as int == m);
        assert(fp.subrange(0, fcount as int) == fp.subrange(0, m));
    }
    let p10k = pow10_u64(k);
    let p10r = pow10_u64(k - fcount);
    proof {
        reveal_with_fuel(pow10, 11);
        lemma_pow10_mono(fcount as int, 9);
        assert(pow10(9int) == 1_000_000_000);
        crate::trig::lemma_muldiv_bound(
            acc as int,
            0x7fff_ffff_ffff_ffff,
            p10k as int,
            1_000_000_000,
            1,
        );
        crate::trig::lemma_muldiv_bound(facc as int, 1_000_000_000, p10r as int, 1_000_000_000, 1);
    }
    let v: u128 = acc * (p10k as u128) + facc * (p10r as u128);
    proof {
        assert(v as int == digits_val(ip) * pow10(k as int) + frac_val(fp, k as int));
    }
    if v > 0x7fff_ffff_ffff_ffff {
        return None;
    }
    if neg {
        Some(-(v as i64))
    } else {
        Some(v as i64)
    }
}

/// The value of `s` as an unsigned byte: an optional `'+'`, then digits,
/// with a value of at most 255 — the grammar of `u8` text.
pub open spec fn parse_u8_s(s: Seq<char>) -> Option<u8> {
    let body = if s.len() > 0 && s[0] == '+' {
        s.drop_first()
    } else {
        s
    };
    if body.len() == 0 || !all_digits(body) {
        Option::None
    } else {
        let v = digits_val(body);
        if v > 255 {
            Option::None
        } else {
            Option::Some(v as u8)
        }
    }
}

/// Parses `s` as an unsigned byte, exactly as [`parse_u8_s`] states.
#[verifier::loop_isolation(false)]
pub fn parse_u8_text(s: &str) -> (r: Option<u8>)
    ensures
        r == parse_u8_s(s@),
{
    let n = s.unicode_len();
    let ghost sv = s@;
    let mut pos: usize = 0;
    if n > 0 {
        let c0 = s.get_char(0);
        if c0 == '+' {
            pos = 1;
        }
    }
    let ghost body = if sv.len() > 0 && sv[0] == '+' {
        sv.drop_first()
    } else {
        sv
    };
    proof {
        assert(body.len() == n - pos);
        assert(forall|l: int| 0 <= l < body.len() ==> body[l] == sv[l + pos]);
    }
    if n == pos {
        return None;
    }
    let mut acc: u64 = 0;
    let mut i: usize = pos;
    while i < n
        invariant
            pos <= i <= n,
            n == sv.len(),
            body.len() == n - pos,
            forall|l: int| 0 <= l < body.len() ==> body[l] == sv[l + pos],
            forall|l: int| 0 <= l < i - pos ==> is_digit(#[trigger] body[l]),
            acc <= 255 ==> acc as int == digits_val(body.subrange(0, i - pos)),
            acc > 255 ==> digits_val(body.subrange(0, i - pos)) > 255,
            acc <= 2559,
        decreases n - i,
    {
        let c = s.get_char(i);
        let cv = c as u32;
        proof {
            assert(body[i - pos] == sv[i as int]);
        }
        if !(48 <= cv && cv <= 57) {
            proof {
                assert(!is_digit(body[i - pos]));
            }
            return None;
        }
        proof {
            assert(is_digit(body[i - pos]));
            lemma_digits_val_push(body, i - pos);
            lemma_digits_val_nonneg(body.subrange(0, i - pos));
            assert(digits_val(body.subrange(0, i - pos)) > 255 ==> digits_val(
                body.subrange(0, i - pos),
            ) * 10 > 2550) by (nonlinear_arith);
        }
        if acc <= 255 {
            acc = acc * 10 + ((cv - 48) as u64);
        }
        i = i + 1;
    }
    proof {
        assert(body.subrange(0, n - pos) =~= body);
        assert(all_digits(body));
    }
    if acc > 255 {
        None
    } else {
        Some(acc as u8)
    }
}

} // verus!
