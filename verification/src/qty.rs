//! Exact quantities: parsing of scaled magnitude strings, arithmetic,
//! comparison and display-scale rendering.
//!
//! A quantity is held as an arbitrary-precision integer numerator together
//! with a power-of-ten denominator, so addition and comparison across
//! different parse-time suffixes are exact. The scale family seen at parse
//! time is kept only to pick a display suffix later.

use vstd::prelude::*;
use num_bigint::BigInt;
use crate::bigint::{
    big_int_of, big_from_u64, big_add, big_sub, big_mul, big_cmp, big_div, big_to_i64, big_clone,
};
use vstd::string::StrSliceExecFns;

verus! {

/// Mathematical value of a quantity: the exact fraction `num / 10^den`.
pub ghost struct QVal {
    pub num: int,
    pub den: nat,
}

/// 10^n.
pub open spec fn pow10(n: nat) -> int
    decreases n,
{
    if n == 0 {
        1
    } else {
        10 * pow10((n - 1) as nat)
    }
}

/// 1024^n.
pub open spec fn pow1024(n: nat) -> int
    decreases n,
{
    if n == 0 {
        1
    } else {
        1024 * pow1024((n - 1) as nat)
    }
}

pub proof fn lemma_pow10_pos(n: nat)
    ensures
        pow10(n) >= 1,
    decreases n,
{
    if n > 0 {
        lemma_pow10_pos((n - 1) as nat);
    }
}

pub proof fn lemma_pow1024_pos(n: nat)
    ensures
        pow1024(n) >= 1,
    decreases n,
{
    if n > 0 {
        lemma_pow1024_pos((n - 1) as nat);
    }
}

pub proof fn lemma_pow10_add(a: nat, b: nat)
    ensures
        pow10(a + b) == pow10(a) * pow10(b),
    decreases a,
{
    if a == 0 {
        assert(pow10(0 + b) == 1 * pow10(b));
    } else {
        lemma_pow10_add((a - 1) as nat, b);
        assert(pow10(a + b) == 10 * pow10((a + b - 1) as nat));
        assert(10 * (pow10((a - 1) as nat) * pow10(b)) == (10 * pow10((a - 1) as nat)) * pow10(b))
            by (nonlinear_arith);
    }
}

pub proof fn lemma_pow10_mul_pos(a: nat, b: nat)
    ensures
        pow10(a) * pow10(b) >= 1,
{
    lemma_pow10_pos(a);
    lemma_pow10_pos(b);
    assert(pow10(a) * pow10(b) >= 1) by (nonlinear_arith)
        requires
            pow10(a) >= 1,
            pow10(b) >= 1,
    ;
}

/// The additive identity.
pub open spec fn qval_zero() -> QVal {
    QVal { num: 0, den: 0 }
}

/// Exact addition: rescale both sides to the larger denominator.
pub open spec fn qval_add(a: QVal, b: QVal) -> QVal {
    let d = if a.den >= b.den { a.den } else { b.den };
    QVal {
        num: a.num * pow10((d - a.den) as nat) + b.num * pow10((d - b.den) as nat),
        den: d,
    }
}

/// Exact negation.
pub open spec fn qval_neg(a: QVal) -> QVal {
    QVal { num: -a.num, den: a.den }
}

/// Exact subtraction.
pub open spec fn qval_sub(a: QVal, b: QVal) -> QVal {
    qval_add(a, qval_neg(b))
}

/// `a < b` as fractions, by cross multiplication.
pub open spec fn qval_lt(a: QVal, b: QVal) -> bool {
    a.num * pow10(b.den) < b.num * pow10(a.den)
}

/// `a == b` as fractions, by cross multiplication. Quantities parsed with
/// different suffixes may be equal as values while differing in
/// representation; this is the equality every contract of the module uses.
pub open spec fn qval_eq(a: QVal, b: QVal) -> bool {
    a.num * pow10(b.den) == b.num * pow10(a.den)
}

/// The scale family a quantity was written in: decimal suffixes (powers of
/// 1000, including none and milli) or binary suffixes (powers of 1024).
#[derive(Clone, Copy, Debug, PartialEq, Eq, Structural)]
pub enum Family {
    Decimal,
    Binary,
}

/// Result of an exact three-way comparison.
#[derive(Clone, Copy, Debug, PartialEq, Eq, Structural)]
pub enum QtyCmp {
    Less,
    Equal,
    Greater,
}

/// Error from parsing a quantity string: the text does not match the
/// grammar, or its exponent is beyond what this machine can scale by
/// (magnitude above `u32::MAX`, or a power-of-ten denominator beyond
/// `u64::MAX`).
#[derive(Clone, Copy, Debug, PartialEq, Eq, Structural)]
pub enum ParseError {
    Syntax,
    OutOfRange,
}

/// What parsing a character sequence yields.
pub ghost enum ParseOutcome {
    Invalid,
    OutOfRange,
    Parsed(QVal, Family),
}

pub open spec fn is_dig(c: char) -> bool {
    '0' <= c && c <= '9'
}

pub open spec fn dig_val(c: char) -> int {
    c as int - '0' as int
}

/// First index at or after `i` that does not hold a digit.
pub open spec fn digits_end(s: Seq<char>, i: int) -> int
    decreases s.len() - i,
{
    if 0 <= i < s.len() && is_dig(s[i]) {
        digits_end(s, i + 1)
    } else {
        i
    }
}

pub proof fn lemma_digits_end_ge(s: Seq<char>, i: int)
    ensures
        digits_end(s, i) >= i,
    decreases s.len() - i,
{
    if 0 <= i < s.len() && is_dig(s[i]) {
        lemma_digits_end_ge(s, i + 1);
    }
}

pub proof fn lemma_digits_end_le(s: Seq<char>, i: int)
    requires
        i <= s.len(),
    ensures
        digits_end(s, i) <= s.len(),
    decreases s.len() - i,
{
    if 0 <= i < s.len() && is_dig(s[i]) {
        lemma_digits_end_le(s, i + 1);
    }
}

/// Value of the digit run `s[i..j]` read onto the accumulator `acc`.
pub open spec fn digits_acc(s: Seq<char>, i: int, j: int, acc: int) -> int
    decreases j - i,
{
    if i < j && 0 <= i < s.len() {
        digits_acc(s, i + 1, j, acc * 10 + dig_val(s[i]))
    } else {
        acc
    }
}

/// Classifies a scale suffix: the power-of-ten shift it stands for, the
/// power of 1024, and the family it belongs to. `None` when the text is
/// not a suffix of the grammar.
pub open spec fn suffix_code(t: Seq<char>) -> Option<(int, nat, Family)> {
    if t.len() == 0 {
        Some((0int, 0 as nat, Family::Decimal))
    } else if t.len() == 1 {
        if t[0] == 'm' {
            Some((-3int, 0 as nat, Family::Decimal))
        } else if t[0] == 'k' {
            Some((3int, 0 as nat, Family::Decimal))
        } else if t[0] == 'M' {
            Some((6int, 0 as nat, Family::Decimal))
        } else if t[0] == 'G' {
            Some((9int, 0 as nat, Family::Decimal))
        } else if t[0] == 'T' {
            Some((12int, 0 as nat, Family::Decimal))
        } else if t[0] == 'P' {
            Some((15int, 0 as nat, Family::Decimal))
        } else if t[0] == 'E' {
            Some((18int, 0 as nat, Family::Decimal))
        } else {
            None
        }
    } else if t.len() == 2 && t[1] == 'i' {
        if t[0] == 'K' {
            Some((0int, 1 as nat, Family::Binary))
        } else if t[0] == 'M' {
            Some((0int, 2 as nat, Family::Binary))
        } else if t[0] == 'G' {
            Some((0int, 3 as nat, Family::Binary))
        } else if t[0] == 'T' {
            Some((0int, 4 as nat, Family::Binary))
        } else if t[0] == 'P' {
            Some((0int, 5 as nat, Family::Binary))
        } else if t[0] == 'E' {
            Some((0int, 6 as nat, Family::Binary))
        } else {
            None
        }
    } else {
        None
    }
}

/// The meaning of a quantity string: an optional sign, an integer part,
/// an optional fraction, an optional exponent, and an optional scale
/// suffix, combined into the exact value `num / 10^den` plus the family
/// of the suffix.
pub open spec fn parse_spec(s: Seq<char>) -> ParseOutcome {
    let n = s.len() as int;
    if n == 0 {
        ParseOutcome::Invalid
    } else {
        let neg = s[0] == '-';
        let i1: int = if s[0] == '+' || s[0] == '-' {
            1
        } else {
            0
        };
        let i2 = digits_end(s, i1);
        if i2 == i1 {
            ParseOutcome::Invalid
        } else {
            let m1 = digits_acc(s, i1, i2, 0);
            let has_frac = i2 < n && s[i2] == '.';
            let fe = digits_end(s, i2 + 1);
            let i3: int = if has_frac {
                fe
            } else {
                i2
            };
            let m2 = if has_frac {
                digits_acc(s, i2 + 1, fe, m1)
            } else {
                m1
            };
            let frac: int = if has_frac {
                fe - (i2 + 1)
            } else {
                0
            };
            if has_frac && frac == 0 {
                ParseOutcome::Invalid
            } else {
                let j: int = if i3 + 1 < n && (s[i3 + 1] == '+' || s[i3 + 1] == '-') {
                    i3 + 2
                } else {
                    i3 + 1
                };
                let je = digits_end(s, j);
                let has_exp = (i3 < n && (s[i3] == 'e' || s[i3] == 'E')) && je > j;
                let eneg = i3 + 1 < n && s[i3 + 1] == '-';
                let emag: int = if has_exp {
                    digits_acc(s, j, je, 0)
                } else {
                    0
                };
                let i4: int = if has_exp {
                    je
                } else {
                    i3
                };
                match suffix_code(s.subrange(i4, n)) {
                    Option::None => ParseOutcome::Invalid,
                    Option::Some((dsh, b, fam)) => {
                        if emag > u32::MAX as int {
                            ParseOutcome::OutOfRange
                        } else {
                            let eval: int = if has_exp && eneg {
                                -emag
                            } else {
                                emag
                            };
                            let shift = eval - frac + dsh;
                            if shift < 0 && -shift > u64::MAX as int {
                                ParseOutcome::OutOfRange
                            } else {
                                let mag = m2 * pow1024(b) * (if shift >= 0 {
                                    pow10(shift as nat)
                                } else {
                                    1
                                });
                                ParseOutcome::Parsed(
                                    QVal {
                                        num: if neg {
                                            -mag
                                        } else {
                                            mag
                                        },
                                        den: if shift < 0 {
                                            (-shift) as nat
                                        } else {
                                            0
                                        },
                                    },
                                    fam,
                                )
                            }
                        }
                    },
                }
            }
        }
    }
}

/// The character at `i`, if any.
fn peek_char(s: &str, n: usize, i: usize) -> (r: Option<char>)
    requires
        n == s@.len(),
    ensures
        r matches Some(c) ==> i < n && c == s@[i as int],
        r is None <==> i >= n,
{
    if i < n {
        Some(s.get_char(i))
    } else {
        None
    }
}

/// The digit at `i`, if the character there is one.
fn peek_digit(s: &str, n: usize, i: usize) -> (r: Option<u32>)
    requires
        n == s@.len(),
    ensures
        r matches Some(d) ==> i < n && is_dig(s@[i as int]) && d as int == dig_val(s@[i as int])
            && d < 10,
        r is None <==> !(i < n && is_dig(s@[i as int])),
{
    if i < n {
        let c = s.get_char(i);
        if '0' <= c && c <= '9' {
            Some((c as u32) - 48)
        } else {
            None
        }
    } else {
        None
    }
}

/// A quantity always compares equal to itself.
pub proof fn lemma_qval_eq_refl(a: QVal)
    ensures
        qval_eq(a, a),
{
}

/// The zero quantity is the additive identity on either side: adding it
/// changes neither the value nor the representation.
pub proof fn lemma_qval_add_zero(a: QVal)
    ensures
        qval_add(a, qval_zero()) == a,
        qval_add(qval_zero(), a) == a,
{
    assert(a.num * pow10(0) == a.num);
    assert(0 * pow10((a.den - 0) as nat) == 0);
}

/// Addition of quantities is commutative.
pub proof fn lemma_qval_add_comm(a: QVal, b: QVal)
    ensures
        qval_add(a, b) == qval_add(b, a),
{
}

/// Addition of quantities is associative; the two groupings agree even
/// in representation, so in particular they compare equal.
pub proof fn lemma_qval_add_assoc(a: QVal, b: QVal, c: QVal)
    ensures
        qval_add(qval_add(a, b), c) == qval_add(a, qval_add(b, c)),
        qval_eq(qval_add(qval_add(a, b), c), qval_add(a, qval_add(b, c))),
{
    let ab = qval_add(a, b);
    let bc = qval_add(b, c);
    let l = qval_add(ab, c);
    let r = qval_add(a, bc);
    assert(l.den == r.den);
    let dd = l.den;
    lemma_pow10_add((ab.den - a.den) as nat, (dd - ab.den) as nat);
    lemma_pow10_add((ab.den - b.den) as nat, (dd - ab.den) as nat);
    lemma_pow10_add((bc.den - b.den) as nat, (dd - bc.den) as nat);
    lemma_pow10_add((bc.den - c.den) as nat, (dd - bc.den) as nat);
    assert(l.num == a.num * (pow10((ab.den - a.den) as nat) * pow10((dd - ab.den) as nat)) + b.num
        * (pow10((ab.den - b.den) as nat) * pow10((dd - ab.den) as nat)) + c.num * pow10(
        (dd - c.den) as nat,
    )) by (nonlinear_arith)
        requires
            l.num == (a.num * pow10((ab.den - a.den) as nat) + b.num * pow10(
                (ab.den - b.den) as nat,
            )) * pow10((dd - ab.den) as nat) + c.num * pow10((dd - c.den) as nat),
    ;
    assert(r.num == a.num * pow10((dd - a.den) as nat) + b.num * (pow10((bc.den - b.den) as nat)
        * pow10((dd - bc.den) as nat)) + c.num * (pow10((bc.den - c.den) as nat) * pow10(
        (dd - bc.den) as nat,
    ))) by (nonlinear_arith)
        requires
            r.num == a.num * pow10((dd - a.den) as nat) + (b.num * pow10((bc.den - b.den) as nat)
                + c.num * pow10((bc.den - c.den) as nat)) * pow10((dd - bc.den) as nat),
    ;
    lemma_qval_eq_refl(l);
}

/// Clamps an integer into the `i64` range.
pub open spec fn clamp_i64(v: int) -> int {
    if v > i64::MAX as int {
        i64::MAX as int
    } else if v < i64::MIN as int {
        i64::MIN as int
    } else {
        v
    }
}

/// `100 * a / b`, truncated toward zero; meaningful only for `b != 0`.
pub open spec fn pct_of(a: QVal, b: QVal) -> int {
    let n0 = 100 * a.num * pow10(b.den);
    let d0 = b.num * pow10(a.den);
    let n1 = if d0 < 0 {
        -n0
    } else {
        n0
    };
    let d1 = if d0 < 0 {
        -d0
    } else {
        d0
    };
    if n1 >= 0 {
        n1 / d1
    } else {
        -((-n1) / d1)
    }
}

/// The character for one decimal digit.
pub open spec fn digit_char(d: int) -> char {
    (('0' as int) + d) as char
}

/// Decimal rendering of a non-negative integer, most significant digit
/// first.
pub open spec fn dec_str(n: nat) -> Seq<char>
    decreases n,
{
    if n < 10 {
        seq![digit_char(n as int)]
    } else {
        dec_str((n / 10) as nat).push(digit_char((n % 10) as int))
    }
}

/// Rendering of a mantissa given in tenths: the integer part, then one
/// fractional digit when it is not zero.
pub open spec fn mantissa_str(m10: int) -> Seq<char> {
    let ip = m10 / 10;
    let fr = m10 % 10;
    if fr == 0 {
        dec_str(ip as nat)
    } else {
        dec_str(ip as nat) + seq!['.', digit_char(fr)]
    }
}

/// Largest binary scale (power of 1024) not above `a / 10^den`, capped at
/// the exbi suffix.
pub open spec fn bin_scale_of(a: int, den: nat) -> nat {
    if a >= pow10(den) * pow1024(6) {
        6
    } else if a >= pow10(den) * pow1024(5) {
        5
    } else if a >= pow10(den) * pow1024(4) {
        4
    } else if a >= pow10(den) * pow1024(3) {
        3
    } else if a >= pow10(den) * pow1024(2) {
        2
    } else if a >= pow10(den) * pow1024(1) {
        1
    } else {
        0
    }
}

/// Largest decimal scale (power of ten, in steps of a thousand) not above
/// `a / 10^den`, capped at the exa suffix; a positive value below one gets
/// the milli suffix.
pub open spec fn dec_scale_of(a: int, den: nat) -> int {
    if a >= pow10(den) * pow10(18) {
        18
    } else if a >= pow10(den) * pow10(15) {
        15
    } else if a >= pow10(den) * pow10(12) {
        12
    } else if a >= pow10(den) * pow10(9) {
        9
    } else if a >= pow10(den) * pow10(6) {
        6
    } else if a >= pow10(den) * pow10(3) {
        3
    } else if a >= pow10(den) {
        0
    } else {
        -3
    }
}

pub open spec fn bin_suffix(b: nat) -> Seq<char> {
    if b == 1 {
        seq!['K', 'i']
    } else if b == 2 {
        seq!['M', 'i']
    } else if b == 3 {
        seq!['G', 'i']
    } else if b == 4 {
        seq!['T', 'i']
    } else if b == 5 {
        seq!['P', 'i']
    } else if b == 6 {
        seq!['E', 'i']
    } else {
        Seq::empty()
    }
}

pub open spec fn dec_suffix(p: int) -> Seq<char> {
    if p == 3 {
        seq!['k']
    } else if p == 6 {
        seq!['M']
    } else if p == 9 {
        seq!['G']
    } else if p == 12 {
        seq!['T']
    } else if p == 15 {
        seq!['P']
    } else if p == 18 {
        seq!['E']
    } else if p == -3 {
        seq!['m']
    } else {
        Seq::empty()
    }
}

/// The display form of a value: a sign, the mantissa rescaled to the
/// chosen suffix of the value's family and rounded down to tenths, and
/// the suffix itself. Zero is rendered bare.
pub open spec fn render_spec(q: QVal, f: Family) -> Seq<char> {
    if q.num == 0 {
        seq!['0']
    } else {
        let a = if q.num < 0 {
            -q.num
        } else {
            q.num
        };
        let sign: Seq<char> = if q.num < 0 {
            seq!['-']
        } else {
            Seq::empty()
        };
        if f == Family::Binary {
            let b = bin_scale_of(a, q.den);
            let m10 = (a * 10) / (pow10(q.den) * pow1024(b));
            sign + mantissa_str(m10) + bin_suffix(b)
        } else {
            let p = dec_scale_of(a, q.den);
            let m10 = if p >= 0 {
                (a * 10) / (pow10(q.den) * pow10(p as nat))
            } else {
                (a * pow10(4)) / pow10(q.den)
            };
            sign + mantissa_str(m10) + dec_suffix(p)
        }
    }
}

/// Reads the digit run starting at `start` onto the accumulator `num`,
/// returning the index past the run and the new accumulator.
fn scan_digits(s: &str, n: usize, start: usize, num: BigInt, ten: &BigInt) -> (r: (usize, BigInt))
    requires
        n == s@.len(),
        start <= n,
        big_int_of(*ten) == 10,
    ensures
        ({
            let (end, newnum) = r;
            end as int == digits_end(s@, start as int) && start <= end <= n && big_int_of(newnum)
                == digits_acc(s@, start as int, end as int, big_int_of(num))
        }),
{
    let ghost num0 = big_int_of(num);
    let mut cur = num;
    let mut i = start;
    let ghost e = digits_end(s@, start as int);
    proof {
        lemma_digits_end_ge(s@, start as int);
        lemma_digits_end_le(s@, start as int);
    }
    let mut d_opt = peek_digit(s, n, i);
    while d_opt.is_some()
        invariant
            n == s@.len(),
            start as int <= i as int <= e <= n as int,
            e == digits_end(s@, i as int),
            big_int_of(*ten) == 10,
            digits_acc(s@, i as int, e, big_int_of(cur)) == digits_acc(s@, start as int, e, num0),
            d_opt matches Some(d) ==> i < n && is_dig(s@[i as int]) && d as int == dig_val(
                s@[i as int],
            ) && d < 10,
            d_opt is None ==> !(i < n && is_dig(s@[i as int])),
        decreases n - i,
    {
        let d = d_opt.unwrap();
        proof {
            lemma_digits_end_ge(s@, i + 1);
        }
        cur = big_add(&big_mul(&cur, ten), &big_from_u64(d as u64));
        i = i + 1;
        d_opt = peek_digit(s, n, i);
    }
    (i, cur)
}

/// Reads the digit run starting at `start` as an exponent magnitude,
/// reporting overflow past `u32::MAX` instead of a value.
fn scan_exponent(s: &str, n: usize, start: usize) -> (r: (usize, u64, bool))
    requires
        n == s@.len(),
        start <= n,
    ensures
        ({
            let (end, emag, toobig) = r;
            end as int == digits_end(s@, start as int) && start <= end <= n && (!toobig
                ==> emag as int == digits_acc(s@, start as int, end as int, 0) && emag
                <= u32::MAX as u64) && (toobig ==> digits_acc(s@, start as int, end as int, 0)
                > u32::MAX as int)
        }),
{
    let mut emag: u64 = 0;
    let mut toobig = false;
    let ghost mut gexact: int = 0;
    let mut j = start;
    let ghost e = digits_end(s@, start as int);
    proof {
        lemma_digits_end_ge(s@, start as int);
        lemma_digits_end_le(s@, start as int);
    }
    let mut d_opt = peek_digit(s, n, j);
    while d_opt.is_some()
        invariant
            n == s@.len(),
            start as int <= j as int <= e <= n as int,
            e == digits_end(s@, j as int),
            gexact >= 0,
            digits_acc(s@, j as int, e, gexact) == digits_acc(s@, start as int, e, 0),
            !toobig ==> emag as int == gexact && emag <= u32::MAX as u64,
            toobig ==> gexact > u32::MAX as int,
            d_opt matches Some(d) ==> j < n && is_dig(s@[j as int]) && d as int == dig_val(
                s@[j as int],
            ) && d < 10,
            d_opt is None ==> !(j < n && is_dig(s@[j as int])),
        decreases n - j,
    {
        let d = d_opt.unwrap();
        proof {
            lemma_digits_end_ge(s@, j + 1);
            gexact = gexact * 10 + dig_val(s@[j as int]);
        }
        if !toobig {
            emag = emag * 10 + d as u64;
            if emag > u32::MAX as u64 {
                toobig = true;
            }
        }
        j = j + 1;
        d_opt = peek_digit(s, n, j);
    }
    (j, emag, toobig)
}

/// Classifies the tail `s[i..]` as a scale suffix, mirroring
/// `suffix_code`.
fn scan_suffix(s: &str, n: usize, i: usize) -> (r: Option<(i64, u64, Family)>)
    requires
        n == s@.len(),
        i <= n,
    ensures
        r matches Some((xd, xb, xf)) ==> suffix_code(s@.subrange(i as int, n as int))
            == Some((xd as int, xb as nat, xf)),
        r is None ==> suffix_code(s@.subrange(i as int, n as int)) is None,
{
    let rem = n - i;
    if rem == 0 {
        Some((0, 0, Family::Decimal))
    } else if rem == 1 {
        let c = s.get_char(i);
        if c == 'm' {
            Some((-3, 0, Family::Decimal))
        } else if c == 'k' {
            Some((3, 0, Family::Decimal))
        } else if c == 'M' {
            Some((6, 0, Family::Decimal))
        } else if c == 'G' {
            Some((9, 0, Family::Decimal))
        } else if c == 'T' {
            Some((12, 0, Family::Decimal))
        } else if c == 'P' {
            Some((15, 0, Family::Decimal))
        } else if c == 'E' {
            Some((18, 0, Family::Decimal))
        } else {
            None
        }
    } else if rem == 2 {
        let c1 = s.get_char(i + 1);
        if c1 != 'i' {
            None
        } else {
            let c = s.get_char(i);
            if c == 'K' {
                Some((0, 1, Family::Binary))
            } else if c == 'M' {
                Some((0, 2, Family::Binary))
            } else if c == 'G' {
                Some((0, 3, Family::Binary))
            } else if c == 'T' {
                Some((0, 4, Family::Binary))
            } else if c == 'P' {
                Some((0, 5, Family::Binary))
            } else if c == 'E' {
                Some((0, 6, Family::Binary))
            } else {
                None
            }
        }
    } else {
        None
    }
}

/// An exact magnitude: `num / 10^den`, plus the display family.
#[derive(Debug)]
pub struct Qty {
    pub num: BigInt,
    pub den: u64,
    pub family: Family,
}

impl View for Qty {
    type V = QVal;

    open spec fn view(&self) -> QVal {
        QVal { num: big_int_of(self.num), den: self.den as nat }
    }
}

/// 10^n as a big integer.
pub(crate) fn pow10_big(n: u64) -> (r: BigInt)
    ensures
        big_int_of(r) == pow10(n as nat),
{
    let ten = big_from_u64(10);
    let mut r = big_from_u64(1);
    let mut i: u64 = 0;
    while i < n
        invariant
            i <= n,
            big_int_of(ten) == 10,
            big_int_of(r) == pow10(i as nat),
        decreases n - i,
    {
        r = big_mul(&ten, &r);
        i = i + 1;
    }
    r
}

/// A one-character string for the digit `d`.
fn digit_str(d: i64) -> (r: &'static str)
    requires
        0 <= d < 10,
    ensures
        r@ == seq![digit_char(d as int)],
{
    proof {
        reveal_strlit("0");
        reveal_strlit("1");
        reveal_strlit("2");
        reveal_strlit("3");
        reveal_strlit("4");
        reveal_strlit("5");
        reveal_strlit("6");
        reveal_strlit("7");
        reveal_strlit("8");
        reveal_strlit("9");
    }
    if d == 0 {
        "0"
    } else if d == 1 {
        "1"
    } else if d == 2 {
        "2"
    } else if d == 3 {
        "3"
    } else if d == 4 {
        "4"
    } else if d == 5 {
        "5"
    } else if d == 6 {
        "6"
    } else if d == 7 {
        "7"
    } else if d == 8 {
        "8"
    } else {
        "9"
    }
}

/// Decimal digits of a non-negative big integer.
fn render_digits(x: &BigInt) -> (r: String)
    requires
        big_int_of(*x) >= 0,
    ensures
        r@ == dec_str(big_int_of(*x) as nat),
    decreases big_int_of(*x),
{
    let ten = big_from_u64(10);
    let q = big_div(x, &ten);
    let fr = big_sub(x, &big_mul(&q, &ten));
    proof {
        vstd::arithmetic::div_mod::lemma_fundamental_div_mod(big_int_of(*x), 10);
        vstd::arithmetic::div_mod::lemma_mod_bound(big_int_of(*x), 10);
        vstd::arithmetic::div_mod::lemma_div_pos_is_pos(big_int_of(*x), 10);
    }
    let d = match big_to_i64(&fr) {
        Some(v) => v,
        None => 0,  // unreachable: the remainder is below ten
    };
    let ds = digit_str(d);
    if big_cmp(x, &ten) == -1i8 {
        proof {
            vstd::arithmetic::div_mod::lemma_small_mod(big_int_of(*x) as nat, 10);
        }
        String::from_str(ds)
    } else {
        let mut front = render_digits(&q);
        front.append(ds);
        front
    }
}

/// Rendering of a non-negative mantissa given in tenths.
fn mantissa_exec(m10: &BigInt) -> (r: String)
    requires
        big_int_of(*m10) >= 0,
    ensures
        r@ == mantissa_str(big_int_of(*m10)),
{
    let ten = big_from_u64(10);
    let ip = big_div(m10, &ten);
    let fr = big_sub(m10, &big_mul(&ip, &ten));
    proof {
        vstd::arithmetic::div_mod::lemma_fundamental_div_mod(big_int_of(*m10), 10);
        vstd::arithmetic::div_mod::lemma_mod_bound(big_int_of(*m10), 10);
        vstd::arithmetic::div_mod::lemma_div_pos_is_pos(big_int_of(*m10), 10);
    }
    let frv = match big_to_i64(&fr) {
        Some(v) => v,
        None => 0,  // unreachable: the remainder is below ten
    };
    let digits = render_digits(&ip);
    if frv == 0 {
        digits
    } else {
        let mut out = digits;
        proof {
            reveal_strlit(".");
        }
        out.append(".");
        out.append(digit_str(frv));
        proof {
            assert(out@ =~= mantissa_str(big_int_of(*m10)));
        }
        out
    }
}

impl Default for Qty {
    /// A freshly constructed zero quantity: the additive identity.
    fn default() -> (r: Self)
        ensures
            r@ == qval_zero(),
            r.family == Family::Decimal,
    {
        Qty { num: big_from_u64(0), den: 0, family: Family::Decimal }
    }
}

impl Qty {
    /// Exact three-way comparison of the values, independent of the suffix
    /// either side was parsed with.
    pub fn compare(&self, other: &Qty) -> (r: QtyCmp)
        ensures
            r == QtyCmp::Less <==> qval_lt(self@, other@),
            r == QtyCmp::Greater <==> qval_lt(other@, self@),
            r == QtyCmp::Equal <==> qval_eq(self@, other@),
    {
        let pa = big_mul(&self.num, &pow10_big(other.den));
        let pb = big_mul(&other.num, &pow10_big(self.den));
        let c = big_cmp(&pa, &pb);
        if c < 0 {
            QtyCmp::Less
        } else if c == 0 {
            QtyCmp::Equal
        } else {
            QtyCmp::Greater
        }
    }

    /// True exactly when the value is zero.
    pub fn is_zero(&self) -> (r: bool)
        ensures
            r <==> qval_eq(self@, qval_zero()),
    {
        let z = big_from_u64(0);
        let c = big_cmp(&self.num, &z);
        proof {
            lemma_pow10_pos(self@.den);
        }
        c == 0
    }

    /// Exact addition. The result keeps the family of the larger operand
    /// (the larger contributing magnitude), so that rendering can pick a
    /// suffix from it; the value itself carries no preferred suffix.
    pub fn add(&self, other: &Qty) -> (r: Qty)
        ensures
            r@ == qval_add(self@, other@),
            r.family == (if qval_lt(self@, other@) { other.family } else { self.family }),
    {
        let d = if self.den >= other.den { self.den } else { other.den };
        let na = big_mul(&self.num, &pow10_big(d - self.den));
        let nb = big_mul(&other.num, &pow10_big(d - other.den));
        let fam = match self.compare(other) {
            QtyCmp::Less => other.family,
            _ => self.family,
        };
        Qty { num: big_add(&na, &nb), den: d, family: fam }
    }

    /// Parses a quantity written as an optional sign, digits with an
    /// optional fractional part and an optional exponent marker, followed
    /// by an optional decimal (base-1000) or binary (base-1024) scale
    /// suffix. The outcome is exactly `parse_spec` of the input.
    #[verifier::rlimit(100)]
    pub fn from_str(s: &str) -> (r: Result<Qty, ParseError>)
        ensures
            match r {
                Ok(q) => parse_spec(s@) == ParseOutcome::Parsed(q@, q.family),
                Err(e) => (e == ParseError::Syntax <==> parse_spec(s@) == ParseOutcome::Invalid)
                    && (e == ParseError::OutOfRange <==> parse_spec(s@)
                        == ParseOutcome::OutOfRange),
            },
    {
        let n = s.unicode_len();
        if n == 0 {
            return Err(ParseError::Syntax);
        }
        let c0 = s.get_char(0);
        let neg = c0 == '-';
        let mut i: usize = if c0 == '+' || c0 == '-' {
            1
        } else {
            0
        };
        let istart = i;
        let ghost i1 = i as int;
        let ghost i2 = digits_end(s@, i1);
        let ten = big_from_u64(10);
        let num0 = big_from_u64(0);
        // integer digits
        let (iend, num1) = scan_digits(s, n, i, num0, &ten);
        i = iend;
        let mut num = num1;
        if i == istart {
            return Err(ParseError::Syntax);
        }
        let ghost m1 = digits_acc(s@, i1, i2, 0);
        // fractional digits
        let pc = peek_char(s, n, i);
        let has_frac = match pc {
            Some(c) => c == '.',
            None => false,
        };
        let mut frac: usize = 0;
        let ghost fe = digits_end(s@, i2 + 1);
        if has_frac {
            i = i + 1;
            let fstart = i;
            let (fend, num2) = scan_digits(s, n, i, num, &ten);
            i = fend;
            num = num2;
            frac = i - fstart;
            if frac == 0 {
                return Err(ParseError::Syntax);
            }
        }
        let ghost i3: int = if has_frac {
            fe
        } else {
            i2
        };
        let ghost m2 = if has_frac {
            digits_acc(s@, i2 + 1, fe, m1)
        } else {
            m1
        };
        proof {
            assert(i as int == i3);
            assert(big_int_of(num) == m2);
        }
        // exponent
        let pe = peek_char(s, n, i);
        let has_e = match pe {
            Some(c) => c == 'e' || c == 'E',
            None => false,
        };
        let mut emag: u64 = 0;
        let mut etoobig = false;
        let mut eneg = false;
        let mut has_exp = false;
        if has_e {
            let ps = peek_char(s, n, i + 1);
            let jstart: usize = match ps {
                Some(c) => if c == '+' || c == '-' {
                    eneg = c == '-';
                    i + 2
                } else {
                    i + 1
                },
                None => i + 1,
            };
            let (j, em, tb) = scan_exponent(s, n, jstart);
            emag = em;
            etoobig = tb;
            if j > jstart {
                has_exp = true;
                i = j;
            } else {
                emag = 0;
                eneg = false;
            }
        }
        let ghost sp_j: int = if i3 + 1 < n as int && (s@[i3 + 1] == '+' || s@[i3 + 1] == '-') {
            i3 + 2
        } else {
            i3 + 1
        };
        let ghost sp_je = digits_end(s@, sp_j);
        let ghost sp_has_exp = (i3 < n as int && (s@[i3] == 'e' || s@[i3] == 'E')) && sp_je > sp_j;
        let ghost sp_emag: int = if sp_has_exp {
            digits_acc(s@, sp_j, sp_je, 0)
        } else {
            0
        };
        let ghost i4: int = if sp_has_exp {
            sp_je
        } else {
            i3
        };
        proof {
            assert(sp_has_exp == has_exp);
            assert(i as int == i4);
            assert(!etoobig ==> emag as int == sp_emag);
            assert(etoobig ==> sp_emag > u32::MAX as int);
        }
        // suffix
        let sfx = scan_suffix(s, n, i);
        match sfx {
            None => Err(ParseError::Syntax),
            Some((dsh, b, fam)) => {
                if etoobig {
                    return Err(ParseError::OutOfRange);
                }
                // scale by the binary suffix
                let bf: u64 = if b == 1 {
                    1024
                } else if b == 2 {
                    1048576
                } else if b == 3 {
                    1073741824
                } else if b == 4 {
                    1099511627776
                } else if b == 5 {
                    1125899906842624
                } else if b == 6 {
                    1152921504606846976
                } else {
                    1
                };
                proof {
                    reveal_with_fuel(pow1024, 7);
                    assert(bf as int == pow1024(b as nat));
                }
                num = big_mul(&num, &big_from_u64(bf));
                // net power-of-ten shift
                let eval: i64 = if has_exp && eneg {
                    -(emag as i64)
                } else {
                    emag as i64
                };
                let shift: i128 = eval as i128 - frac as i128 + dsh as i128;
                let den: u64;
                if shift >= 0 {
                    num = big_mul(&num, &pow10_big(shift as u64));
                    den = 0;
                } else {
                    let negshift: i128 = -shift;
                    if negshift > u64::MAX as i128 {
                        return Err(ParseError::OutOfRange);
                    }
                    den = negshift as u64;
                }
                if neg {
                    let z = big_from_u64(0);
                    num = big_sub(&z, &num);
                }
                Ok(Qty { num, den, family: fam })
            },
        }
    }

    /// `100 * self / base100`, truncated toward zero and clamped to the
    /// `i64` range; zero when the denominator is the zero quantity, so the
    /// call never fails.
    pub fn calc_percentage(&self, base100: &Qty) -> (r: i64)
        ensures
            qval_eq(base100@, qval_zero()) ==> r == 0,
            !qval_eq(base100@, qval_zero()) ==> r as int == clamp_i64(pct_of(self@, base100@)),
    {
        if base100.is_zero() {
            return 0;
        }
        let hundred = big_from_u64(100);
        let z = big_from_u64(0);
        let n0 = big_mul(&big_mul(&hundred, &self.num), &pow10_big(base100.den));
        let d0 = big_mul(&base100.num, &pow10_big(self.den));
        proof {
            lemma_pow10_pos(self@.den);
            lemma_pow10_pos(base100@.den);
            assert(big_int_of(base100.num) != 0);
            assert(big_int_of(base100.num) * pow10(self@.den) != 0) by (nonlinear_arith)
                requires
                    big_int_of(base100.num) != 0,
                    pow10(self@.den) >= 1,
            ;
        }
        let dneg = big_cmp(&d0, &z) == -1i8;
        let n1 = if dneg {
            big_sub(&z, &n0)
        } else {
            n0
        };
        let d1 = if dneg {
            big_sub(&z, &d0)
        } else {
            d0
        };
        let nneg = big_cmp(&n1, &z) == -1i8;
        let n2 = if nneg {
            big_sub(&z, &n1)
        } else {
            n1
        };
        let q = big_div(&n2, &d1);
        proof {
            vstd::arithmetic::div_mod::lemma_div_pos_is_pos(big_int_of(n2), big_int_of(d1));
        }
        match big_to_i64(&q) {
            Some(v) => if nneg {
                -v
            } else {
                v
            },
            None => if nneg {
                i64::MIN
            } else {
                i64::MAX
            },
        }
    }

    /// Renders the value rescaled to a human-friendly suffix of its own
    /// family, rounding down to tenths for display only; the stored value
    /// is not touched.
    pub fn adjust_scale(&self) -> (r: String)
        ensures
            r@ == render_spec(self@, self.family),
    {
        let z = big_from_u64(0);
        let c = big_cmp(&self.num, &z);
        if c == 0i8 {
            proof {
                reveal_strlit("0");
            }
            let out = String::from_str("0");
            proof {
                assert(out@ =~= seq!['0']);
            }
            return out;
        }
        let neg = c == -1i8;
        let a = if neg {
            big_sub(&z, &self.num)
        } else {
            big_clone(&self.num)
        };
        let ten = big_from_u64(10);
        let pd = pow10_big(self.den);
        let (mant, sfx): (String, &'static str) = match self.family {
            Family::Binary => {
                proof {
                    reveal_with_fuel(pow1024, 7);
                }
                let (b, scale): (u64, BigInt) = if big_cmp(
                    &a,
                    &big_mul(&pd, &big_from_u64(1152921504606846976)),
                ) >= 0i8 {
                    (6, big_from_u64(1152921504606846976))
                } else if big_cmp(&a, &big_mul(&pd, &big_from_u64(1125899906842624))) >= 0i8 {
                    (5, big_from_u64(1125899906842624))
                } else if big_cmp(&a, &big_mul(&pd, &big_from_u64(1099511627776))) >= 0i8 {
                    (4, big_from_u64(1099511627776))
                } else if big_cmp(&a, &big_mul(&pd, &big_from_u64(1073741824))) >= 0i8 {
                    (3, big_from_u64(1073741824))
                } else if big_cmp(&a, &big_mul(&pd, &big_from_u64(1048576))) >= 0i8 {
                    (2, big_from_u64(1048576))
                } else if big_cmp(&a, &big_mul(&pd, &big_from_u64(1024))) >= 0i8 {
                    (1, big_from_u64(1024))
                } else {
                    (0, big_from_u64(1))
                };
                proof {
                    assert(b as nat == bin_scale_of(big_int_of(a), self@.den));
                    assert(big_int_of(scale) == pow1024(b as nat));
                    lemma_pow10_pos(self@.den);
                    lemma_pow1024_pos(b as nat);
                    assert(pow10(self@.den) * pow1024(b as nat) >= 1) by (nonlinear_arith)
                        requires
                            pow10(self@.den) >= 1,
                            pow1024(b as nat) >= 1,
                    ;
                }
                let m10 = big_div(&big_mul(&a, &ten), &big_mul(&pd, &scale));
                proof {
                    vstd::arithmetic::div_mod::lemma_div_pos_is_pos(
                        big_int_of(a) * 10,
                        pow10(self@.den) * pow1024(b as nat),
                    );
                }
                let mant_b = mantissa_exec(&m10);
                let sfx_b: &'static str = if b == 6 {
                    "Ei"
                } else if b == 5 {
                    "Pi"
                } else if b == 4 {
                    "Ti"
                } else if b == 3 {
                    "Gi"
                } else if b == 2 {
                    "Mi"
                } else if b == 1 {
                    "Ki"
                } else {
                    ""
                };
                proof {
                    reveal_strlit("Ei");
                    reveal_strlit("Pi");
                    reveal_strlit("Ti");
                    reveal_strlit("Gi");
                    reveal_strlit("Mi");
                    reveal_strlit("Ki");
                    reveal_strlit("");
                    assert(sfx_b@ =~= bin_suffix(b as nat));
                }
                (mant_b, sfx_b)
            },
            Family::Decimal => {
                proof {
                    lemma_pow10_pos(self@.den);
                    lemma_pow10_mul_pos(self@.den, 18);
                    lemma_pow10_mul_pos(self@.den, 15);
                    lemma_pow10_mul_pos(self@.den, 12);
                    lemma_pow10_mul_pos(self@.den, 9);
                    lemma_pow10_mul_pos(self@.den, 6);
                    lemma_pow10_mul_pos(self@.den, 3);
                    lemma_pow10_mul_pos(self@.den, 0);
                }
                proof {
                    lemma_pow10_pos(4);
                    assert(big_int_of(a) * pow10(4) >= 0) by (nonlinear_arith)
                        requires
                            big_int_of(a) >= 0,
                            pow10(4) >= 1,
                    ;
                }
                let (p, m10): (i64, BigInt) = if big_cmp(&a, &big_mul(&pd, &pow10_big(18)))
                    >= 0i8 {
                    (18, big_div(&big_mul(&a, &ten), &big_mul(&pd, &pow10_big(18))))
                } else if big_cmp(&a, &big_mul(&pd, &pow10_big(15))) >= 0i8 {
                    (15, big_div(&big_mul(&a, &ten), &big_mul(&pd, &pow10_big(15))))
                } else if big_cmp(&a, &big_mul(&pd, &pow10_big(12))) >= 0i8 {
                    (12, big_div(&big_mul(&a, &ten), &big_mul(&pd, &pow10_big(12))))
                } else if big_cmp(&a, &big_mul(&pd, &pow10_big(9))) >= 0i8 {
                    (9, big_div(&big_mul(&a, &ten), &big_mul(&pd, &pow10_big(9))))
                } else if big_cmp(&a, &big_mul(&pd, &pow10_big(6))) >= 0i8 {
                    (6, big_div(&big_mul(&a, &ten), &big_mul(&pd, &pow10_big(6))))
                } else if big_cmp(&a, &big_mul(&pd, &pow10_big(3))) >= 0i8 {
                    (3, big_div(&big_mul(&a, &ten), &big_mul(&pd, &pow10_big(3))))
                } else if big_cmp(&a, &pd) >= 0i8 {
                    (0, big_div(&big_mul(&a, &ten), &big_mul(&pd, &pow10_big(0))))
                } else {
                    (-3, big_div(&big_mul(&a, &pow10_big(4)), &pd))
                };
                proof {
                    assert(p as int == dec_scale_of(big_int_of(a), self@.den));
                    lemma_pow10_pos(self@.den);
                    lemma_pow10_pos(18);
                    lemma_pow10_pos(15);
                    lemma_pow10_pos(12);
                    lemma_pow10_pos(9);
                    lemma_pow10_pos(6);
                    lemma_pow10_pos(3);
                    lemma_pow10_pos(0);
                    if p >= 0 {
                        assert(pow10(self@.den) * pow10(p as nat) >= 1) by (nonlinear_arith)
                            requires
                                pow10(self@.den) >= 1,
                                pow10(p as nat) >= 1,
                        ;
                        vstd::arithmetic::div_mod::lemma_div_pos_is_pos(
                            big_int_of(a) * 10,
                            pow10(self@.den) * pow10(p as nat),
                        );
                    } else {
                        vstd::arithmetic::div_mod::lemma_div_pos_is_pos(
                            big_int_of(a) * pow10(4),
                            pow10(self@.den),
                        );
                    }
                }
                let mant_d = mantissa_exec(&m10);
                let sfx_d: &'static str = if p == 18 {
                    "E"
                } else if p == 15 {
                    "P"
                } else if p == 12 {
                    "T"
                } else if p == 9 {
                    "G"
                } else if p == 6 {
                    "M"
                } else if p == 3 {
                    "k"
                } else if p == 0 {
                    ""
                } else {
                    "m"
                };
                proof {
                    reveal_strlit("E");
                    reveal_strlit("P");
                    reveal_strlit("T");
                    reveal_strlit("G");
                    reveal_strlit("M");
                    reveal_strlit("k");
                    reveal_strlit("");
                    reveal_strlit("m");
                    assert(sfx_d@ =~= dec_suffix(p as int));
                }
                (mant_d, sfx_d)
            },
        };
        let mut out = String::new();
        if neg {
            proof {
                reveal_strlit("-");
            }
            out.append("-");
        }
        out.append(mant.as_str());
        out.append(sfx);
        proof {
            assert(out@ =~= render_spec(self@, self.family));
        }
        out
    }

    /// Exact subtraction. The result keeps the family of the left operand.
    pub fn sub(&self, other: &Qty) -> (r: Qty)
        ensures
            r@ == qval_sub(self@, other@),
            r.family == self.family,
    {
        let d = if self.den >= other.den { self.den } else { other.den };
        let na = big_mul(&self.num, &pow10_big(d - self.den));
        let nb = big_mul(&other.num, &pow10_big(d - other.den));
        proof {
            assert((-big_int_of(other.num)) * pow10((d - other.den) as nat)
                == -(big_int_of(other.num) * pow10((d - other.den) as nat))) by (nonlinear_arith);
        }
        Qty { num: big_sub(&na, &nb), den: d, family: self.family }
    }
}

} // verus!
