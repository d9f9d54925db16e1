//! Parsing one input line into an observation.
//!
//! An observation is written as an optional sign, a digit mantissa with an
//! optional point (`7`, `7.`, `.5`, `3.14`), and an optional exponent part
//! (`e` or `E`, an optional sign, digits). The value is held in units of
//! thousandths, so a line parses exactly when it denotes a whole number of
//! thousandths within the accepted magnitude. The grammar itself is
//! bounded: at most three fraction digits (finer ones are no whole number
//! of thousandths), an integer part below 10^13, and an exponent magnitude
//! of at most 999; a line outside these bounds does not parse, whatever it
//! would denote.

use vstd::prelude::*;

use vstd::arithmetic::div_mod::lemma_small_mod;

use crate::MAX_ABS;

verus! {

pub open spec fn is_digit(c: u8) -> bool {
    48 <= c <= 57
}

pub open spec fn is_exp_mark(c: u8) -> bool {
    c == 101 || c == 69
}

pub open spec fn all_digits(s: Seq<u8>) -> bool {
    forall|i: int| 0 <= i < s.len() ==> is_digit(#[trigger] s[i])
}

/// The number a digit string denotes.
pub open spec fn digits_value(s: Seq<u8>) -> int
    decreases s.len(),
{
    if s.len() == 0 {
        0
    } else {
        10 * digits_value(s.drop_last()) + (s.last() - 48)
    }
}

pub open spec fn pow10(e: nat) -> int
    decreases e,
{
    if e == 0 {
        1
    } else {
        10 * pow10((e - 1) as nat)
    }
}

/// `i` splits the mantissa `t` into integer digits, a point, and at most
/// three fraction digits; at least one digit is present on some side.
pub open spec fn dot_split(t: Seq<u8>, i: int) -> bool {
    &&& 0 <= i < t.len()
    &&& t.len() >= 2
    &&& t[i] == 46
    &&& t.len() - i - 1 <= 3
    &&& all_digits(t.take(i))
    &&& all_digits(t.skip(i + 1))
}

/// A mantissa: all digits, or digits split by one point.
pub open spec fn mant_shape(t: Seq<u8>) -> bool {
    ||| (t.len() >= 1 && all_digits(t))
    ||| exists|i: int| dot_split(t, i)
}

/// The number of fraction digits of a mantissa.
pub open spec fn flen_of(t: Seq<u8>) -> int {
    if all_digits(t) {
        0
    } else {
        let i = choose|i: int| dot_split(t, i);
        t.len() - i - 1
    }
}

/// The mantissa's digits read as one number (the point dropped).
pub open spec fn mant_of(t: Seq<u8>) -> int {
    if all_digits(t) {
        digits_value(t)
    } else {
        let i = choose|i: int| dot_split(t, i);
        digits_value(t.take(i)) * pow10((t.len() - i - 1) as nat) + digits_value(t.skip(i + 1))
    }
}

/// The mantissa's integer part, for the magnitude cap.
pub open spec fn int_part_of(t: Seq<u8>) -> int {
    if all_digits(t) {
        digits_value(t)
    } else {
        let i = choose|i: int| dot_split(t, i);
        digits_value(t.take(i))
    }
}

/// An exponent part (after the `e`): an optional sign, then digits.
pub open spec fn exp_shape(r: Seq<u8>) -> bool {
    let d = if r.len() > 0 && (r[0] == 43 || r[0] == 45) {
        r.skip(1)
    } else {
        r
    };
    d.len() >= 1 && all_digits(d)
}

pub open spec fn exp_mag(r: Seq<u8>) -> int {
    let d = if r.len() > 0 && (r[0] == 43 || r[0] == 45) {
        r.skip(1)
    } else {
        r
    };
    digits_value(d)
}

pub open spec fn exp_val(r: Seq<u8>) -> int {
    if r.len() > 0 && r[0] == 45 {
        -exp_mag(r)
    } else {
        exp_mag(r)
    }
}

/// `j` splits the body into a mantissa, an exponent mark, and an exponent.
pub open spec fn e_split(u: Seq<u8>, j: int) -> bool {
    &&& 0 <= j < u.len()
    &&& is_exp_mark(u[j])
    &&& mant_shape(u.take(j))
    &&& exp_shape(u.skip(j + 1))
}

/// Exact scaling of a non-negative mantissa by a power of ten: the value
/// when it is a whole number of units within the accepted magnitude,
/// nothing otherwise.
pub open spec fn scaled(mant: int, e: int) -> Option<int> {
    if mant == 0 {
        Some(0int)
    } else if e >= 0 {
        if mant * pow10(e as nat) <= MAX_ABS as int {
            Some(mant * pow10(e as nat))
        } else {
            None
        }
    } else {
        if mant % pow10((-e) as nat) == 0 && mant / pow10((-e) as nat) <= MAX_ABS as int {
            Some(mant / pow10((-e) as nat))
        } else {
            None
        }
    }
}

/// What an unsigned body denotes, in units, or nothing.
pub open spec fn body_value(u: Seq<u8>) -> Option<int> {
    if exists|j: int| e_split(u, j) {
        let j = choose|j: int| e_split(u, j);
        let t = u.take(j);
        let r = u.skip(j + 1);
        if int_part_of(t) < 10000000000000 && exp_mag(r) <= 999 {
            scaled(mant_of(t), 3 - flen_of(t) + exp_val(r))
        } else {
            None
        }
    } else if mant_shape(u) {
        if int_part_of(u) < 10000000000000 {
            scaled(mant_of(u), 3 - flen_of(u))
        } else {
            None
        }
    } else {
        None
    }
}

/// What a line denotes: the signed value in units, or nothing when the
/// line does not match the grammar or does not denote a whole number of
/// units within the accepted magnitude.
pub open spec fn parse_spec(s: Seq<u8>) -> Option<int> {
    if s.len() == 0 {
        None
    } else {
        let neg = s[0] == 45;
        let u = if s[0] == 45 || s[0] == 43 {
            s.skip(1)
        } else {
            s
        };
        match body_value(u) {
            Some(v) => if neg {
                Some(-v)
            } else {
                Some(v)
            },
            None => None,
        }
    }
}

proof fn lemma_digits_nonneg(s: Seq<u8>)
    requires
        all_digits(s),
    ensures
        digits_value(s) >= 0,
    decreases s.len(),
{
    if s.len() > 0 {
        assert(all_digits(s.drop_last())) by {
            assert(forall|i: int|
                0 <= i < s.len() - 1 ==> #[trigger] s.drop_last()[i] == s[i]);
        }
        lemma_digits_nonneg(s.drop_last());
    }
}

/// A digit string of at most `k` digits stays under `10^k`.
proof fn lemma_digits_bounded(s: Seq<u8>, k: nat)
    requires
        all_digits(s),
        s.len() <= k,
    ensures
        digits_value(s) < pow10(k),
    decreases s.len(),
{
    lemma_pow10_pos(k);
    if s.len() == 0 {
    } else {
        assert(all_digits(s.drop_last())) by {
            assert(forall|i: int|
                0 <= i < s.len() - 1 ==> #[trigger] s.drop_last()[i] == s[i]);
        }
        lemma_digits_bounded(s.drop_last(), (k - 1) as nat);
        assert(pow10(k) == 10 * pow10((k - 1) as nat));
    }
}

proof fn lemma_pow10_pos(e: nat)
    ensures
        pow10(e) >= 1,
    decreases e,
{
    if e > 0 {
        lemma_pow10_pos((e - 1) as nat);
    }
}

proof fn lemma_pow10_mono(a: nat, b: nat)
    requires
        a <= b,
    ensures
        pow10(a) <= pow10(b),
    decreases b,
{
    lemma_pow10_pos(a);
    if a < b {
        lemma_pow10_mono(a, (b - 1) as nat);
        lemma_pow10_pos((b - 1) as nat);
    }
}

/// The concrete powers of ten the parser computes with.
proof fn lemma_pow10_vals()
    ensures
        pow10(0) == 1,
        pow10(1) == 10,
        pow10(2) == 100,
        pow10(3) == 1000,
        pow10(9) == 1000000000,
        pow10(10) == 10000000000,
        pow10(16) == 10000000000000000,
        pow10(17) == 100000000000000000,
{
    assert(pow10(0) == 1);
    assert(pow10(1) == 10);
    assert(pow10(2) == 100);
    assert(pow10(3) == 1000);
    assert(pow10(4) == 10000);
    assert(pow10(5) == 100000);
    assert(pow10(6) == 1000000);
    assert(pow10(7) == 10000000);
    assert(pow10(8) == 100000000);
    assert(pow10(9) == 1000000000);
    assert(pow10(10) == 10000000000);
    assert(pow10(11) == 100000000000);
    assert(pow10(12) == 1000000000000);
    assert(pow10(13) == 10000000000000);
    assert(pow10(14) == 100000000000000);
    assert(pow10(15) == 1000000000000000);
    assert(pow10(16) == 10000000000000000);
    assert(pow10(17) == 100000000000000000);
}

/// When position `di` of the mantissa holds its point and everything
/// before is digits, no other position can split it.
proof fn lemma_dot_unique(t: Seq<u8>, di: int)
    requires
        0 <= di < t.len(),
        t[di] == 46,
        all_digits(t.take(di)),
    ensures
        forall|i: int| #[trigger] dot_split(t, i) ==> i == di,
        !all_digits(t),
{
    assert(!is_digit(t[di]));
    assert forall|i: int| #[trigger] dot_split(t, i) implies i == di by {
        if i < di {
            assert(is_digit(t.take(di)[i]));
            assert(false);
        } else if i > di {
            assert(is_digit(t.take(i)[di]));
            assert(false);
        }
    }
}

/// A mantissa holds only digits and at most one point, so an exponent
/// mark cannot stand inside one.
proof fn lemma_mant_no_mark(t: Seq<u8>, m: int)
    requires
        0 <= m < t.len(),
        is_exp_mark(t[m]),
    ensures
        !mant_shape(t),
{
    assert(!is_digit(t[m]) && t[m] != 46);
    if all_digits(t) {
        assert(is_digit(t[m]));
    }
    assert forall|i: int| !#[trigger] dot_split(t, i) by {
        if dot_split(t, i) {
            if m < i {
                assert(is_digit(t.take(i)[m]));
            } else if m > i {
                assert(is_digit(t.skip(i + 1)[m - i - 1]));
            }
        }
    }
}

/// When the body's prefix up to `j` is a mantissa and position `j` holds
/// an exponent mark, `j` is the only possible exponent split.
proof fn lemma_e_unique(u: Seq<u8>, j: int)
    requires
        0 <= j < u.len(),
        is_exp_mark(u[j]),
        mant_shape(u.take(j)),
    ensures
        forall|i: int| #[trigger] e_split(u, i) ==> i == j,
        !mant_shape(u),
{
    assert(u.take(u.len() as int) =~= u);
    lemma_mant_no_mark(u, j);
    assert forall|i: int| #[trigger] e_split(u, i) implies i == j by {
        if i < j {
            // an exponent mark inside the mantissa region
            assert(u.take(j)[i] == u[i]);
            lemma_mant_no_mark(u.take(j), i);
        } else if i > j {
            // the first mark lies inside this split's mantissa
            assert(u.take(i)[j] == u[j]);
            lemma_mant_no_mark(u.take(i), j);
        }
    }
}

/// A power of ten for the exponent arithmetic.
fn pow10_u64(e: usize) -> (r: u64)
    requires
        e <= 16,
    ensures
        r as int == pow10(e as nat),
        r >= 1,
{
    let mut r: u64 = 1;
    let mut i: usize = 0;
    while i < e
        invariant
            i <= e <= 16,
            r as int == pow10(i as nat),
            r >= 1,
        decreases e - i,
    {
        proof {
            lemma_pow10_vals();
            lemma_pow10_mono((i + 1) as nat, 16);
            assert(pow10((i + 1) as nat) == 10 * pow10(i as nat));
        }
        r = r * 10;
        i = i + 1;
    }
    r
}

/// The exec parser for the observation grammar.
#[verifier::rlimit(100)]
pub fn parse_value(s: &[u8]) -> (r: Option<i64>)
    ensures
        r is Some <==> parse_spec(s@) is Some,
        r is Some ==> parse_spec(s@) == Some(r->Some_0 as int),
        r is Some ==> -MAX_ABS <= r->Some_0 <= MAX_ABS,
{
    let len = s.len();
    if len == 0 {
        return None;
    }
    let neg = s[0] == 45;
    let start: usize = if s[0] == 45 || s[0] == 43 {
        1
    } else {
        0
    };
    let ghost u = s@.skip(start as int);
    proof {
        assert(s@.skip(0) =~= s@);
        assert(forall|i: int| 0 <= i < u.len() ==> #[trigger] u[i] == s@[i + start]);
    }
    // Integer digits; the accumulator saturates one past the cap.
    let mut j = start;
    let mut acc: u64 = 0;
    while j < len && 48 <= s[j] && s[j] <= 57
        invariant
            start <= j <= len,
            len == s@.len(),
            start == 0 || start == 1,
            u == s@.skip(start as int),
            all_digits(u.take(j - start)),
            acc <= 10000000000000,
            digits_value(u.take(j - start)) <= 9999999999999 ==> acc == digits_value(
                u.take(j - start),
            ),
            digits_value(u.take(j - start)) > 9999999999999 ==> acc == 10000000000000,
        decreases len - j,
    {
        let d = (s[j] - 48) as u64;
        proof {
            let k = j - start;
            assert(u.take(k + 1) =~= u.take(k).push(u[k]));
            assert(u.take(k + 1).drop_last() =~= u.take(k));
            lemma_digits_nonneg(u.take(k));
        }
        if acc <= 9999999999999 {
            acc = 10 * acc + d;
            if acc > 9999999999999 {
                acc = 10000000000000;
            }
        }
        j = j + 1;
    }
    let idigits = j - start;
    // Optional fraction.
    let mut k = j;
    let mut facc: u64 = 0;
    let mut flen: usize = 0;
    let has_dot = j < len && s[j] == 46;
    if has_dot {
        let fstart = j + 1;
        k = fstart;
        while k < len && k - fstart < 3 && 48 <= s[k] && s[k] <= 57
            invariant
                fstart <= k <= len,
                fstart == j + 1,
                start <= j < len,
                len == s@.len(),
                start == 0 || start == 1,
                u == s@.skip(start as int),
                k - fstart <= 3,
                all_digits(u.skip(j + 1 - start).take(k - fstart)),
                facc == digits_value(u.skip(j + 1 - start).take(k - fstart)),
                facc <= 999,
            decreases len - k,
        {
            let d = (s[k] - 48) as u64;
            proof {
                let f = u.skip(j + 1 - start);
                let kk = k - fstart;
                assert(f.take(kk + 1) =~= f.take(kk).push(f[kk]));
                assert(f.take(kk + 1).drop_last() =~= f.take(kk));
                lemma_digits_nonneg(f.take(kk));
                lemma_digits_bounded(f.take(kk + 1), 3);
                lemma_pow10_vals();
            }
            facc = 10 * facc + d;
            k = k + 1;
        }
        if k < len && 48 <= s[k] && s[k] <= 57 {
            // a fourth fraction digit: finer than the precision
            proof {
                let di = (j - start) as int;
                assert(region_clean(u, di, true, 3)) by {
                    assert forall|p: int| 0 <= p < di implies is_digit(#[trigger] u[p]) by {
                        assert(is_digit(u.take(di)[p]));
                    }
                    assert forall|p: int| di + 1 <= p < di + 4 implies is_digit(
                        #[trigger] u[p],
                    ) by {
                        assert(is_digit(u.skip(di + 1).take(3)[p - di - 1]));
                    }
                }
                lemma_reject_long_fraction(u, di);
            }
            return None;
        }
        flen = k - fstart;
    }
    let ghost di = (j - start) as int;
    proof {
        assert(region_clean(u, di, has_dot, flen as int)) by {
            assert forall|p: int| 0 <= p < di implies is_digit(#[trigger] u[p]) by {
                assert(is_digit(u.take(di)[p]));
            }
            if has_dot {
                assert forall|p: int| di + 1 <= p < di + 1 + flen implies is_digit(
                    #[trigger] u[p],
                ) by {
                    assert(is_digit(u.skip(di + 1).take(flen as int)[p - di - 1]));
                }
            }
        }
        assert(region_end(di, has_dot, flen as int) == k - start);
    }
    if idigits == 0 && flen == 0 {
        // no digit at all in the mantissa
        proof {
            lemma_reject_empty_mantissa(u, has_dot);
        }
        return None;
    }
    let ghost mant_end = k - start;
    // Optional exponent.
    let mut eneg = false;
    let mut eacc: u64 = 0;
    let has_exp = k < len;
    if has_exp {
        if !(s[k] == 101 || s[k] == 69) {
            // a character that fits no part of the grammar
            proof {
                lemma_reject_junk(u, di, has_dot, flen as int);
            }
            return None;
        }
        match scan_exponent(
            s,
            k,
            Ghost(start),
            Ghost(u),
            Ghost(di),
            Ghost(has_dot),
            Ghost(flen as int),
        ) {
            None => {
                return None;
            },
            Some(e) => {
                eneg = e.0;
                eacc = e.1;
            },
        }
    } else {
        proof {
            lemma_accept_plain(u, di, has_dot, flen as int);
        }
    }
    let units = finish_value(
        acc,
        facc,
        flen,
        eneg,
        eacc,
        has_exp,
        has_dot,
        Ghost(u),
        Ghost(di),
        Ghost(mant_end),
    );
    match units {
        None => None,
        Some(units) => if neg {
            Some(-(units as i64))
        } else {
            Some(units as i64)
        },
    }
}

/// Put the scanned pieces together: the exact value of the body in units,
/// when it has one within the accepted magnitude.
#[verifier::rlimit(100)]
fn finish_value(
    acc: u64,
    facc: u64,
    flen: usize,
    eneg: bool,
    eacc: u64,
    has_exp: bool,
    has_dot: bool,
    Ghost(u): Ghost<Seq<u8>>,
    Ghost(di): Ghost<int>,
    Ghost(mant_end): Ghost<int>,
) -> (r: Option<u64>)
    requires
        region_clean(u, di, has_dot, flen as int),
        region_end(di, has_dot, flen as int) == mant_end <= u.len(),
        di > 0 || flen > 0,
        acc <= 10000000000000,
        digits_value(u.take(di)) <= 9999999999999 ==> acc == digits_value(u.take(di)),
        digits_value(u.take(di)) > 9999999999999 ==> acc == 10000000000000,
        has_dot ==> facc == digits_value(u.skip(di + 1).take(flen as int)) && facc <= 999,
        !has_dot ==> facc == 0 && flen == 0,
        has_exp ==> {
            &&& mant_end < u.len()
            &&& e_split(u, mant_end)
            &&& (choose|j: int| e_split(u, j)) == mant_end
            &&& !mant_shape(u)
            &&& eacc <= 1000
            &&& (exp_mag(u.skip(mant_end + 1)) <= 999 <==> eacc <= 999)
            &&& (eacc <= 999 ==> exp_mag(u.skip(mant_end + 1)) == eacc)
            &&& exp_val(u.skip(mant_end + 1)) == (if eneg {
                -exp_mag(u.skip(mant_end + 1))
            } else {
                exp_mag(u.skip(mant_end + 1))
            })
        },
        !has_exp ==> {
            &&& mant_end == u.len()
            &&& forall|j: int| !#[trigger] e_split(u, j)
            &&& eacc == 0
            &&& !eneg
        },
    ensures
        r is Some <==> body_value(u) is Some,
        r is Some ==> body_value(u) == Some(r->Some_0 as int),
        r is Some ==> r->Some_0 <= MAX_ABS,
{
    let ghost tm = u.take(mant_end);
    proof {
        lemma_region_mant_shape(u, di, has_dot, flen as int, mant_end);
        if !has_exp {
            assert(tm =~= u);
        }
        if has_dot {
            assert(tm.skip(di + 1) =~= u.skip(di + 1).take(flen as int));
        }
    }
    let ghost emag = if has_exp {
        exp_mag(u.skip(mant_end + 1))
    } else {
        0
    };
    let ghost eval = if has_exp {
        exp_val(u.skip(mant_end + 1))
    } else {
        0
    };
    proof {
        // the body's reading is the scanned mantissa and exponent
        if has_exp {
            assert(body_value(u) == (if int_part_of(tm) < 10000000000000 && emag <= 999 {
                scaled(mant_of(tm), 3 - flen_of(tm) + eval)
            } else {
                Option::<int>::None
            })) by {
                assert(e_split(u, mant_end));
                assert((choose|jj: int| e_split(u, jj)) == mant_end);
            }
        } else {
            assert(body_value(u) == (if int_part_of(tm) < 10000000000000 {
                scaled(mant_of(tm), 3 - flen_of(tm))
            } else {
                Option::<int>::None
            }));
        }
    }
    // The caps.
    if acc > 9999999999999 {
        proof {
            assert(int_part_of(tm) > 9999999999999);
        }
        return None;
    }
    if eacc > 999 {
        return None;
    }
    // The exact value in units.
    let pf = pow10_u64(flen);
    proof {
        lemma_pow10_vals();
        assert(acc * pf <= 9999999999999 * 1000) by (nonlinear_arith)
            requires
                acc <= 9999999999999,
                pf <= 1000,
        ;
    }
    let mant: u64 = acc * pf + facc;
    let e_signed: i64 = 3 - flen as i64 + (if eneg {
        -(eacc as i64)
    } else {
        eacc as i64
    });
    proof {
        assert(mant == mant_of(tm));
        assert(e_signed as int == 3 - flen_of(tm) + eval);
        assert(body_value(u) == scaled(mant as int, e_signed as int));
    }
    scale_units(mant, e_signed)
}

/// Scan the exponent part, from the exponent mark at `k`: its sign and
/// its magnitude, the latter held exactly up to the cap and saturated one
/// past it. Nothing comes back when the tail is no well-formed exponent —
/// the body then denotes nothing.
#[verifier::rlimit(100)]
fn scan_exponent(
    s: &[u8],
    k: usize,
    Ghost(start): Ghost<usize>,
    Ghost(u): Ghost<Seq<u8>>,
    Ghost(di): Ghost<int>,
    Ghost(has_dot): Ghost<bool>,
    Ghost(flen): Ghost<int>,
) -> (r: Option<(bool, u64)>)
    requires
        start == 0 || start == 1,
        start <= k < s@.len(),
        u == s@.skip(start as int),
        region_clean(u, di, has_dot, flen),
        region_end(di, has_dot, flen) == k - start,
        di > 0 || flen > 0,
        is_exp_mark(u[k - start]),
    ensures
        r is None ==> body_value(u) is None,
        r is Some ==> {
            let ke = k - start;
            let m = exp_mag(u.skip(ke + 1));
            &&& e_split(u, ke)
            &&& (choose|j: int| e_split(u, j)) == ke
            &&& !mant_shape(u)
            &&& r->Some_0.1 <= 1000
            &&& (m <= 999 <==> r->Some_0.1 <= 999)
            &&& (r->Some_0.1 <= 999 ==> m == r->Some_0.1)
            &&& exp_val(u.skip(ke + 1)) == (if r->Some_0.0 {
                -m
            } else {
                m
            })
        },
{
    let len = s.len();
    let mut eneg = false;
    let mut m = k + 1;
    if m < len && (s[m] == 43 || s[m] == 45) {
        eneg = s[m] == 45;
        m = m + 1;
    }
    let estart = m;
    let ghost ges = (estart - start) as int;
    let mut eacc: u64 = 0;
    while m < len && 48 <= s[m] && s[m] <= 57
        invariant
            estart <= m <= len,
            len == s@.len(),
            start == 0 || start == 1,
            u == s@.skip(start as int),
            estart >= start,
            ges == estart - start,
            all_digits(u.skip(ges).take(m - estart)),
            eacc <= 1000,
            digits_value(u.skip(ges).take(m - estart)) <= 999 ==> eacc == digits_value(
                u.skip(ges).take(m - estart),
            ),
            digits_value(u.skip(ges).take(m - estart)) > 999 ==> eacc == 1000,
        decreases len - m,
    {
        let d = (s[m] - 48) as u64;
        proof {
            let e = u.skip(ges);
            let kk = m - estart;
            assert(e.take(kk + 1) =~= e.take(kk).push(e[kk]));
            assert(e.take(kk + 1).drop_last() =~= e.take(kk));
            lemma_digits_nonneg(e.take(kk));
        }
        if eacc <= 999 {
            eacc = 10 * eacc + d;
            if eacc > 999 {
                eacc = 1000;
            }
        }
        m = m + 1;
    }
    if m < len || m == estart {
        // a non-digit inside the exponent, or no exponent digit at all
        proof {
            assert forall|p: int| ges <= p < m - start implies is_digit(#[trigger] u[p]) by {
                assert(is_digit(u.skip(ges).take(m - estart)[p - ges]));
            }
            lemma_reject_bad_exponent(u, di, has_dot, flen, ges, (m - start) as int);
        }
        return None;
    }
    proof {
        assert forall|p: int| ges <= p < u.len() implies is_digit(#[trigger] u[p]) by {
            assert(is_digit(u.skip(ges).take(m - estart)[p - ges]));
        }
        lemma_accept_exponent(u, di, has_dot, flen, ges);
        assert(u.skip(ges).take(m - estart) =~= u.skip(ges));
    }
    Some((eneg, eacc))
}

/// Scale a mantissa by its net power of ten, exactly: the whole number of
/// units when there is one within the accepted magnitude.
fn scale_units(mant: u64, e_signed: i64) -> (r: Option<u64>)
    requires
        mant < 10000000000000000,
        -1002 <= e_signed <= 1002,
    ensures
        r is Some <==> scaled(mant as int, e_signed as int) is Some,
        r is Some ==> scaled(mant as int, e_signed as int) == Some(r->Some_0 as int),
        r is Some ==> r->Some_0 <= MAX_ABS,
{
    if mant == 0 {
        Some(0)
    } else if e_signed >= 0 {
        if e_signed > 9 || mant > 1000000000 {
            proof {
                lemma_scaled_too_big(mant as int, e_signed as int);
            }
            return None;
        }
        let p = pow10_u64(e_signed as usize);
        proof {
            lemma_pow10_vals();
            lemma_pow10_mono(e_signed as nat, 9);
            assert(mant * p <= 1000000000 * 1000000000) by (nonlinear_arith)
                requires
                    mant <= 1000000000,
                    p <= 1000000000,
            ;
        }
        let v = mant * p;
        if v > MAX_ABS as u64 {
            return None;
        }
        Some(v)
    } else {
        let me = -e_signed;
        if me > 16 {
            proof {
                lemma_scaled_too_small(mant as int, e_signed as int);
            }
            return None;
        }
        let p = pow10_u64(me as usize);
        if mant % p != 0 {
            return None;
        }
        let q = mant / p;
        if q > MAX_ABS as u64 {
            return None;
        }
        Some(q)
    }
}

/// The scanned region of the body: digits up to `di`, then — when a point
/// is present — the point and `flen` more digits.
pub open spec fn region_clean(u: Seq<u8>, di: int, has_dot: bool, flen: int) -> bool {
    &&& 0 <= di <= u.len()
    &&& forall|p: int| 0 <= p < di ==> is_digit(#[trigger] u[p])
    &&& has_dot ==> {
        &&& di < u.len()
        &&& u[di] == 46
        &&& 0 <= flen <= 3
        &&& di + 1 + flen <= u.len()
        &&& forall|p: int| di + 1 <= p < di + 1 + flen ==> is_digit(#[trigger] u[p])
    }
    &&& !has_dot ==> flen == 0
}

/// The index one past the scanned mantissa.
pub open spec fn region_end(di: int, has_dot: bool, flen: int) -> int {
    if has_dot {
        di + 1 + flen
    } else {
        di
    }
}

/// A clean non-empty region is a mantissa, and the only possible one.
proof fn lemma_region_mant_shape(u: Seq<u8>, di: int, has_dot: bool, flen: int, m: int)
    requires
        region_clean(u, di, has_dot, flen),
        m == region_end(di, has_dot, flen),
        m <= u.len(),
        di > 0 || flen > 0,
    ensures
        mant_shape(u.take(m)),
        int_part_of(u.take(m)) == digits_value(u.take(di)),
        flen_of(u.take(m)) == flen,
        has_dot ==> mant_of(u.take(m)) == digits_value(u.take(di)) * pow10(flen as nat)
            + digits_value(u.take(m).skip(di + 1)),
        !has_dot ==> mant_of(u.take(m)) == digits_value(u.take(di)),
{
    let t = u.take(m);
    assert(forall|p: int| 0 <= p < m ==> #[trigger] t[p] == u[p]);
    if !has_dot {
        assert(all_digits(t)) by {
            assert(forall|p: int| 0 <= p < t.len() ==> is_digit(#[trigger] t[p]));
        }
        assert(t =~= u.take(di));
        lemma_pow10_vals();
    } else {
        assert(t[di] == 46);
        assert(all_digits(t.take(di))) by {
            assert(forall|p: int| 0 <= p < di ==> #[trigger] t.take(di)[p] == u[p]);
        }
        assert(all_digits(t.skip(di + 1))) by {
            assert(forall|p: int|
                0 <= p < flen ==> #[trigger] t.skip(di + 1)[p] == u[di + 1 + p]);
        }
        assert(dot_split(t, di));
        lemma_dot_unique(t, di);
        assert(t.take(di) =~= u.take(di));
        assert((choose|i: int| dot_split(t, i)) == di);
    }
}

/// With a clean region and nothing valid after it, the body denotes
/// nothing: the junk or malformed tail breaks every reading.
proof fn lemma_region_only(u: Seq<u8>, di: int, has_dot: bool, flen: int)
    requires
        region_clean(u, di, has_dot, flen),
        region_end(di, has_dot, flen) <= u.len(),
    ensures
        forall|j: int| #[trigger] e_split(u, j) ==> j >= region_end(di, has_dot, flen),
{
    let m = region_end(di, has_dot, flen);
    assert forall|j: int| #[trigger] e_split(u, j) implies j >= m by {
        if j < m {
            assert(!is_digit(u[j]) && u[j] != 46);
            if j < di {
                assert(is_digit(u[j]));
            } else if has_dot && j == di {
                assert(u[j] == 46);
            } else {
                assert(is_digit(u[j]));
            }
        }
    }
}

/// A fourth fraction digit is finer than the precision: nothing parses.
proof fn lemma_reject_long_fraction(u: Seq<u8>, di: int)
    requires
        region_clean(u, di, true, 3),
        di + 4 < u.len(),
        is_digit(u[di + 4]),
    ensures
        body_value(u) is None,
{
    assert(all_digits(u.take(di))) by {
        assert(forall|p: int| 0 <= p < di ==> #[trigger] u.take(di)[p] == u[p]);
    }
    lemma_dot_unique(u, di);
    assert(forall|i: int| !#[trigger] dot_split(u, i));
    assert(!mant_shape(u));
    assert forall|j: int| !#[trigger] e_split(u, j) by {
        if e_split(u, j) {
            lemma_region_only(u, di, true, 3);
            assert(j >= di + 4);
            if j == di + 4 {
                assert(is_digit(u[j]) && !is_exp_mark(u[j]));
            } else {
                let t = u.take(j);
                assert(forall|p: int| 0 <= p < j ==> #[trigger] t[p] == u[p]);
                assert(!is_digit(t[di]));
                assert(all_digits(t.take(di))) by {
                    assert(forall|p: int|
                        0 <= p < di ==> #[trigger] t.take(di)[p] == u[p]);
                }
                lemma_dot_unique(t, di);
                assert(!dot_split(t, di));
            }
        }
    }
}

/// A mantissa without any digit denotes nothing.
proof fn lemma_reject_empty_mantissa(u: Seq<u8>, has_dot: bool)
    requires
        !has_dot ==> u.len() == 0 || (!is_digit(u[0]) && u[0] != 46),
        has_dot ==> u.len() >= 1 && u[0] == 46 && (u.len() == 1 || !is_digit(u[1])),
    ensures
        body_value(u) is None,
{
    assert(!mant_shape(u)) by {
        if u.len() >= 1 && all_digits(u) {
            assert(is_digit(u[0]));
        }
        assert forall|i: int| !#[trigger] dot_split(u, i) by {
            if dot_split(u, i) {
                if has_dot {
                    lemma_dot_unique(u, 0);
                    assert(i == 0);
                    assert(is_digit(u.skip(1)[0]));
                } else if i == 0 {
                    assert(u[0] == 46);
                } else {
                    assert(is_digit(u.take(i)[0]));
                }
            }
        }
    }
    assert forall|j: int| !#[trigger] e_split(u, j) by {
        if e_split(u, j) {
            let t = u.take(j);
            assert(forall|p: int| 0 <= p < j ==> #[trigger] t[p] == u[p]);
            if j == 0 {
                assert(!mant_shape(t)) by {
                    assert(t.len() == 0);
                    assert(forall|i: int| !#[trigger] dot_split(t, i));
                }
            } else if !has_dot {
                if j > 0 {
                    assert(!mant_shape(t)) by {
                        assert(!is_digit(t[0]) && t[0] != 46);
                        assert forall|i: int| !#[trigger] dot_split(t, i) by {
                            if dot_split(t, i) {
                                if i == 0 {
                                } else {
                                    assert(is_digit(t.take(i)[0]));
                                }
                            }
                        }
                    }
                }
            } else {
                // the body starts with the point and no digit follows it
                if j == 1 {
                    assert(!mant_shape(t)) by {
                        assert(t.len() == 1 && t[0] == 46);
                        assert(!all_digits(t));
                        assert(forall|i: int| !#[trigger] dot_split(t, i));
                    }
                } else {
                    assert(u.len() > 2 && !is_digit(u[1]));
                    assert(!mant_shape(t)) by {
                        assert(!is_digit(t[0]) && t[0] == 46);
                        assert(!all_digits(t));
                        assert forall|i: int| !#[trigger] dot_split(t, i) by {
                            if dot_split(t, i) {
                                lemma_dot_unique(t, 0);
                                assert(i == 0);
                                assert(is_digit(t.skip(1)[0]));
                            }
                        }
                    }
                }
            }
        }
    }
}

/// A character that is no digit, no point in place, and no exponent mark
/// ends every reading.
proof fn lemma_reject_junk(u: Seq<u8>, di: int, has_dot: bool, flen: int)
    requires
        region_clean(u, di, has_dot, flen),
        region_end(di, has_dot, flen) < u.len(),
        !is_digit(u[region_end(di, has_dot, flen)]),
        !is_exp_mark(u[region_end(di, has_dot, flen)]),
        !has_dot ==> u[region_end(di, has_dot, flen)] != 46,
    ensures
        body_value(u) is None,
{
    let ke = region_end(di, has_dot, flen);
    assert(!mant_shape(u)) by {
        assert(!is_digit(u[ke]));
        assert forall|i: int| !#[trigger] dot_split(u, i) by {
            if dot_split(u, i) {
                if has_dot {
                    assert(all_digits(u.take(di))) by {
                        assert(forall|p: int|
                            0 <= p < di ==> #[trigger] u.take(di)[p] == u[p]);
                    }
                    lemma_dot_unique(u, di);
                    assert(i == di);
                    assert(is_digit(u.skip(di + 1)[ke - di - 1]));
                } else {
                    if i < ke {
                        assert(is_digit(u[i]));
                    } else if i == ke {
                    } else {
                        assert(is_digit(u.take(i)[ke]));
                    }
                }
            }
        }
    }
    assert forall|j: int| !#[trigger] e_split(u, j) by {
        if e_split(u, j) {
            lemma_region_only(u, di, has_dot, flen);
            assert(j >= ke);
            if j > ke {
                let t = u.take(j);
                assert(forall|p: int| 0 <= p < j ==> #[trigger] t[p] == u[p]);
                assert(!mant_shape(t)) by {
                    assert(!is_digit(t[ke]));
                    assert forall|i: int| !#[trigger] dot_split(t, i) by {
                        if dot_split(t, i) {
                            if has_dot {
                                assert(all_digits(t.take(di))) by {
                                    assert(forall|p: int|
                                        0 <= p < di ==> #[trigger] t.take(di)[p] == u[p]);
                                }
                                lemma_dot_unique(t, di);
                                assert(i == di);
                                assert(is_digit(t.skip(di + 1)[ke - di - 1]));
                            } else {
                                if i < ke {
                                    assert(is_digit(u[i]));
                                } else if i == ke {
                                    assert(t[ke] != 46);
                                } else {
                                    assert(is_digit(t.take(i)[ke]));
                                }
                            }
                        }
                    }
                }
            }
        }
    }
}

/// An exponent mark whose tail is no well-formed exponent ends every
/// reading.
proof fn lemma_reject_bad_exponent(
    u: Seq<u8>,
    di: int,
    has_dot: bool,
    flen: int,
    es: int,
    me: int,
)
    requires
        region_clean(u, di, has_dot, flen),
        region_end(di, has_dot, flen) < u.len(),
        is_exp_mark(u[region_end(di, has_dot, flen)]),
        es == region_end(di, has_dot, flen) + 1 || es == region_end(di, has_dot, flen) + 2,
        es == region_end(di, has_dot, flen) + 2 ==> region_end(di, has_dot, flen) + 1 < u.len()
            && (u[region_end(di, has_dot, flen) + 1] == 43 || u[region_end(di, has_dot, flen) + 1]
            == 45),
        es == region_end(di, has_dot, flen) + 1 ==> (es >= u.len() || (u[es] != 43 && u[es]
            != 45)),
        es <= me <= u.len(),
        forall|p: int| es <= p < me ==> is_digit(#[trigger] u[p]),
        me < u.len() ==> !is_digit(u[me]),
        me < u.len() || me == es,
    ensures
        body_value(u) is None,
{
    let ke = region_end(di, has_dot, flen);
    lemma_mant_no_mark(u, ke);
    assert forall|j: int| !#[trigger] e_split(u, j) by {
        if e_split(u, j) {
            lemma_region_only(u, di, has_dot, flen);
            assert(j >= ke);
            if j > ke {
                let t = u.take(j);
                assert(t[ke] == u[ke]);
                lemma_mant_no_mark(t, ke);
            } else {
                // the split is at the mark; its tail must be an exponent
                let r = u.skip(ke + 1);
                assert(forall|p: int| 0 <= p < r.len() ==> #[trigger] r[p] == u[ke + 1 + p]);
                let d = if r.len() > 0 && (r[0] == 43 || r[0] == 45) {
                    r.skip(1)
                } else {
                    r
                };
                assert(d =~= u.skip(es));
                assert(forall|p: int|
                    0 <= p < d.len() ==> #[trigger] d[p] == u[es + p]);
                if me == es {
                    assert(d.len() == 0 || !is_digit(d[0]));
                } else {
                    assert(!is_digit(d[me - es]));
                }
                assert(!exp_shape(r));
            }
        }
    }
}

/// A well-formed exponent tail: the split is at the mark and nowhere else,
/// and the exponent's magnitude is its digits' value.
proof fn lemma_accept_exponent(u: Seq<u8>, di: int, has_dot: bool, flen: int, es: int)
    requires
        region_clean(u, di, has_dot, flen),
        region_end(di, has_dot, flen) < u.len(),
        di > 0 || flen > 0,
        is_exp_mark(u[region_end(di, has_dot, flen)]),
        es == region_end(di, has_dot, flen) + 1 || es == region_end(di, has_dot, flen) + 2,
        es == region_end(di, has_dot, flen) + 2 ==> region_end(di, has_dot, flen) + 1 < u.len()
            && (u[region_end(di, has_dot, flen) + 1] == 43 || u[region_end(di, has_dot, flen) + 1]
            == 45),
        es == region_end(di, has_dot, flen) + 1 ==> (es >= u.len() || (u[es] != 43 && u[es]
            != 45)),
        es < u.len(),
        forall|p: int| es <= p < u.len() ==> is_digit(#[trigger] u[p]),
    ensures
        e_split(u, region_end(di, has_dot, flen)),
        (choose|j: int| e_split(u, j)) == region_end(di, has_dot, flen),
        !mant_shape(u),
        exp_mag(u.skip(region_end(di, has_dot, flen) + 1)) == digits_value(u.skip(es)),
        exp_val(u.skip(region_end(di, has_dot, flen) + 1)) == (if es == region_end(
            di,
            has_dot,
            flen,
        ) + 2 && u[region_end(di, has_dot, flen) + 1] == 45 {
            -digits_value(u.skip(es))
        } else {
            digits_value(u.skip(es))
        }),
{
    let ke = region_end(di, has_dot, flen);
    lemma_region_mant_shape(u, di, has_dot, flen, ke);
    let r = u.skip(ke + 1);
    assert(forall|p: int| 0 <= p < r.len() ==> #[trigger] r[p] == u[ke + 1 + p]);
    let d = if r.len() > 0 && (r[0] == 43 || r[0] == 45) {
        r.skip(1)
    } else {
        r
    };
    assert(d =~= u.skip(es));
    assert(all_digits(d)) by {
        assert(forall|p: int| 0 <= p < d.len() ==> #[trigger] d[p] == u[es + p]);
    }
    assert(exp_shape(r));
    assert(e_split(u, ke));
    lemma_e_unique(u, ke);
    let cj = choose|j: int| e_split(u, j);
    assert(e_split(u, cj));
}

/// A body that is all mantissa: it parses as one, with no exponent split.
proof fn lemma_accept_plain(u: Seq<u8>, di: int, has_dot: bool, flen: int)
    requires
        region_clean(u, di, has_dot, flen),
        region_end(di, has_dot, flen) == u.len(),
        di > 0 || flen > 0,
    ensures
        mant_shape(u),
        forall|j: int| !#[trigger] e_split(u, j),
        int_part_of(u) == digits_value(u.take(di)),
        flen_of(u) == flen,
        has_dot ==> mant_of(u) == digits_value(u.take(di)) * pow10(flen as nat) + digits_value(
            u.skip(di + 1),
        ),
        !has_dot ==> mant_of(u) == digits_value(u.take(di)),
{
    lemma_region_mant_shape(u, di, has_dot, flen, u.len() as int);
    assert(u.take(u.len() as int) =~= u);
    if has_dot {
        assert(u.take(u.len() as int).skip(di + 1) =~= u.skip(di + 1));
    }
    assert forall|j: int| !#[trigger] e_split(u, j) by {
        if e_split(u, j) {
            lemma_region_only(u, di, has_dot, flen);
        }
    }
}

/// A positive mantissa scaled up by ten or more places, or one above the
/// magnitude cap, exceeds the accepted range.
proof fn lemma_scaled_too_big(mant: int, e: int)
    requires
        mant >= 1,
        e >= 0,
        e > 9 || mant > 1000000000,
    ensures
        scaled(mant, e) is None,
{
    lemma_pow10_vals();
    lemma_pow10_pos(e as nat);
    if e > 9 {
        lemma_pow10_mono(10, e as nat);
        assert(mant * pow10(e as nat) >= pow10(e as nat)) by (nonlinear_arith)
            requires
                mant >= 1,
                pow10(e as nat) >= 1,
        ;
    } else {
        assert(mant * pow10(e as nat) >= mant) by (nonlinear_arith)
            requires
                mant >= 1,
                pow10(e as nat) >= 1,
        ;
    }
}

/// A positive mantissa (below `10^16`) scaled down by seventeen or more
/// places is no whole number of units.
proof fn lemma_scaled_too_small(mant: int, e: int)
    requires
        1 <= mant < 10000000000000000,
        e < -16,
    ensures
        scaled(mant, e) is None,
{
    lemma_pow10_vals();
    lemma_pow10_mono(17, (-e) as nat);
    lemma_small_mod(mant as nat, pow10((-e) as nat) as nat);
}

} // verus!
