//! How a number prints: by the value its decimal text stands for.
use vstd::prelude::*;
use crate::literal::{
    exponent_at, is_decimal_number, is_digit, is_exponent, leading_digits, lemma_leading_digits_stop,
    lowered, lowered_tail_is, skip_digits,
};
use crate::text::{append, chars_of, decimal_digits, digit_value, spec_decimal, sub_chars};
use crate::value::{all_digits, digits_value, i64_magnitude_limit, unsigned_part};

verus! {

/// The digits before the point of a decimal number.
pub open spec fn int_part(u: Seq<char>) -> Seq<char> {
    u.take(leading_digits(u) as int)
}

/// Whether a decimal number has a point after its first digits.
pub open spec fn has_point(u: Seq<char>) -> bool {
    let r = u.skip(leading_digits(u) as int);
    r.len() > 0 && r[0] == '.'
}

/// The text after the point of a decimal number.
pub open spec fn after_point(u: Seq<char>) -> Seq<char> {
    u.skip(leading_digits(u) as int + 1)
}

/// The digits after the point of a decimal number.
pub open spec fn frac_part(u: Seq<char>) -> Seq<char> {
    if has_point(u) {
        after_point(u).take(leading_digits(after_point(u)) as int)
    } else {
        Seq::empty()
    }
}

/// The exponent of a decimal number (empty where it has none).
pub open spec fn exp_part(u: Seq<char>) -> Seq<char> {
    if has_point(u) {
        after_point(u).skip(leading_digits(after_point(u)) as int)
    } else {
        u.skip(leading_digits(u) as int)
    }
}

/// The value of an exponent: `e` or `E`, an optional sign and digits.
pub open spec fn exp_value(e: Seq<char>) -> int {
    if e.len() < 2 {
        0
    } else {
        let digits = if e[1] == '+' || e[1] == '-' {
            e.skip(2)
        } else {
            e.skip(1)
        };
        if e[1] == '-' {
            -digits_value(digits)
        } else {
            digits_value(digits) as int
        }
    }
}

/// All the digits of a decimal number, before and after the point.
pub open spec fn mantissa(u: Seq<char>) -> Seq<char> {
    int_part(u) + frac_part(u)
}

/// How many `'0'` a text starts with.
pub open spec fn leading_zeros(s: Seq<char>) -> nat
    decreases s.len(),
{
    if s.len() > 0 && s[0] == '0' {
        1 + leading_zeros(s.drop_first())
    } else {
        0
    }
}

/// How many `'0'` a text ends with.
pub open spec fn trailing_zeros(s: Seq<char>) -> nat
    decreases s.len(),
{
    if s.len() > 0 && s.last() == '0' {
        1 + trailing_zeros(s.drop_last())
    } else {
        0
    }
}

/// The digits of `m` without its leading zeros.
pub open spec fn unpadded(m: Seq<char>) -> Seq<char> {
    m.skip(leading_zeros(m) as int)
}

/// The significant digits of `m`: without leading and trailing zeros.
pub open spec fn significant(m: Seq<char>) -> Seq<char> {
    unpadded(m).take(unpadded(m).len() - trailing_zeros(unpadded(m)))
}

/// The power of ten by which the significant digits of a decimal number are
/// multiplied to give its value.
pub open spec fn scale(u: Seq<char>) -> int {
    exp_value(exp_part(u)) - frac_part(u).len() + trailing_zeros(unpadded(mantissa(u)))
}

/// `n` zero digits.
pub open spec fn zeros(n: nat) -> Seq<char> {
    Seq::new(n, |i: int| '0')
}

/// A power of ten.
pub open spec fn pow10(n: nat) -> nat
    decreases n,
{
    if n == 0 {
        1
    } else {
        10 * pow10((n - 1) as nat)
    }
}

/// How the number `digits × 10^scale` (negated where `negative`) prints:
/// a whole number as an integer, saturated into the range of `i64`; any
/// other as its digits with a point, or `0` where it is below `10^-324`,
/// which a `f64` cannot hold apart from zero.
pub open spec fn decimal_text(negative: bool, digits: Seq<char>, scale: int) -> Seq<char> {
    if digits.len() == 0 {
        seq!['0']
    } else if scale >= 0 {
        let whole = digits + zeros(scale as nat);
        let v = digits_value(whole);
        if negative && v >= i64_magnitude_limit() {
            seq!['-'] + spec_decimal(i64_magnitude_limit())
        } else if negative {
            seq!['-'] + whole
        } else if v >= i64_magnitude_limit() {
            spec_decimal((i64_magnitude_limit() - 1) as nat)
        } else {
            whole
        }
    } else {
        let k = -scale;
        let l = digits.len() as int;
        if l - k <= -324 {
            seq!['0']
        } else {
            let body = if l > k {
                digits.take(l - k) + seq!['.'] + digits.skip(l - k)
            } else {
                seq!['0', '.'] + zeros((k - l) as nat) + digits
            };
            if negative {
                seq!['-'] + body
            } else {
                body
            }
        }
    }
}

/// How a number given as text prints, by its value: a whole value as an
/// integer saturated into the range of `i64` (as a cast from `f64` to `i64`
/// gives it), so that `3.0`, `3` and `3e0` all print `3` and `-0.0` prints
/// `0`; infinities as `inf` and `-inf`; not-a-number as `NaN`; any other
/// value with its significant digits around a point (`2.50` prints `2.5`).
/// Values are taken exactly, not rounded to the nearest `f64`: a text with
/// more than 15 significant digits, or beyond the normal range of `f64`
/// (but for one below `10^-324`, which prints `0`), may print otherwise than
/// the `f64` it parses to. A text that is no number prints as it is.
pub open spec fn number_text(t: Seq<char>) -> Seq<char> {
    let u = unsigned_part(t);
    let negative = t.len() > 0 && t[0] == '-';
    if lowered(u) == "inf"@ || lowered(u) == "infinity"@ {
        if negative {
            "-inf"@
        } else {
            "inf"@
        }
    } else if lowered(u) == "nan"@ {
        "NaN"@
    } else if is_decimal_number(u) {
        decimal_text(negative, significant(mantissa(u)), scale(u))
    } else {
        t
    }
}

pub proof fn lemma_leading_zeros(s: Seq<char>, lo: int)
    requires
        0 <= lo <= s.len(),
        forall|j: int| 0 <= j < lo ==> #[trigger] s[j] == '0',
        lo == s.len() || s[lo] != '0',
    ensures
        leading_zeros(s) == lo,
    decreases lo,
{
    if lo > 0 {
        let t = s.drop_first();
        assert forall|j: int| 0 <= j < lo - 1 implies #[trigger] t[j] == '0' by {
            assert(t[j] == s[j + 1]);
        }
        if lo - 1 < t.len() {
            assert(t[lo - 1] == s[lo]);
        }
        assert(s[0] == '0');
        lemma_leading_zeros(t, lo - 1);
    }
}

proof fn lemma_trailing_zeros(s: Seq<char>, hi: int)
    requires
        0 <= hi <= s.len(),
        forall|j: int| hi <= j < s.len() ==> #[trigger] s[j] == '0',
        hi == 0 || s[hi - 1] != '0',
    ensures
        trailing_zeros(s) == s.len() - hi,
    decreases s.len() - hi,
{
    if hi < s.len() {
        let t = s.drop_last();
        assert forall|j: int| hi <= j < t.len() implies #[trigger] t[j] == '0' by {
            assert(t[j] == s[j]);
        }
        if hi > 0 {
            assert(t[hi - 1] == s[hi - 1]);
        }
        assert(s.last() == s[s.len() - 1]);
        lemma_trailing_zeros(t, hi);
    } else if s.len() > 0 {
        assert(s.last() == s[hi - 1]);
    }
}

proof fn lemma_pow10_nineteen()
    ensures
        pow10(19) == 10000000000000000000nat,
{
    reveal_with_fuel(pow10, 20);
}

proof fn lemma_pow10_monotone(a: nat, b: nat)
    requires
        a <= b,
    ensures
        pow10(a) <= pow10(b),
    decreases b,
{
    if a < b {
        lemma_pow10_monotone(a, (b - 1) as nat);
    }
}

/// A string of digits that does not start with `0` is worth at least
/// `10^(len - 1)`.
proof fn lemma_digits_lower(s: Seq<char>)
    requires
        all_digits(s),
        s.len() > 0,
        s[0] != '0',
    ensures
        digits_value(s) >= pow10((s.len() - 1) as nat),
    decreases s.len(),
{
    let p = s.drop_last();
    assert('0' <= s[s.len() - 1] <= '9');
    if s.len() == 1 {
        assert(p.len() == 0);
        assert(s.last() == s[0]);
        assert(digits_value(s) == digits_value(p) * 10 + digit_value(s.last()));
    } else {
        assert(p[0] == s[0]);
        assert forall|i: int| 0 <= i < p.len() implies '0' <= #[trigger] p[i] <= '9' by {
            assert(p[i] == s[i]);
        }
        lemma_digits_lower(p);
        let x = digits_value(p);
        let q = pow10((p.len() - 1) as nat);
        assert(x * 10 >= q * 10) by (nonlinear_arith)
            requires
                x >= q,
        ;
        assert(digits_value(s) == x * 10 + digit_value(s.last()));
    }
}

/// The value of a string of digits, or `2^63` where it is at least that.
fn saturated_value(w: &Vec<char>) -> (res: u128)
    requires
        all_digits(w@),
    ensures
        res as int == if digits_value(w@) < i64_magnitude_limit() {
            digits_value(w@) as int
        } else {
            i64_magnitude_limit() as int
        },
{
    let limit: u128 = 9223372036854775808;
    let mut acc: u128 = 0;
    let mut i: usize = 0;
    while i < w.len()
        invariant
            i <= w@.len(),
            all_digits(w@),
            limit == i64_magnitude_limit(),
            acc as int == if digits_value(w@.take(i as int)) < limit as int {
                digits_value(w@.take(i as int)) as int
            } else {
                limit as int
            },
        decreases w.len() - i,
    {
        let c = w[i];
        assert('0' <= c <= '9');
        let d = (c as u32 - '0' as u32) as u128;
        proof {
            let prev = w@.take(i as int);
            let next = w@.take(i + 1);
            assert(next.drop_last() =~= prev);
            assert(next.last() == c);
            let x = digits_value(prev);
            assert(digits_value(next) == x * 10 + digit_value(c));
            if x >= limit {
                assert(x * 10 >= limit) by (nonlinear_arith)
                    requires
                        x >= limit,
                ;
            }
        }
        let grown = acc * 10 + d;
        acc = if grown < limit { grown } else { limit };
        i += 1;
    }
    proof {
        assert(w@.take(w@.len() as int) =~= w@);
    }
    acc
}

/// `n` zero digits.
fn zero_digits(n: usize) -> (res: Vec<char>)
    ensures
        res@ == zeros(n as nat),
{
    let mut res: Vec<char> = Vec::new();
    let mut i: usize = 0;
    while i < n
        invariant
            i <= n,
            res@ == zeros(i as nat),
        decreases n - i,
    {
        res.push('0');
        i += 1;
        proof {
            assert(res@ =~= zeros(i as nat));
        }
    }
    res
}


/// Finds the parts of the decimal number `t[start..]`: its mantissa, the
/// number of digits after its point, and where its exponent starts; none
/// where it is no decimal number.
fn decimal_parts(t: &Vec<char>, start: usize) -> (res: Option<(Vec<char>, usize, usize)>)
    requires
        start <= t@.len(),
    ensures
        match res {
            Some((mant, frac_len, e_start)) => {
                let u = t@.skip(start as int);
                &&& is_decimal_number(u)
                &&& mant@ == mantissa(u)
                &&& all_digits(mant@)
                &&& frac_len == frac_part(u).len()
                &&& e_start <= t@.len()
                &&& t@.skip(e_start as int) == exp_part(u)
                &&& (e_start == t@.len() || is_exponent(t@.skip(e_start as int)))
            },
            None => !is_decimal_number(t@.skip(start as int)),
        },
{
    let n = t.len();
    let ghost u = t@.skip(start as int);
    let a_end = skip_digits(t, start);
    let ghost a = leading_digits(u);
    proof {
        assert(a_end == start + a);
        assert(u.skip(a as int) =~= t@.skip(a_end as int));
        assert(int_part(u) =~= t@.subrange(start as int, a_end as int));
        lemma_leading_digits_stop(u);
    }
    let point = a_end < n && t[a_end] == '.';
    let f_start: usize = if point {
        a_end + 1
    } else {
        a_end
    };
    let f_end = if point {
        skip_digits(t, f_start)
    } else {
        a_end
    };
    proof {
        let rest = u.skip(a as int);
        assert(has_point(u) == point);
        if point {
            assert(rest[0] == t@[a_end as int]);
            assert(rest.drop_first() =~= after_point(u));
            assert(after_point(u) =~= t@.skip(f_start as int));
            let b = leading_digits(after_point(u));
            assert(f_end == f_start + b);
            assert(after_point(u).skip(b as int) =~= t@.skip(f_end as int));
            assert(frac_part(u) =~= t@.subrange(f_start as int, f_end as int));
            lemma_leading_digits_stop(after_point(u));
        } else {
            if rest.len() > 0 {
                assert(rest[0] == t@[a_end as int]);
            }
            assert(frac_part(u) =~= t@.subrange(f_start as int, f_end as int));
        }
        assert(exp_part(u) =~= t@.skip(f_end as int));
    }
    let has_exponent = f_end < n;
    let valid = (a_end - start) + (f_end - f_start) >= 1 && (!has_exponent || exponent_at(t, f_end));
    proof {
        assert(t@.skip(f_end as int).len() == n - f_end);
        assert(valid == is_decimal_number(u));
    }
    if !valid {
        return None;
    }
    let mut mant = sub_chars(t, start, a_end);
    let fraction = sub_chars(t, f_start, f_end);
    append(&mut mant, &fraction);
    proof {
        assert(mant@ =~= mantissa(u));
        assert forall|i: int| 0 <= i < mant@.len() implies '0' <= #[trigger] mant@[i] <= '9' by {
            if i < a_end - start {
                assert(mant@[i] == u[i]);
                assert(is_digit(u[i]));
            } else {
                let j = i - (a_end - start);
                assert(mant@[i] == after_point(u)[j]);
                assert(is_digit(after_point(u)[j]));
            }
        }
    }
    Some((mant, f_end - f_start, f_end))
}

/// The significant digits of a string of digits, and how many zeros it ends
/// with once its leading zeros are gone.
fn significant_digits(mant: &Vec<char>) -> (res: (Vec<char>, usize))
    requires
        all_digits(mant@),
    ensures
        res.0@ == significant(mant@),
        res.1 == trailing_zeros(unpadded(mant@)),
        res.1 <= mant@.len(),
        all_digits(res.0@),
        res.0@.len() > 0 ==> res.0@[0] != '0',
{
    let m = mant.len();
    let mut lo: usize = 0;
    while lo < m && mant[lo] == '0'
        invariant
            lo <= m,
            m == mant@.len(),
            forall|j: int| 0 <= j < lo ==> #[trigger] mant@[j] == '0',
        decreases m - lo,
    {
        lo += 1;
    }
    let mut hi: usize = m;
    while hi > lo && mant[hi - 1] == '0'
        invariant
            lo <= hi <= m,
            m == mant@.len(),
            forall|j: int| hi <= j < m ==> #[trigger] mant@[j] == '0',
        decreases hi,
    {
        hi -= 1;
    }
    let ghost padded = mant@.skip(lo as int);
    proof {
        lemma_leading_zeros(mant@, lo as int);
        assert(unpadded(mant@) == padded);
        assert forall|j: int| hi - lo <= j < padded.len() implies #[trigger] padded[j] == '0' by {
            assert(padded[j] == mant@[j + lo]);
        }
        if hi > lo {
            assert(padded[hi - lo - 1] == mant@[hi - 1]);
        }
        lemma_trailing_zeros(padded, hi - lo);
        assert(significant(mant@) =~= mant@.subrange(lo as int, hi as int));
    }
    let sig = sub_chars(mant, lo, hi);
    proof {
        if sig@.len() > 0 {
            assert(sig@[0] == mant@[lo as int]);
        }
        assert forall|i: int| 0 <= i < sig@.len() implies '0' <= #[trigger] sig@[i] <= '9' by {
            assert(sig@[i] == mant@[lo + i]);
        }
    }
    (sig, m - hi)
}

/// The bound at which the size of an exponent is no longer counted.
pub open spec fn exponent_cap() -> int {
    1237940039285380274899124224
}

/// Reads the exponent `e` (empty, or `e`, a sign and digits): whether it is
/// negative, and its size, counted up to `exponent_cap()`.
fn exponent_magnitude(t: &Vec<char>, e_start: usize) -> (res: (bool, u128))
    requires
        e_start <= t@.len(),
        e_start == t@.len() || is_exponent(t@.skip(e_start as int)),
    ensures
        res.1 <= exponent_cap(),
        res.1 < exponent_cap() ==> exp_value(t@.skip(e_start as int)) == if res.0 {
            -res.1
        } else {
            res.1 as int
        },
        res.1 == exponent_cap() && res.0 ==> exp_value(t@.skip(e_start as int)) <= -exponent_cap(),
        res.1 == exponent_cap() && !res.0 ==> exp_value(t@.skip(e_start as int)) >= exponent_cap(),
{
    let n = t.len();
    let ghost e = t@.skip(e_start as int);
    if e_start == n {
        proof {
            assert(e.len() == 0);
        }
        return (false, 0);
    }
    let cap: u128 = 1237940039285380274899124224;
    let sign_at = e_start + 1;
    proof {
        assert(e[1] == t@[sign_at as int]);
    }
    let negative = t[sign_at] == '-';
    let digits_start = if t[sign_at] == '+' || t[sign_at] == '-' {
        sign_at + 1
    } else {
        sign_at
    };
    let ghost ds = digits_start as int;
    proof {
        let digits = if e[1] == '+' || e[1] == '-' {
            e.skip(2)
        } else {
            e.skip(1)
        };
        assert(digits =~= t@.subrange(ds, n as int));
    }
    let mut acc: u128 = 0;
    let mut i: usize = digits_start;
    while i < n
        invariant
            digits_start <= i <= n,
            n == t@.len(),
            ds == digits_start,
            all_digits(t@.subrange(ds, n as int)),
            cap == exponent_cap(),
            acc as int == if digits_value(t@.subrange(ds, i as int)) < cap as int {
                digits_value(t@.subrange(ds, i as int)) as int
            } else {
                cap as int
            },
        decreases n - i,
    {
        let c = t[i];
        proof {
            assert(t@.subrange(ds, n as int)[i - ds] == c);
        }
        let d = (c as u32 - '0' as u32) as u128;
        proof {
            let prev = t@.subrange(ds, i as int);
            let next = t@.subrange(ds, i + 1);
            assert(next.drop_last() =~= prev);
            assert(next.last() == c);
            let x = digits_value(prev);
            assert(digits_value(next) == x * 10 + digit_value(c));
            if x >= cap {
                assert(x * 10 >= cap) by (nonlinear_arith)
                    requires
                        x >= cap,
                ;
            }
        }
        let grown = acc * 10 + d;
        acc = if grown < cap { grown } else { cap };
        i += 1;
    }
    (negative, acc)
}

/// Prints `digits × 10^scale` (see `decimal_text`), given `count`: the scale
/// itself, or, where the scale is too large to count, a bound on it of the
/// same sign that is at least `2^89` in size.
fn decimal_output(negative: bool, digits: &Vec<char>, count: i128, Ghost(scale): Ghost<int>) -> (res: Vec<char>)
    requires
        all_digits(digits@),
        digits@.len() > 0,
        digits@[0] != '0',
        -1267650600228229401496703205376 <= count <= 1267650600228229401496703205376,
        count == scale || (count >= 618970019642690137449562112 && scale >= count) || (count
            <= -618970019642690137449562112 && scale <= count),
    ensures
        res@ == decimal_text(negative, digits@, scale),
{
    let l = digits.len();
    if count >= 0 {
        if (l as i128) + count >= 20 {
            proof {
                let whole = digits@ + zeros(scale as nat);
                assert(whole[0] == digits@[0]);
                assert forall|i: int| 0 <= i < whole.len() implies '0' <= #[trigger] whole[i] <= '9' by {
                    if i < digits@.len() {
                        assert(whole[i] == digits@[i]);
                    } else {
                        assert(whole[i] == '0');
                    }
                }
                lemma_digits_lower(whole);
                lemma_pow10_monotone(19, (whole.len() - 1) as nat);
                lemma_pow10_nineteen();
            }
            if negative {
                let mut res = vec!['-'];
                append(&mut res, &decimal_digits(9223372036854775808u64));
                return res;
            } else {
                return decimal_digits(9223372036854775807u64);
            }
        }
        let mut whole = sub_chars(digits, 0, l);
        append(&mut whole, &zero_digits(count as usize));
        proof {
            assert(whole@ =~= digits@ + zeros(scale as nat));
            assert forall|i: int| 0 <= i < whole@.len() implies '0' <= #[trigger] whole@[i] <= '9' by {
                if i < digits@.len() {
                    assert(whole@[i] == digits@[i]);
                } else {
                    assert(whole@[i] == '0');
                }
            }
        }
        let v = saturated_value(&whole);
        if negative && v >= 9223372036854775808 {
            let mut res = vec!['-'];
            append(&mut res, &decimal_digits(9223372036854775808u64));
            res
        } else if negative {
            let mut res = vec!['-'];
            append(&mut res, &whole);
            res
        } else if v >= 9223372036854775808 {
            decimal_digits(9223372036854775807u64)
        } else {
            whole
        }
    } else {
        let k: i128 = -count;
        if (l as i128) - k <= -324 {
            return vec!['0'];
        }
        let mut body: Vec<char>;
        if (l as i128) > k {
            let cut = ((l as i128) - k) as usize;
            body = sub_chars(digits, 0, cut);
            body.push('.');
            append(&mut body, &sub_chars(digits, cut, l));
            proof {
                assert(body@ =~= digits@.take(l - k) + seq!['.'] + digits@.skip(l - k));
            }
        } else {
            body = vec!['0', '.'];
            append(&mut body, &zero_digits((k - (l as i128)) as usize));
            append(&mut body, digits);
            proof {
                assert(body@ =~= seq!['0', '.'] + zeros((k - l) as nat) + digits@);
            }
        }
        if negative {
            let mut res = vec!['-'];
            append(&mut res, &body);
            proof {
                assert(res@ =~= seq!['-'] + body@);
            }
            res
        } else {
            body
        }
    }
}

/// Prints a number given as text, by its value (see `number_text`).
pub fn render_number(t: &Vec<char>) -> (res: Vec<char>)
    ensures
        res@ == number_text(t@),
{
    let n = t.len();
    let start: usize = if n > 0 && (t[0] == '-' || t[0] == '+') {
        1
    } else {
        0
    };
    let negative = n > 0 && t[0] == '-';
    proof {
        assert(unsigned_part(t@) =~= t@.skip(start as int));
    }
    if lowered_tail_is(t, start, &chars_of("inf")) || lowered_tail_is(t, start, &chars_of("infinity")) {
        return if negative {
            chars_of("-inf")
        } else {
            chars_of("inf")
        };
    }
    if lowered_tail_is(t, start, &chars_of("nan")) {
        return chars_of("NaN");
    }
    let (mant, frac_len, e_start) = match decimal_parts(t, start) {
        None => {
            return t.clone();
        },
        Some(parts) => parts,
    };
    let ghost u = unsigned_part(t@);
    let (sig, tz) = significant_digits(&mant);
    if sig.len() == 0 {
        return vec!['0'];
    }
    let (exp_negative, magnitude) = exponent_magnitude(t, e_start);
    let m = magnitude as i128;
    let signed_exp: i128 = if exp_negative {
        -m
    } else {
        m
    };
    let count: i128 = signed_exp - (frac_len as i128) + (tz as i128);
    proof {
        assert(tz <= mant@.len());
        assert(mant@.len() == frac_len + int_part(u).len());
    }
    decimal_output(negative, &sig, count, Ghost(scale(u)))
}

} // verus!
