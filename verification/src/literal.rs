//! Literal arguments: which texts are booleans and which are numbers.
use vstd::prelude::*;
use crate::value::{all_digits, unsigned_part};

verus! {

/// A decimal digit.
pub open spec fn is_digit(c: char) -> bool {
    '0' <= c <= '9'
}

/// The ASCII lower-case form of a character.
pub open spec fn ascii_lower(c: char) -> char {
    if 'A' <= c <= 'Z' {
        ((c as int) + 32) as char
    } else {
        c
    }
}

/// A text in ASCII lower case.
pub open spec fn lowered(s: Seq<char>) -> Seq<char> {
    s.map_values(|c: char| ascii_lower(c))
}

/// How many decimal digits a text starts with.
pub open spec fn leading_digits(s: Seq<char>) -> nat
    decreases s.len(),
{
    if s.len() > 0 && is_digit(s[0]) {
        1 + leading_digits(s.drop_first())
    } else {
        0
    }
}

/// An exponent: `e` or `E`, an optional sign, and at least one digit.
pub open spec fn is_exponent(e: Seq<char>) -> bool {
    &&& e.len() >= 2
    &&& ascii_lower(e[0]) == 'e'
    &&& {
        let digits = if e[1] == '+' || e[1] == '-' {
            e.skip(2)
        } else {
            e.skip(1)
        };
        digits.len() > 0 && all_digits(digits)
    }
}

/// A decimal mantissa (digits, a point, digits, with at least one digit in
/// all) followed by an optional exponent.
pub open spec fn is_decimal_number(u: Seq<char>) -> bool {
    let a = leading_digits(u);
    let rest = u.skip(a as int);
    if rest.len() > 0 && rest[0] == '.' {
        let fraction = rest.drop_first();
        let b = leading_digits(fraction);
        let after = fraction.skip(b as int);
        a + b >= 1 && (after.len() == 0 || is_exponent(after))
    } else {
        a >= 1 && (rest.len() == 0 || is_exponent(rest))
    }
}

/// The texts that Rust's `f64` parser accepts, per its documented grammar:
/// an optional sign, then `inf`, `infinity`, `nan` (in any case) or a
/// decimal number.
pub open spec fn is_float_text(t: Seq<char>) -> bool {
    let u = unsigned_part(t);
    ||| lowered(u) == "inf"@
    ||| lowered(u) == "infinity"@
    ||| lowered(u) == "nan"@
    ||| is_decimal_number(u)
}

/// The texts that Rust's `bool` parser accepts, with the value each stands for.
pub open spec fn bool_text(t: Seq<char>) -> Option<bool> {
    if t == "true"@ {
        Some(true)
    } else if t == "false"@ {
        Some(false)
    } else {
        None
    }
}

fn lower_char(c: char) -> (res: char)
    ensures
        res == ascii_lower(c),
{
    if 'A' <= c && c <= 'Z' {
        ((c as u8) + 32) as char
    } else {
        c
    }
}

/// Whether `v[from..]` in lower case is `word`.
pub(crate) fn lowered_tail_is(v: &Vec<char>, from: usize, word: &Vec<char>) -> (res: bool)
    requires
        from <= v@.len(),
    ensures
        res == (lowered(v@.skip(from as int)) == word@),
{
    let n = v.len();
    if n - from != word.len() {
        proof {
            assert(lowered(v@.skip(from as int)).len() == n - from);
        }
        return false;
    }
    let mut i: usize = 0;
    while i < word.len()
        invariant
            i <= word@.len(),
            word@.len() == n - from,
            n == v@.len(),
            from <= n,
            forall|j: int| 0 <= j < i ==> ascii_lower(v@[from + j]) == word@[j],
        decreases word.len() - i,
    {
        if lower_char(v[from + i]) != word[i] {
            proof {
                assert(lowered(v@.skip(from as int))[i as int] != word@[i as int]);
            }
            return false;
        }
        i += 1;
    }
    proof {
        assert(lowered(v@.skip(from as int)) =~= word@);
    }
    true
}

/// `from` plus the number of digits that `v[from..]` starts with.
pub(crate) fn skip_digits(v: &Vec<char>, from: usize) -> (res: usize)
    requires
        from <= v@.len(),
    ensures
        res == from + leading_digits(v@.skip(from as int)),
        res <= v@.len(),
{
    let mut i = from;
    while i < v.len() && '0' <= v[i] && v[i] <= '9'
        invariant
            from <= i <= v@.len(),
            leading_digits(v@.skip(from as int)) == (i - from) + leading_digits(v@.skip(i as int)),
        decreases v.len() - i,
    {
        proof {
            assert(v@.skip(i as int).drop_first() =~= v@.skip(i + 1));
        }
        i += 1;
    }
    i
}

/// Whether `v[from..]` is an exponent.
pub(crate) fn exponent_at(v: &Vec<char>, from: usize) -> (res: bool)
    requires
        from <= v@.len(),
    ensures
        res == is_exponent(v@.skip(from as int)),
{
    let n = v.len();
    let ghost e = v@.skip(from as int);
    if n - from < 2 || lower_char(v[from]) != 'e' {
        return false;
    }
    let start = if v[from + 1] == '+' || v[from + 1] == '-' {
        from + 2
    } else {
        from + 1
    };
    proof {
        assert(e[1] == v@[from + 1]);
        assert(e.skip((start - from) as int) =~= v@.skip(start as int));
    }
    let end = skip_digits(v, start);
    proof {
        let d = v@.skip(start as int);
        if end == n {
            lemma_leading_digits_all(d);
        } else {
            lemma_leading_digits_stop(d);
            assert(d[(end - start) as int] == v@[end as int]);
        }
    }
    end > start && end == n
}

proof fn lemma_leading_digits_all(s: Seq<char>)
    requires
        leading_digits(s) == s.len(),
    ensures
        all_digits(s),
    decreases s.len(),
{
    if s.len() > 0 {
        lemma_leading_digits_all(s.drop_first());
        assert forall|i: int| 0 <= i < s.len() implies '0' <= #[trigger] s[i] <= '9' by {
            if i > 0 {
                assert(s[i] == s.drop_first()[i - 1]);
            }
        }
    }
}

pub proof fn lemma_leading_digits_stop(s: Seq<char>)
    ensures
        leading_digits(s) <= s.len(),
        leading_digits(s) < s.len() ==> !is_digit(s[leading_digits(s) as int]),
        forall|i: int| 0 <= i < leading_digits(s) ==> is_digit(#[trigger] s[i]),
    decreases s.len(),
{
    if s.len() > 0 && is_digit(s[0]) {
        lemma_leading_digits_stop(s.drop_first());
        assert forall|i: int| 0 <= i < leading_digits(s) implies is_digit(#[trigger] s[i]) by {
            if i > 0 {
                assert(s[i] == s.drop_first()[i - 1]);
            }
        }
    }
}

/// Whether Rust's `f64` parser accepts the text.
pub fn is_float_literal(t: &Vec<char>) -> (res: bool)
    ensures
        res == is_float_text(t@),
{
    let n = t.len();
    let start: usize = if n > 0 && (t[0] == '-' || t[0] == '+') {
        1
    } else {
        0
    };
    let ghost u = unsigned_part(t@);
    proof {
        assert(u =~= t@.skip(start as int));
    }
    if lowered_tail_is(t, start, &crate::text::chars_of("inf"))
        || lowered_tail_is(t, start, &crate::text::chars_of("infinity"))
        || lowered_tail_is(t, start, &crate::text::chars_of("nan")) {
        return true;
    }
    let a_end = skip_digits(t, start);
    let a = a_end - start;
    proof {
        assert(u.skip(a as int) =~= t@.skip(a_end as int));
    }
    if a_end < n && t[a_end] == '.' {
        let b_end = skip_digits(t, a_end + 1);
        proof {
            let rest = t@.skip(a_end as int);
            assert(rest.drop_first() =~= t@.skip(a_end + 1));
            assert(rest.drop_first().skip(b_end - a_end - 1) =~= t@.skip(b_end as int));
        }
        a + (b_end - a_end - 1) >= 1 && (b_end == n || exponent_at(t, b_end))
    } else {
        a >= 1 && (a_end == n || exponent_at(t, a_end))
    }
}

/// The boolean a text stands for, as Rust's `bool` parser reads it.
pub fn parse_bool(t: &Vec<char>) -> (res: Option<bool>)
    ensures
        res == bool_text(t@),
{
    if crate::text::same_chars(t, &crate::text::chars_of("true")) {
        Some(true)
    } else if crate::text::same_chars(t, &crate::text::chars_of("false")) {
        Some(false)
    } else {
        None
    }
}

} // verus!
