//! Names under which functions of a module are registered.
use vstd::prelude::*;
use crate::text::{append, chars_of, string_of};

verus! {

pub open spec fn is_ascii_letter(c: char) -> bool {
    ('a' <= c <= 'z') || ('A' <= c <= 'Z')
}

pub open spec fn is_ascii_digit(c: char) -> bool {
    '0' <= c <= '9'
}

/// A non-empty identifier: ASCII letters, digits and underscores, not
/// starting with a digit.
pub open spec fn valid_as_name(s: Seq<char>) -> bool {
    &&& s.len() > 0
    &&& (is_ascii_letter(s[0]) || s[0] == '_')
    &&& forall|i: int|
        1 <= i < s.len() ==> is_ascii_letter(#[trigger] s[i]) || is_ascii_digit(s[i]) || s[i] == '_'
}

/// Whether the text may name a module's namespace.
pub fn is_valid_as_name(as_name: &str) -> (res: bool)
    ensures
        res == valid_as_name(as_name@),
{
    let v = chars_of(as_name);
    if v.len() == 0 {
        return false;
    }
    let c = v[0];
    if !(('a' <= c && c <= 'z') || ('A' <= c && c <= 'Z') || c == '_') {
        return false;
    }
    let mut i: usize = 1;
    while i < v.len()
        invariant
            1 <= i <= v@.len(),
            v@ == as_name@,
            forall|j: int|
                1 <= j < i ==> is_ascii_letter(#[trigger] v@[j]) || is_ascii_digit(v@[j]) || v@[j]
                    == '_',
        decreases v.len() - i,
    {
        let d = v[i];
        if !(('a' <= d && d <= 'z') || ('A' <= d && d <= 'Z') || ('0' <= d && d <= '9') || d == '_') {
            return false;
        }
        i += 1;
    }
    true
}

/// The name under which a module's attribute is registered as a function:
/// `namespace.attribute`, or none for an attribute whose name starts with
/// an underscore.
pub open spec fn exported_name(as_name: Seq<char>, attribute: Seq<char>) -> Option<Seq<char>> {
    if attribute.len() > 0 && attribute[0] == '_' {
        None
    } else {
        Some(as_name + "."@ + attribute)
    }
}

pub fn exported_function_name(as_name: &str, attribute: &str) -> (res: Option<String>)
    ensures
        match res {
            Some(s) => exported_name(as_name@, attribute@) == Some(s@),
            None => exported_name(as_name@, attribute@) is None,
        },
{
    let a = chars_of(attribute);
    if a.len() > 0 && a[0] == '_' {
        return None;
    }
    let mut full = chars_of(as_name);
    append(&mut full, &chars_of("."));
    append(&mut full, &a);
    Some(string_of(&full))
}

} // verus!
