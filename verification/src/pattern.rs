//! Regular-expression services from the `regex` crate: escaping a literal
//! and finding the successive matches of a pattern in a text.
use vstd::prelude::*;

verus! {

/// The characters that `regex::escape` prefixes with a backslash.
pub open spec fn is_meta_character(c: char) -> bool {
    c == '\\' || c == '.' || c == '+' || c == '*' || c == '?' || c == '(' || c == ')' || c == '|'
        || c == '[' || c == ']' || c == '{' || c == '}' || c == '^' || c == '$' || c == '#'
        || c == '&' || c == '-' || c == '~'
}

/// `text` with a backslash before every meta character.
pub open spec fn escaped(text: Seq<char>) -> Seq<char>
    decreases text.len(),
{
    if text.len() == 0 {
        Seq::empty()
    } else if is_meta_character(text.last()) {
        escaped(text.drop_last()) + seq!['\\', text.last()]
    } else {
        escaped(text.drop_last()).push(text.last())
    }
}

/// Calls `regex::escape`: every character is copied, and a backslash is put
/// before each meta character (`regex_syntax::is_meta_character`).
#[verifier::external_body]
pub(crate) fn regex_escape(text: &str) -> (res: String)
    ensures
        res@ == escaped(text@),
{
    regex::escape(text)
}

/// Whether `regex::Regex::new` accepts the pattern.
pub uninterp spec fn pattern_compiles(pattern: Seq<char>) -> bool;

/// The successive non-overlapping matches that `regex::Regex::captures_iter`
/// yields for the pattern on the text. Each match is given as the text before
/// it, the whole match, and the first and second capture groups.
pub uninterp spec fn pattern_scan(pattern: Seq<char>, text: Seq<char>) -> Seq<
    (Seq<char>, Seq<char>, Option<Seq<char>>, Option<Seq<char>>),
>;

/// One match of a pattern in a text.
pub struct Found {
    /// The whole text before the match.
    pub before: String,
    /// The matched text.
    pub whole: String,
    /// The first capture group, where it took part in the match.
    pub first: Option<String>,
    /// The second capture group, where it took part in the match.
    pub second: Option<String>,
}

pub open spec fn option_text(o: Option<String>) -> Option<Seq<char>> {
    match o {
        Some(s) => Some(s@),
        None => None,
    }
}

impl Found {
    pub open spec fn model(self) -> (Seq<char>, Seq<char>, Option<Seq<char>>, Option<Seq<char>>) {
        (self.before@, self.whole@, option_text(self.first), option_text(self.second))
    }
}

pub open spec fn found_model(found: Seq<Found>) -> Seq<
    (Seq<char>, Seq<char>, Option<Seq<char>>, Option<Seq<char>>),
> {
    found.map_values(|f: Found| f.model())
}

/// Where a match starts in the text, in characters.
pub open spec fn match_start(f: (Seq<char>, Seq<char>, Option<Seq<char>>, Option<Seq<char>>)) -> int {
    f.0.len() as int
}

/// Where a match ends in the text, in characters.
pub open spec fn match_end(f: (Seq<char>, Seq<char>, Option<Seq<char>>, Option<Seq<char>>)) -> int {
    (f.0.len() + f.1.len()) as int
}

/// Matches found left to right, each a piece of the text, none overlapping
/// the next.
pub open spec fn scan_ordered(
    text: Seq<char>,
    found: Seq<(Seq<char>, Seq<char>, Option<Seq<char>>, Option<Seq<char>>)>,
) -> bool {
    &&& forall|k: int|
        0 <= k < found.len() ==> match_end(#[trigger] found[k]) <= text.len() && text.take(
            match_end(found[k]),
        ) == found[k].0 + found[k].1
    &&& forall|k: int|
        0 <= k < found.len() - 1 ==> match_end(#[trigger] found[k]) <= match_start(found[k + 1])
}

/// Scans `text` for `pattern` with `regex::Regex::new` and
/// `regex::Regex::captures_iter`. `None` when the pattern does not compile;
/// otherwise the matches, named `pattern_scan`, which come left to right and
/// do not overlap (the crate's documentation of `captures_iter`), each with
/// the haystack before it (`Match::start`) and the matched text
/// (`Match::as_str`).
#[verifier::external_body]
pub(crate) fn scan_pattern(pattern: &str, text: &str) -> (res: Option<Vec<Found>>)
    ensures
        res is Some <==> pattern_compiles(pattern@),
        res matches Some(found) ==> found_model(found@) == pattern_scan(pattern@, text@),
        res matches Some(found) ==> scan_ordered(text@, found_model(found@)),
{
    let re = regex::Regex::new(pattern).ok()?;
    Some(re.captures_iter(text).map(|c| {
        let m = c.get_match();
        Found {
            before: text[..m.start()].to_string(),
            whole: m.as_str().to_string(),
            first: c.get(1).map(|g| g.as_str().to_string()),
            second: c.get(2).map(|g| g.as_str().to_string()),
        }
    }).collect())
}

} // verus!
