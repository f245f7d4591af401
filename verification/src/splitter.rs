//! Splitting a text at a separator that stands outside quotes and brackets.
use vstd::prelude::*;
use crate::text::{trim, trimmed, lemma_trimmed_len};

verus! {

pub open spec fn is_opening(c: char) -> bool {
    c == '(' || c == '[' || c == '{'
}

pub open spec fn is_closing(c: char) -> bool {
    c == ')' || c == ']' || c == '}'
}

/// Where a left-to-right reading of a text stands.
pub struct ScanState {
    /// How many brackets are open.
    pub depth: int,
    /// Inside a single-quoted string.
    pub in_single: bool,
    /// Inside a double-quoted string.
    pub in_double: bool,
    /// The previous character was a backslash that escapes this one.
    pub escape_next: bool,
    /// The characters read since the last separator.
    pub current: Seq<char>,
    /// The pieces closed by a separator so far.
    pub parts: Seq<Seq<char>>,
    /// The index of a closing bracket that had no opening one, where the
    /// reading stopped.
    pub unexpected_close: Option<int>,
}

pub open spec fn scan_start() -> ScanState {
    ScanState {
        depth: 0,
        in_single: false,
        in_double: false,
        escape_next: false,
        current: Seq::empty(),
        parts: Seq::empty(),
        unexpected_close: None,
    }
}

/// Reads character `c`, found at index `index`.
pub open spec fn scan_step(st: ScanState, c: char, separator: char, index: int) -> ScanState {
    if st.escape_next {
        ScanState { current: st.current.push(c), escape_next: false, ..st }
    } else if c == '\\' {
        ScanState { current: st.current.push(c), escape_next: true, ..st }
    } else if c == '\'' && !st.in_double {
        ScanState { current: st.current.push(c), in_single: !st.in_single, ..st }
    } else if c == '"' && !st.in_single {
        ScanState { current: st.current.push(c), in_double: !st.in_double, ..st }
    } else if st.in_single || st.in_double {
        ScanState { current: st.current.push(c), ..st }
    } else if is_opening(c) {
        ScanState { current: st.current.push(c), depth: st.depth + 1, ..st }
    } else if is_closing(c) {
        if st.depth - 1 < 0 {
            ScanState { depth: st.depth - 1, unexpected_close: Some(index), ..st }
        } else {
            ScanState { current: st.current.push(c), depth: st.depth - 1, ..st }
        }
    } else if c == separator && st.depth == 0 {
        ScanState { parts: st.parts.push(st.current), current: Seq::empty(), ..st }
    } else {
        ScanState { current: st.current.push(c), ..st }
    }
}

/// The state after reading the first `n` characters; reading stops at an
/// unexpected closing bracket.
pub open spec fn scan_prefix(text: Seq<char>, separator: char, n: int) -> ScanState
    decreases n,
{
    if n <= 0 {
        scan_start()
    } else {
        let prev = scan_prefix(text, separator, n - 1);
        if prev.unexpected_close is Some {
            prev
        } else {
            scan_step(prev, text[n - 1], separator, n - 1)
        }
    }
}

/// The state after reading the whole text.
pub open spec fn scan_text(text: Seq<char>, separator: char) -> ScanState {
    scan_prefix(text, separator, text.len() as int)
}

/// Why a text could not be split.
#[derive(Debug, PartialEq, Eq, Structural)]
pub enum SplitError {
    UnexpectedClosingBracket,
    UnclosedBracket,
    UnclosedString,
    TrailingEscape,
}

/// The error of a finished reading, if any, in the order the checks run.
pub open spec fn scan_error(st: ScanState) -> Option<SplitError> {
    if st.unexpected_close is Some {
        Some(SplitError::UnexpectedClosingBracket)
    } else if st.depth != 0 {
        Some(SplitError::UnclosedBracket)
    } else if st.in_single || st.in_double {
        Some(SplitError::UnclosedString)
    } else if st.escape_next {
        Some(SplitError::TrailingEscape)
    } else {
        None
    }
}

/// The pieces of `text` between top-level separators, each trimmed; none
/// for a blank text.
pub open spec fn split_spec(text: Seq<char>, separator: char) -> Result<Seq<Seq<char>>, SplitError> {
    if trimmed(text).len() == 0 {
        Ok(Seq::empty())
    } else {
        let st = scan_text(text, separator);
        match scan_error(st) {
            Some(e) => Err(e),
            None => Ok(st.parts.push(st.current).map_values(|p: Seq<char>| trimmed(p))),
        }
    }
}

/// The lemma that once reading stops, it stays stopped.
pub proof fn lemma_scan_stopped(text: Seq<char>, separator: char, m: int, n: int)
    requires
        0 <= m <= n,
        scan_prefix(text, separator, m).unexpected_close is Some,
    ensures
        scan_prefix(text, separator, n) == scan_prefix(text, separator, m),
    decreases n - m,
{
    if n > m {
        lemma_scan_stopped(text, separator, m, n - 1);
    }
}

/// The lemma that no piece is longer than the text read.
pub proof fn lemma_scan_bounded(text: Seq<char>, separator: char, n: int)
    requires
        0 <= n,
    ensures
        scan_prefix(text, separator, n).current.len() <= n,
        forall|k: int|
            0 <= k < scan_prefix(text, separator, n).parts.len() ==> #[trigger] scan_prefix(
                text,
                separator,
                n,
            ).parts[k].len() <= n,
        scan_prefix(text, separator, n).depth >= -1,
        scan_prefix(text, separator, n).depth <= n,
        scan_prefix(text, separator, n).parts.len() <= n,
        scan_prefix(text, separator, n).unexpected_close is None ==> scan_prefix(
            text,
            separator,
            n,
        ).depth >= 0,
    decreases n,
{
    if n > 0 {
        lemma_scan_bounded(text, separator, n - 1);
    }
}

/// The lemma that each piece of a split is no longer than the text.
pub proof fn lemma_split_bounded(text: Seq<char>, separator: char)
    ensures
        split_spec(text, separator) matches Ok(pieces) ==> forall|k: int|
            0 <= k < pieces.len() ==> #[trigger] pieces[k].len() <= text.len(),
{
    lemma_scan_bounded(text, separator, text.len() as int);
    let st = scan_text(text, separator);
    if trimmed(text).len() != 0 && scan_error(st) is None {
        let all = st.parts.push(st.current);
        assert forall|k: int| 0 <= k < all.len() implies #[trigger] trimmed(all[k]).len()
            <= text.len() by {
            lemma_trimmed_len(all[k]);
        }
    }
}

/// A reading of a text, as `scan_text` describes it.
pub struct Scanned {
    pub depth: usize,
    pub in_single: bool,
    pub in_double: bool,
    pub escape_next: bool,
    pub current: Vec<char>,
    pub parts: Vec<Vec<char>>,
    pub unexpected_close: Option<usize>,
}

pub open spec fn pieces_model(parts: Seq<Vec<char>>) -> Seq<Seq<char>> {
    parts.map_values(|p: Vec<char>| p@)
}

/// The lemma that modelling pieces agrees with pushing.
pub proof fn lemma_pieces_push(parts: Seq<Vec<char>>, x: Vec<char>)
    ensures
        pieces_model(parts.push(x)) == pieces_model(parts).push(x@),
{
    assert(pieces_model(parts.push(x)) =~= pieces_model(parts).push(x@));
}

impl Scanned {
    /// Whether this reading is the state `st`.
    pub open spec fn is(self, st: ScanState) -> bool {
        &&& st.unexpected_close is None ==> self.depth as int == st.depth
        &&& self.in_single == st.in_single
        &&& self.in_double == st.in_double
        &&& self.escape_next == st.escape_next
        &&& self.current@ == st.current
        &&& pieces_model(self.parts@) == st.parts
        &&& match self.unexpected_close {
            Some(i) => st.unexpected_close == Some(i as int),
            None => st.unexpected_close is None,
        }
    }
}

/// Reads `text` left to right, splitting at `separator` where it stands
/// outside quotes and brackets.
pub fn scan_top_level(text: &Vec<char>, separator: char) -> (res: Scanned)
    ensures
        res.is(scan_text(text@, separator)),
{
    let n = text.len();
    let mut st = Scanned {
        depth: 0,
        in_single: false,
        in_double: false,
        escape_next: false,
        current: Vec::new(),
        parts: Vec::new(),
        unexpected_close: None,
    };
    let mut i: usize = 0;
    proof {
        assert(pieces_model(st.parts@) =~= Seq::<Seq<char>>::empty());
    }
    while i < n
        invariant
            i <= n,
            n == text@.len(),
            st.is(scan_prefix(text@, separator, i as int)),
            st.unexpected_close is None,
            st.depth <= i,
        decreases n - i,
    {
        let ghost before = scan_prefix(text@, separator, i as int);
        proof {
            lemma_scan_bounded(text@, separator, i as int);
            assert(scan_prefix(text@, separator, i + 1) == scan_step(
                before,
                text@[i as int],
                separator,
                i as int,
            ));
        }
        let c = text[i];
        if st.escape_next {
            st.current.push(c);
            st.escape_next = false;
        } else if c == '\\' {
            st.current.push(c);
            st.escape_next = true;
        } else if c == '\'' && !st.in_double {
            st.in_single = !st.in_single;
            st.current.push(c);
        } else if c == '"' && !st.in_single {
            st.in_double = !st.in_double;
            st.current.push(c);
        } else if st.in_single || st.in_double {
            st.current.push(c);
        } else if c == '(' || c == '[' || c == '{' {
            st.depth = st.depth + 1;
            st.current.push(c);
        } else if c == ')' || c == ']' || c == '}' {
            if st.depth == 0 {
                st.unexpected_close = Some(i);
                proof {
                    lemma_scan_stopped(text@, separator, i + 1, n as int);
                }
                return st;
            }
            st.depth = st.depth - 1;
            st.current.push(c);
        } else if c == separator && st.depth == 0 {
            let mut piece: Vec<char> = Vec::new();
            std::mem::swap(&mut piece, &mut st.current);
            st.parts.push(piece);
            proof {
                assert(pieces_model(st.parts@) =~= before.parts.push(before.current));
            }
        } else {
            st.current.push(c);
        }
        i += 1;
    }
    st
}

/// The pieces of `text` between top-level separators, each trimmed (none
/// for a blank text), or why the text does not split.
pub fn split_top_level(text: &Vec<char>, separator: char) -> (res: Result<Vec<Vec<char>>, SplitError>)
    ensures
        match res {
            Ok(pieces) => split_spec(text@, separator) == Ok::<Seq<Seq<char>>, SplitError>(
                pieces_model(pieces@),
            ),
            Err(e) => split_spec(text@, separator) == Err::<Seq<Seq<char>>, SplitError>(e),
        },
{
    if trim(text).len() == 0 {
        let res: Vec<Vec<char>> = Vec::new();
        proof {
            assert(pieces_model(res@) =~= Seq::<Seq<char>>::empty());
        }
        return Ok(res);
    }
    let st = scan_top_level(text, separator);
    if st.unexpected_close.is_some() {
        return Err(SplitError::UnexpectedClosingBracket);
    }
    if st.depth != 0 {
        return Err(SplitError::UnclosedBracket);
    }
    if st.in_single || st.in_double {
        return Err(SplitError::UnclosedString);
    }
    if st.escape_next {
        return Err(SplitError::TrailingEscape);
    }
    let ghost all = scan_text(text@, separator).parts.push(scan_text(text@, separator).current);
    let mut pieces: Vec<Vec<char>> = Vec::new();
    let mut k: usize = 0;
    while k < st.parts.len()
        invariant
            k <= st.parts@.len(),
            all.len() == st.parts@.len() + 1,
            forall|j: int| 0 <= j < st.parts@.len() ==> #[trigger] all[j] == st.parts@[j]@,
            all.last() == st.current@,
            pieces_model(pieces@) == all.take(k as int).map_values(|p: Seq<char>| trimmed(p)),
        decreases st.parts.len() - k,
    {
        let ghost prev = pieces@;
        let piece = trim(&st.parts[k]);
        pieces.push(piece);
        proof {
            let m = pieces_model(pieces@);
            let t = all.take(k + 1).map_values(|p: Seq<char>| trimmed(p));
            assert(pieces@ == prev.push(piece));
            assert(pieces_model(prev).len() == prev.len());
            assert(all.take(k as int).map_values(|p: Seq<char>| trimmed(p)).len() == k);
            assert(m.len() == prev.len() + 1);
            assert forall|j: int| 0 <= j < t.len() implies m[j] == t[j] by {
                if j < k {
                    assert(m[j] == pieces_model(prev)[j]);
                    assert(pieces_model(prev)[j] == all.take(k as int).map_values(
                        |p: Seq<char>| trimmed(p),
                    )[j]);
                } else {
                    assert(all[j] == st.parts@[j]@);
                }
            }
            assert(m =~= t);
        }
        k += 1;
    }
    let ghost prev = pieces@;
    let last = trim(&st.current);
    pieces.push(last);
    proof {
        let m = pieces_model(pieces@);
        let t = all.map_values(|p: Seq<char>| trimmed(p));
        assert(pieces@ == prev.push(last));
        assert(pieces_model(prev).len() == prev.len());
        assert(all.take(st.parts@.len() as int).map_values(|p: Seq<char>| trimmed(p)).len() == st.parts@.len());
        assert(m.len() == prev.len() + 1);
        assert(all.take(st.parts@.len() as int).map_values(|p: Seq<char>| trimmed(p)) == pieces_model(prev));
        assert forall|j: int| 0 <= j < t.len() implies m[j] == t[j] by {
            if j < st.parts@.len() {
                assert(m[j] == pieces_model(prev)[j]);
                assert(all.take(st.parts@.len() as int)[j] == all[j]);
            }
        }
        assert(m =~= t);
    }
    Ok(pieces)
}

} // verus!
