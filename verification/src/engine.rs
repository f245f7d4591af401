//! The executable renderer, which follows `render`'s model step by step.
use vstd::prelude::*;
use crate::arguments::{ArgsError, strip_quotes};
use crate::compiler::{CompilerError, Fault, PatternRole, TextCompiler, build_compiler_error, error_at};
use crate::pattern::{Found, found_model, match_end, match_start, scan_ordered, scan_pattern};
use crate::render::{Answer, Request, Stop, answers_model, args_start, calls_from, compile_text, end_before, expand_calls, expand_includes, gap, includes_from, or_empty, Outcome, compile_outcome, input_name};
use crate::splitter::pieces_model;
use crate::text::{append, chars_of, same_chars, string_of, sub_chars, trim};

verus! {

/// Why a part of the executable rendering stopped (see `Stop`).
pub enum Halt {
    Need(Request),
    Failed(CompilerError),
    Fault(Fault),
}

impl Halt {
    pub open spec fn model(self) -> Stop {
        match self {
            Halt::Need(r) => Stop::Need(r.model()),
            Halt::Failed(e) => Stop::Failed(e.model()),
            Halt::Fault(f) => Stop::Fault(f.model()),
        }
    }
}

pub open spec fn run_result(res: Result<Vec<char>, Halt>) -> Result<Seq<char>, Stop> {
    match res {
        Ok(v) => Ok(v@),
        Err(h) => Err(h.model()),
    }
}

/// Whether `x` is one of the texts of `stack`.
fn contains_text(stack: &Vec<Vec<char>>, x: &Vec<char>) -> (res: bool)
    ensures
        res == pieces_model(stack@).contains(x@),
{
    let mut i: usize = 0;
    while i < stack.len()
        invariant
            i <= stack@.len(),
            forall|j: int| 0 <= j < i ==> stack@[j]@ != x@,
        decreases stack.len() - i,
    {
        if same_chars(&stack[i], x) {
            proof {
                assert(pieces_model(stack@)[i as int] == x@);
            }
            return true;
        }
        i += 1;
    }
    proof {
        if pieces_model(stack@).contains(x@) {
            let j = choose|j: int| 0 <= j < pieces_model(stack@).len() && pieces_model(stack@)[j] == x@;
            assert(stack@[j]@ == x@);
        }
    }
    false
}

/// `stack` with `x` added on top.
fn pushed(stack: &Vec<Vec<char>>, x: Vec<char>) -> (res: Vec<Vec<char>>)
    ensures
        pieces_model(res@) == pieces_model(stack@).push(x@),
{
    let mut res: Vec<Vec<char>> = Vec::new();
    let mut i: usize = 0;
    while i < stack.len()
        invariant
            i <= stack@.len(),
            pieces_model(res@) == pieces_model(stack@).take(i as int),
        decreases stack.len() - i,
    {
        let copy = sub_chars(&stack[i], 0, stack[i].len());
        proof {
            assert(stack@[i as int]@.subrange(0, stack@[i as int]@.len() as int) =~= stack@[i as int]@);
        }
        proof {
            crate::splitter::lemma_pieces_push(res@, copy);
            assert(pieces_model(stack@).take(i + 1) =~= pieces_model(stack@).take(i as int).push(stack@[i as int]@));
        }
        res.push(copy);
        i += 1;
    }
    proof {
        crate::splitter::lemma_pieces_push(res@, x);
        assert(pieces_model(stack@).take(stack@.len() as int) =~= pieces_model(stack@));
    }
    res.push(x);
    res
}

/// The characters of an optional group, or none.
fn group_chars(g: &Option<String>) -> (res: Vec<char>)
    ensures
        res@ == or_empty(crate::pattern::option_text(*g)),
{
    match g {
        Some(s) => chars_of(s.as_str()),
        None => Vec::new(),
    }
}

/// The facts about the `k`-th match of an ordered scan that the renderer uses.
pub proof fn lemma_match_piece(
    text: Seq<char>,
    found: Seq<(Seq<char>, Seq<char>, Option<Seq<char>>, Option<Seq<char>>)>,
    k: int,
)
    requires
        scan_ordered(text, found),
        0 <= k < found.len(),
    ensures
        0 <= end_before(found, k) <= match_start(found[k]) <= match_end(found[k]) <= text.len(),
        found[k].0 == text.take(match_start(found[k])),
        gap(text, found, k) == found[k].0.subrange(end_before(found, k), match_start(found[k])),
        end_before(found, k + 1) == match_end(found[k]),
{
    let f = found[k];
    assert(match_end(f) <= text.len() && text.take(match_end(f)) == f.0 + f.1);
    assert(text.take(match_start(f)) =~= (f.0 + f.1).take(match_start(f)));
    assert((f.0 + f.1).take(match_start(f)) =~= f.0);
    if k > 0 {
        assert(match_end(found[k - 1]) <= match_start(found[k - 1 + 1]));
        let g = found[k - 1];
        assert(match_end(g) <= text.len());
    }
    assert(gap(text, found, k) =~= f.0.subrange(end_before(found, k), match_start(f)));
}

impl TextCompiler {
    /// Renders `text` with the answers from `pos` on (see `compile_text`).
    fn compile_text(
        &self,
        answers: &Vec<Answer>,
        text: &Vec<char>,
        file_name: &Vec<char>,
        stack: &Vec<Vec<char>>,
        pos: usize,
    ) -> (res: (Result<Vec<char>, Halt>, usize))
        requires
            pos <= answers@.len(),
        ensures
            pos <= res.1 <= answers@.len(),
            (run_result(res.0), res.1 as int) == compile_text(
                *self,
                answers_model(answers@),
                text@,
                file_name@,
                pieces_model(stack@),
                pos as int,
            ),
        decreases answers@.len() - pos, 1int, 0int,
    {
        let (expanded, p) = self.expand_includes(answers, text, file_name, stack, pos);
        match expanded {
            Err(h) => (Err(h), p),
            Ok(processed) => self.expand_calls(answers, &processed, file_name, p),
        }
    }

    /// Expands the includes of `text` (see `expand_includes`).
    fn expand_includes(
        &self,
        answers: &Vec<Answer>,
        text: &Vec<char>,
        file_name: &Vec<char>,
        stack: &Vec<Vec<char>>,
        pos: usize,
    ) -> (res: (Result<Vec<char>, Halt>, usize))
        requires
            pos <= answers@.len(),
        ensures
            pos <= res.1 <= answers@.len(),
            (run_result(res.0), res.1 as int) == expand_includes(
                *self,
                answers_model(answers@),
                text@,
                file_name@,
                pieces_model(stack@),
                pos as int,
            ),
        decreases answers@.len() - pos, 0int, 2int,
    {
        let pattern = self.syntax.get_include_pattern();
        match scan_pattern(pattern.as_str(), string_of(text).as_str()) {
            None => (Err(Halt::Fault(Fault::InvalidPattern { role: PatternRole::Include, pattern })), pos),
            Some(found) => self.expand_found_includes(answers, text, file_name, stack, &found, pos),
        }
    }

    /// Expands the includes of `text`, given the matches of the include
    /// pattern in it (see `includes_from`).
    pub fn expand_found_includes(
        &self,
        answers: &Vec<Answer>,
        text: &Vec<char>,
        file_name: &Vec<char>,
        stack: &Vec<Vec<char>>,
        found: &Vec<Found>,
        pos: usize,
    ) -> (res: (Result<Vec<char>, Halt>, usize))
        requires
            pos <= answers@.len(),
            scan_ordered(text@, found_model(found@)),
        ensures
            pos <= res.1 <= answers@.len(),
            (run_result(res.0), res.1 as int) == includes_from(
                *self,
                answers_model(answers@),
                text@,
                file_name@,
                pieces_model(stack@),
                found_model(found@),
                0,
                Seq::empty(),
                pos as int,
            ),
        decreases answers@.len() - pos, 0int, 1int,
    {
        let ghost log = answers_model(answers@);
        let ghost st = pieces_model(stack@);
        let ghost fm = found_model(found@);
        let ghost whole_run = includes_from(*self, log, text@, file_name@, st, fm, 0, Seq::empty(), pos as int);
        let mut out: Vec<char> = Vec::new();
        let mut k: usize = 0;
        let mut p: usize = pos;
        let mut end: usize = 0;
        while k < found.len()
            invariant
                k <= found@.len(),
                fm == found_model(found@),
                fm.len() == found@.len(),
                scan_ordered(text@, fm),
                pos <= p <= answers@.len(),
                end as int == end_before(fm, k as int),
                end <= text@.len(),
                log == answers_model(answers@),
                st == pieces_model(stack@),
                includes_from(*self, log, text@, file_name@, st, fm, k as nat, out@, p as int) == whole_run,
                whole_run == includes_from(*self, log, text@, file_name@, st, fm, 0, Seq::empty(), pos as int),
            decreases found.len() - k,
        {
            match self.include_step(answers, text, file_name, stack, found, k, &mut out, p, end) {
                Flow::Next(next_p, next_end) => {
                    p = next_p;
                    end = next_end;
                },
                Flow::Done(r, at) => {
                    return (r, at);
                },
            }
            k += 1;
        }
        let rest = sub_chars(text, end, text.len());
        append(&mut out, &rest);
        (Ok(out), p)
    }

    /// Expands the `k`-th include (see `includes_from`).
    fn include_step(
        &self,
        answers: &Vec<Answer>,
        text: &Vec<char>,
        file_name: &Vec<char>,
        stack: &Vec<Vec<char>>,
        found: &Vec<Found>,
        k: usize,
        out: &mut Vec<char>,
        p: usize,
        end: usize,
    ) -> (res: Flow)
        requires
            k < found@.len(),
            scan_ordered(text@, found_model(found@)),
            p <= answers@.len(),
            end as int == end_before(found_model(found@), k as int),
        ensures
            match res {
                Flow::Next(next_p, next_end) => p <= next_p <= answers@.len() && next_end as int
                    == end_before(found_model(found@), k + 1) && next_end <= text@.len()
                    && includes_from(
                    *self,
                    answers_model(answers@),
                    text@,
                    file_name@,
                    pieces_model(stack@),
                    found_model(found@),
                    (k + 1) as nat,
                    final(out)@,
                    next_p as int,
                ) == includes_from(
                    *self,
                    answers_model(answers@),
                    text@,
                    file_name@,
                    pieces_model(stack@),
                    found_model(found@),
                    k as nat,
                    old(out)@,
                    p as int,
                ),
                Flow::Done(r, at) => p <= at <= answers@.len() && (run_result(r), at as int)
                    == includes_from(
                    *self,
                    answers_model(answers@),
                    text@,
                    file_name@,
                    pieces_model(stack@),
                    found_model(found@),
                    k as nat,
                    old(out)@,
                    p as int,
                ),
            },
        decreases answers@.len() - p, 0int, 0int,
    {
        let ghost fm = found_model(found@);
        let ghost log = answers_model(answers@);
        proof {
            lemma_match_piece(text@, fm, k as int);
            assert(fm[k as int] == found@[k as int].model());
        }
        let before_text = chars_of(found[k].before.as_str());
        let start = before_text.len();
        let whole = chars_of(found[k].whole.as_str());
        let piece = sub_chars(&before_text, end, start);
        append(out, &piece);
        let target = strip_quotes(&trim(&group_chars(&found[k].first)));
        if p == answers.len() {
            let relative_to = if same_chars(file_name, &chars_of("<input>")) {
                None
            } else {
                Some(string_of(file_name))
            };
            return Flow::Done(Err(Halt::Need(Request::Resolve { target: string_of(&target), relative_to })), p);
        }
        proof {
            assert(log[p as int] == answers@[p as int].model());
        }
        let text_len = text.len();
        proof {
            assert(text_len == text@.len());
            assert(start as int == match_start(fm[k as int]));
            assert(whole@ == fm[k as int].1);
            assert(match_end(fm[k as int]) <= text@.len());
        }
        let next_end = start + whole.len();
        match &answers[p] {
            Answer::Resolved { path, key } => {
                let path_chars = chars_of(path.as_str());
                let key_chars = chars_of(key.as_str());
                if contains_text(stack, &key_chars) {
                    if self.debug_mode {
                        let mut message = chars_of("Circular include detected for '");
                        append(&mut message, &path_chars);
                        append(&mut message, &chars_of("'"));
                        let err = build_compiler_error(text, file_name, start, message);
                        return Flow::Done(Err(Halt::Failed(err)), p + 1);
                    }
                    append(out, &whole);
                    Flow::Next(p + 1, next_end)
                } else if p + 1 == answers.len() {
                    Flow::Done(Err(Halt::Need(Request::Read { path: path.clone() })), p + 1)
                } else {
                    proof {
                        assert(log[p + 1] == answers@[p + 1].model());
                    }
                    match &answers[p + 1] {
                        Answer::Loaded(Err(error)) => {
                            if self.debug_mode {
                                let mut message = chars_of("Include failed for '");
                                append(&mut message, &path_chars);
                                append(&mut message, &chars_of("': "));
                                append(&mut message, &chars_of(error.as_str()));
                                let err = build_compiler_error(text, file_name, start, message);
                                return Flow::Done(Err(Halt::Failed(err)), p + 2);
                            }
                            append(out, &whole);
                            Flow::Next(p + 2, next_end)
                        },
                        Answer::Loaded(Ok(content)) => {
                            let nested_stack = pushed(stack, key_chars);
                            let (nested, after) = self.compile_text(
                                answers,
                                &chars_of(content.as_str()),
                                &path_chars,
                                &nested_stack,
                                p + 2,
                            );
                            match nested {
                                Ok(v) => {
                                    append(out, &v);
                                    Flow::Next(after, next_end)
                                },
                                Err(Halt::Failed(e)) => {
                                    if self.debug_mode {
                                        return Flow::Done(Err(Halt::Failed(e)), after);
                                    }
                                    append(out, &whole);
                                    Flow::Next(after, next_end)
                                },
                                Err(h) => Flow::Done(Err(h), after),
                            }
                        },
                        _ => Flow::Done(Err(Halt::Fault(Fault::Protocol)), p + 1),
                    }
                }
            },
            _ => Flow::Done(Err(Halt::Fault(Fault::Protocol)), p),
        }
    }

    /// Replaces the function calls of `text` (see `expand_calls`).
    fn expand_calls(
        &self,
        answers: &Vec<Answer>,
        text: &Vec<char>,
        file_name: &Vec<char>,
        pos: usize,
    ) -> (res: (Result<Vec<char>, Halt>, usize))
        requires
            pos <= answers@.len(),
        ensures
            pos <= res.1 <= answers@.len(),
            (run_result(res.0), res.1 as int) == expand_calls(
                *self,
                answers_model(answers@),
                text@,
                file_name@,
                pos as int,
            ),
    {
        let pattern = self.syntax.get_function_pattern();
        match scan_pattern(pattern.as_str(), string_of(text).as_str()) {
            None => (Err(Halt::Fault(Fault::InvalidPattern { role: PatternRole::Function, pattern })), pos),
            Some(found) => self.expand_found_calls(answers, text, file_name, &found, pos),
        }
    }

    /// Replaces the function calls of `text`, given the matches of the
    /// function pattern in it (see `calls_from`).
    pub fn expand_found_calls(
        &self,
        answers: &Vec<Answer>,
        text: &Vec<char>,
        file_name: &Vec<char>,
        found: &Vec<Found>,
        pos: usize,
    ) -> (res: (Result<Vec<char>, Halt>, usize))
        requires
            pos <= answers@.len(),
            scan_ordered(text@, found_model(found@)),
        ensures
            pos <= res.1 <= answers@.len(),
            (run_result(res.0), res.1 as int) == calls_from(
                *self,
                answers_model(answers@),
                text@,
                file_name@,
                found_model(found@),
                0,
                Seq::empty(),
                pos as int,
            ),
    {
        let ghost log = answers_model(answers@);
        let ghost fm = found_model(found@);
        let ghost whole_run = calls_from(*self, log, text@, file_name@, fm, 0, Seq::empty(), pos as int);
        let mut out: Vec<char> = Vec::new();
        let mut k: usize = 0;
        let mut p: usize = pos;
        let mut end: usize = 0;
        while k < found.len()
            invariant
                k <= found@.len(),
                fm == found_model(found@),
                fm.len() == found@.len(),
                scan_ordered(text@, fm),
                pos <= p <= answers@.len(),
                end as int == end_before(fm, k as int),
                end <= text@.len(),
                log == answers_model(answers@),
                calls_from(*self, log, text@, file_name@, fm, k as nat, out@, p as int) == whole_run,
                whole_run == calls_from(*self, log, text@, file_name@, fm, 0, Seq::empty(), pos as int),
            decreases found.len() - k,
        {
            match self.call_step(answers, text, file_name, found, k, &mut out, p, end) {
                Flow::Next(next_p, next_end) => {
                    p = next_p;
                    end = next_end;
                },
                Flow::Done(r, at) => {
                    return (r, at);
                },
            }
            k += 1;
        }
        let rest = sub_chars(text, end, text.len());
        append(&mut out, &rest);
        (Ok(out), p)
    }

    /// Replaces the `k`-th function call (see `calls_from`).
    fn call_step(
        &self,
        answers: &Vec<Answer>,
        text: &Vec<char>,
        file_name: &Vec<char>,
        found: &Vec<Found>,
        k: usize,
        out: &mut Vec<char>,
        p: usize,
        end: usize,
    ) -> (res: Flow)
        requires
            k < found@.len(),
            scan_ordered(text@, found_model(found@)),
            p <= answers@.len(),
            end as int == end_before(found_model(found@), k as int),
        ensures
            match res {
                Flow::Next(next_p, next_end) => p <= next_p <= answers@.len() && next_end as int
                    == end_before(found_model(found@), k + 1) && next_end <= text@.len()
                    && calls_from(
                    *self,
                    answers_model(answers@),
                    text@,
                    file_name@,
                    found_model(found@),
                    (k + 1) as nat,
                    final(out)@,
                    next_p as int,
                ) == calls_from(
                    *self,
                    answers_model(answers@),
                    text@,
                    file_name@,
                    found_model(found@),
                    k as nat,
                    old(out)@,
                    p as int,
                ),
                Flow::Done(r, at) => p <= at <= answers@.len() && (run_result(r), at as int)
                    == calls_from(
                    *self,
                    answers_model(answers@),
                    text@,
                    file_name@,
                    found_model(found@),
                    k as nat,
                    old(out)@,
                    p as int,
                ),
            },
    {
        let ghost fm = found_model(found@);
        let ghost log = answers_model(answers@);
        proof {
            lemma_match_piece(text@, fm, k as int);
            assert(fm[k as int] == found@[k as int].model());
        }
        let before_text = chars_of(found[k].before.as_str());
        let start = before_text.len();
        let whole = chars_of(found[k].whole.as_str());
        let piece = sub_chars(&before_text, end, start);
        append(out, &piece);
        let text_len = text.len();
        proof {
            assert(text_len == text@.len());
            assert(start as int == match_start(fm[k as int]));
            assert(whole@ == fm[k as int].1);
            assert(match_end(fm[k as int]) <= text@.len());
        }
        let next_end = start + whole.len();
        let name = group_chars(&found[k].first);
        if !self.has_function(&name) {
            append(out, &whole);
            return Flow::Next(p, next_end);
        }
        let args_text = group_chars(&found[k].second);
        match self.parse_args(&args_text) {
            Err(ArgsError::Fault(f)) => Flow::Done(Err(Halt::Fault(f)), p),
            Err(ArgsError::Syntax { message, index }) => {
                if self.debug_mode {
                    let prefix_len = chars_of(self.syntax.function_prefix.as_str()).len();
                    let exact: u128 = start as u128 + prefix_len as u128 + name.len() as u128 + 1
                        + index as u128;
                    let at: usize = if exact < text.len() as u128 {
                        exact as usize
                    } else {
                        text.len()
                    };
                    let err = build_compiler_error(text, file_name, at, chars_of(message.as_str()));
                    proof {
                        let spec_at = args_start(*self, fm[k as int]) + index;
                        assert(spec_at == exact as int);
                        assert(error_at(text@, file_name@, at as int, message@) == error_at(
                            text@,
                            file_name@,
                            spec_at,
                            message@,
                        ));
                    }
                    return Flow::Done(Err(Halt::Failed(err)), p);
                }
                append(out, &whole);
                Flow::Next(p, next_end)
            },
            Ok(values) => {
                if p == answers.len() {
                    return Flow::Done(
                        Err(Halt::Need(Request::Call { name: string_of(&name), args: values })),
                        p,
                    );
                }
                proof {
                    assert(log[p as int] == answers@[p as int].model());
                }
                match &answers[p] {
                    Answer::Returned(v) => {
                        append(out, &v.to_output_string());
                        Flow::Next(p + 1, next_end)
                    },
                    Answer::CallFailed(error) => {
                        if self.debug_mode {
                            let mut message = chars_of("Function call failed for '");
                            append(&mut message, &name);
                            append(&mut message, &chars_of("': "));
                            append(&mut message, &chars_of(error.as_str()));
                            let err = build_compiler_error(text, file_name, start, message);
                            return Flow::Done(Err(Halt::Failed(err)), p + 1);
                        }
                        append(out, &whole);
                        Flow::Next(p + 1, next_end)
                    },
                    _ => Flow::Done(Err(Halt::Fault(Fault::Protocol)), p),
                }
            },
        }
    }
}

impl TextCompiler {
    /// Renders `text`, read from the file `file_name` whose normalized path
    /// is `file_key` (used to detect an include of the file itself; not used
    /// for `"<input>"`), with the answers to its earlier requests.
    pub fn compile_with_file(
        &self,
        text: &str,
        file_name: &str,
        file_key: &str,
        answers: &Vec<Answer>,
    ) -> (res: Outcome)
        ensures
            res.model() == compile_outcome(
                *self,
                answers_model(answers@),
                text@,
                file_name@,
                file_key@,
            ),
    {
        let file_chars = chars_of(file_name);
        let mut stack: Vec<Vec<char>> = Vec::new();
        if !same_chars(&file_chars, &chars_of("<input>")) {
            stack.push(chars_of(file_key));
        }
        proof {
            if file_name@ != input_name() {
                assert(pieces_model(stack@) =~= seq![file_key@]);
            } else {
                assert(pieces_model(stack@) =~= Seq::<Seq<char>>::empty());
            }
        }
        let (result, _) = self.compile_text(answers, &chars_of(text), &file_chars, &stack, 0);
        match result {
            Ok(v) => Outcome::Finished(string_of(&v)),
            Err(Halt::Need(q)) => Outcome::Need(q),
            Err(Halt::Failed(e)) => {
                if self.debug_mode {
                    Outcome::Failed(e)
                } else {
                    Outcome::Finished(text.to_owned())
                }
            },
            Err(Halt::Fault(f)) => Outcome::Fault(f),
        }
    }

    /// Renders `text`, which is not read from a file, with the answers to
    /// its earlier requests.
    pub fn compile(&self, text: &str, answers: &Vec<Answer>) -> (res: Outcome)
        ensures
            res.model() == compile_outcome(
                *self,
                answers_model(answers@),
                text@,
                input_name(),
                Seq::empty(),
            ),
    {
        let name = string_of(&chars_of("<input>"));
        let key = String::new();
        self.compile_with_file(text, name.as_str(), key.as_str(), answers)
    }
}

/// How one step of a loop over matches ends: go on from the given answer
/// position and text position, or stop with a result.
enum Flow {
    Next(usize, usize),
    Done(Result<Vec<char>, Halt>, usize),
}

} // verus!
