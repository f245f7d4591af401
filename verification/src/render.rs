//! Rendering a template. Includes are expanded first, then function calls
//! are replaced. Reading files and calling functions is work for the caller:
//! rendering asks for it (a `Request`) and is run again with the answers
//! given so far, which it reads in order.
use vstd::prelude::*;
use crate::arguments::{ArgsFailure, args_value, unquoted};
use crate::compiler::{CompilerError, ErrorModel, Fault, FaultModel, PatternRole, TextCompiler, error_at};
use crate::pattern::{match_end, match_start, option_text, pattern_compiles, pattern_scan};
use crate::text::trimmed;
use crate::value::{DynamicValue, Value, list_model, render};

verus! {

/// Work that rendering needs done before it can go on.
#[derive(Debug)]
pub enum Request {
    /// Resolve the include target, where it is a relative path, against the
    /// directory of the file `relative_to`, or against the working directory
    /// where that is none; and give the resolved path and its normalized form.
    Resolve { target: String, relative_to: Option<String> },
    /// Read the file at the path just resolved.
    Read { path: String },
    /// Call the named function with the arguments.
    Call { name: String, args: Vec<DynamicValue> },
}

/// The result of a request.
#[derive(Debug)]
pub enum Answer {
    /// The resolved path (as text) and its normalized form.
    Resolved { path: String, key: String },
    /// The text of the file, or the message of the error that reading gave.
    Loaded(Result<String, String>),
    /// What the called function returned.
    Returned(DynamicValue),
    /// The called function failed, with the given message.
    CallFailed(String),
}

/// How a rendering run ends.
#[derive(Debug)]
pub enum Outcome {
    /// More work is needed; run again with its answer added.
    Need(Request),
    /// The rendered text.
    Finished(String),
    /// An error stopped rendering (only in debug mode).
    Failed(CompilerError),
    /// Rendering cannot go on at all.
    Fault(Fault),
}

pub enum RequestModel {
    Resolve(Seq<char>, Option<Seq<char>>),
    Read(Seq<char>),
    Call(Seq<char>, Seq<Value>),
}

pub enum AnswerModel {
    Resolved(Seq<char>, Seq<char>),
    Loaded(Result<Seq<char>, Seq<char>>),
    Returned(Value),
    CallFailed(Seq<char>),
}

pub enum OutcomeModel {
    Need(RequestModel),
    Finished(Seq<char>),
    Failed(ErrorModel),
    Fault(FaultModel),
}

/// Why a part of the rendering stopped.
pub enum Stop {
    Need(RequestModel),
    Failed(ErrorModel),
    Fault(FaultModel),
}

impl Request {
    pub open spec fn model(self) -> RequestModel {
        match self {
            Request::Resolve { target, relative_to } => RequestModel::Resolve(
                target@,
                option_text(relative_to),
            ),
            Request::Read { path } => RequestModel::Read(path@),
            Request::Call { name, args } => RequestModel::Call(name@, list_model(args@)),
        }
    }
}

impl Answer {
    pub open spec fn model(self) -> AnswerModel {
        match self {
            Answer::Resolved { path, key } => AnswerModel::Resolved(path@, key@),
            Answer::Loaded(Ok(text)) => AnswerModel::Loaded(Ok(text@)),
            Answer::Loaded(Err(message)) => AnswerModel::Loaded(Err(message@)),
            Answer::Returned(v) => AnswerModel::Returned(v.model()),
            Answer::CallFailed(message) => AnswerModel::CallFailed(message@),
        }
    }
}

impl Outcome {
    pub open spec fn model(self) -> OutcomeModel {
        match self {
            Outcome::Need(r) => OutcomeModel::Need(r.model()),
            Outcome::Finished(text) => OutcomeModel::Finished(text@),
            Outcome::Failed(e) => OutcomeModel::Failed(e.model()),
            Outcome::Fault(f) => OutcomeModel::Fault(f.model()),
        }
    }
}

pub open spec fn answers_model(answers: Seq<Answer>) -> Seq<AnswerModel> {
    answers.map_values(|a: Answer| a.model())
}

/// The text of a capture group, or the empty text where it did not take part.
pub open spec fn or_empty(group: Option<Seq<char>>) -> Seq<char> {
    match group {
        Some(t) => t,
        None => Seq::empty(),
    }
}

/// Where the text before the `k`-th match starts: after the previous match.
pub open spec fn end_before(
    found: Seq<(Seq<char>, Seq<char>, Option<Seq<char>>, Option<Seq<char>>)>,
    k: int,
) -> int {
    if k <= 0 {
        0
    } else {
        match_end(found[k - 1])
    }
}

/// The text between the previous match and the `k`-th one.
pub open spec fn gap(
    text: Seq<char>,
    found: Seq<(Seq<char>, Seq<char>, Option<Seq<char>>, Option<Seq<char>>)>,
    k: int,
) -> Seq<char> {
    text.subrange(end_before(found, k), match_start(found[k]))
}

/// The text after the last match.
pub open spec fn rest_after(
    text: Seq<char>,
    found: Seq<(Seq<char>, Seq<char>, Option<Seq<char>>, Option<Seq<char>>)>,
) -> Seq<char> {
    text.subrange(end_before(found, found.len() as int), text.len() as int)
}

/// The file an include names, from its target: trimmed, without quotes.
pub open spec fn include_name(target: Option<Seq<char>>) -> Seq<char> {
    unquoted(trimmed(or_empty(target)))
}

/// The file against whose directory the includes of `file_name` are
/// resolved: none (the working directory) for text not read from a file.
pub open spec fn include_base(file_name: Seq<char>) -> Option<Seq<char>> {
    if file_name == input_name() {
        None
    } else {
        Some(file_name)
    }
}

pub open spec fn circular_message(path: Seq<char>) -> Seq<char> {
    "Circular include detected for '"@ + path + "'"@
}

pub open spec fn call_failed_message(name: Seq<char>, error: Seq<char>) -> Seq<char> {
    "Function call failed for '"@ + name + "': "@ + error
}

pub open spec fn include_failed_message(path: Seq<char>, error: Seq<char>) -> Seq<char> {
    "Include failed for '"@ + path + "': "@ + error
}

/// The answer position after a nested rendering that started at `start`:
/// its end, which never lies before `start` or past the answers.
pub open spec fn resume(start: int, end: int, len: int) -> int {
    if end < start {
        start
    } else if end > len {
        len
    } else {
        end
    }
}

/// Where the arguments of a call start: after the prefix, the name and `(`.
pub open spec fn args_start(
    c: TextCompiler,
    f: (Seq<char>, Seq<char>, Option<Seq<char>>, Option<Seq<char>>),
) -> int {
    match_start(f) + c.syntax.function_prefix@.len() + or_empty(f.2).len() + 1
}

/// Renders `text`, read from `file_name` within the includes `stack`, with the
/// answers from position `pos` on; gives the rendered text or why it stopped,
/// and the position of the next answer.
pub open spec fn compile_text(
    c: TextCompiler,
    log: Seq<AnswerModel>,
    text: Seq<char>,
    file_name: Seq<char>,
    stack: Seq<Seq<char>>,
    pos: int,
) -> (Result<Seq<char>, Stop>, int)
    decreases log.len() - pos, 1int, 0int,
{
    if pos > log.len() {
        (Err(Stop::Fault(FaultModel::Protocol)), pos)
    } else {
        match expand_includes(c, log, text, file_name, stack, pos) {
            (Err(s), p) => (Err(s), p),
            (Ok(processed), p) => expand_calls(c, log, processed, file_name, p),
        }
    }
}

/// Expands the includes of `text`.
pub open spec fn expand_includes(
    c: TextCompiler,
    log: Seq<AnswerModel>,
    text: Seq<char>,
    file_name: Seq<char>,
    stack: Seq<Seq<char>>,
    pos: int,
) -> (Result<Seq<char>, Stop>, int)
    decreases log.len() - pos, 0int, pattern_scan(c.syntax.include_pattern(), text).len() + 1,
{
    let ip = c.syntax.include_pattern();
    if !pattern_compiles(ip) {
        (Err(Stop::Fault(FaultModel::InvalidPattern(PatternRole::Include, ip))), pos)
    } else {
        includes_from(c, log, text, file_name, stack, pattern_scan(ip, text), 0, Seq::empty(), pos)
    }
}

/// Expands the includes from the `k`-th on, with `out` rendered so far.
pub open spec fn includes_from(
    c: TextCompiler,
    log: Seq<AnswerModel>,
    text: Seq<char>,
    file_name: Seq<char>,
    stack: Seq<Seq<char>>,
    found: Seq<(Seq<char>, Seq<char>, Option<Seq<char>>, Option<Seq<char>>)>,
    k: nat,
    out: Seq<char>,
    pos: int,
) -> (Result<Seq<char>, Stop>, int)
    decreases log.len() - pos, 0int, found.len() - k,
{
    if pos > log.len() {
        (Err(Stop::Fault(FaultModel::Protocol)), pos)
    } else if k >= found.len() {
        (Ok(out + rest_after(text, found)), pos)
    } else {
        let f = found[k as int];
        let before = out + gap(text, found, k as int);
        let target = include_name(f.2);
        if pos == log.len() {
            (Err(Stop::Need(RequestModel::Resolve(target, include_base(file_name)))), pos)
        } else {
            match log[pos] {
                AnswerModel::Resolved(path, key) => {
                    if stack.contains(key) {
                        let err = error_at(text, file_name, match_start(f), circular_message(path));
                        if c.debug_mode {
                            (Err(Stop::Failed(err)), pos + 1)
                        } else {
                            includes_from(c, log, text, file_name, stack, found, (k + 1) as nat, before + f.1, pos + 1)
                        }
                    } else if pos + 1 == log.len() {
                        (Err(Stop::Need(RequestModel::Read(path))), pos + 1)
                    } else {
                        match log[pos + 1] {
                            AnswerModel::Loaded(Err(message)) => {
                                let err = error_at(
                                    text,
                                    file_name,
                                    match_start(f),
                                    include_failed_message(path, message),
                                );
                                if c.debug_mode {
                                    (Err(Stop::Failed(err)), pos + 2)
                                } else {
                                    includes_from(
                                        c,
                                        log,
                                        text,
                                        file_name,
                                        stack,
                                        found,
                                        (k + 1) as nat,
                                        before + f.1,
                                        pos + 2,
                                    )
                                }
                            },
                            AnswerModel::Loaded(Ok(content)) => {
                                let (nested, end) = compile_text(
                                    c,
                                    log,
                                    content,
                                    path,
                                    stack.push(key),
                                    pos + 2,
                                );
                                let next = resume(pos + 2, end, log.len() as int);
                                match nested {
                                    Ok(v) => includes_from(
                                        c,
                                        log,
                                        text,
                                        file_name,
                                        stack,
                                        found,
                                        (k + 1) as nat,
                                        before + v,
                                        next,
                                    ),
                                    Err(Stop::Failed(e)) => if c.debug_mode {
                                        (Err(Stop::Failed(e)), next)
                                    } else {
                                        includes_from(
                                            c,
                                            log,
                                            text,
                                            file_name,
                                            stack,
                                            found,
                                            (k + 1) as nat,
                                            before + f.1,
                                            next,
                                        )
                                    },
                                    Err(s) => (Err(s), next),
                                }
                            },
                            _ => (Err(Stop::Fault(FaultModel::Protocol)), pos + 1),
                        }
                    }
                },
                _ => (Err(Stop::Fault(FaultModel::Protocol)), pos),
            }
        }
    }
}

/// Replaces the function calls in `text`.
pub open spec fn expand_calls(
    c: TextCompiler,
    log: Seq<AnswerModel>,
    text: Seq<char>,
    file_name: Seq<char>,
    pos: int,
) -> (Result<Seq<char>, Stop>, int) {
    let fp = c.syntax.function_pattern();
    if !pattern_compiles(fp) {
        (Err(Stop::Fault(FaultModel::InvalidPattern(PatternRole::Function, fp))), pos)
    } else {
        calls_from(c, log, text, file_name, pattern_scan(fp, text), 0, Seq::empty(), pos)
    }
}

/// Replaces the calls from the `k`-th on, with `out` rendered so far. A call
/// of a function that is not registered is left as it stands, and so is one
/// whose arguments cannot be read or whose function fails, outside debug
/// mode; in debug mode those stop rendering with an error.
pub open spec fn calls_from(
    c: TextCompiler,
    log: Seq<AnswerModel>,
    text: Seq<char>,
    file_name: Seq<char>,
    found: Seq<(Seq<char>, Seq<char>, Option<Seq<char>>, Option<Seq<char>>)>,
    k: nat,
    out: Seq<char>,
    pos: int,
) -> (Result<Seq<char>, Stop>, int)
    decreases found.len() - k,
{
    if k >= found.len() {
        (Ok(out + rest_after(text, found)), pos)
    } else {
        let f = found[k as int];
        let before = out + gap(text, found, k as int);
        let name = or_empty(f.2);
        if !c.function_names().contains(name) {
            calls_from(c, log, text, file_name, found, (k + 1) as nat, before + f.1, pos)
        } else {
            match args_value(c, or_empty(f.3)) {
                Err(ArgsFailure::Fault(x)) => (Err(Stop::Fault(x)), pos),
                Err(ArgsFailure::Syntax(message, index)) => {
                    let err = error_at(text, file_name, args_start(c, f) + index, message);
                    if c.debug_mode {
                        (Err(Stop::Failed(err)), pos)
                    } else {
                        calls_from(c, log, text, file_name, found, (k + 1) as nat, before + f.1, pos)
                    }
                },
                Ok(values) => if pos >= log.len() {
                    (Err(Stop::Need(RequestModel::Call(name, values))), pos)
                } else {
                    match log[pos] {
                        AnswerModel::Returned(v) => calls_from(
                            c,
                            log,
                            text,
                            file_name,
                            found,
                            (k + 1) as nat,
                            before + render(v),
                            pos + 1,
                        ),
                        AnswerModel::CallFailed(message) => {
                            let err = error_at(
                                text,
                                file_name,
                                match_start(f),
                                call_failed_message(name, message),
                            );
                            if c.debug_mode {
                                (Err(Stop::Failed(err)), pos + 1)
                            } else {
                                calls_from(
                                    c,
                                    log,
                                    text,
                                    file_name,
                                    found,
                                    (k + 1) as nat,
                                    before + f.1,
                                    pos + 1,
                                )
                            }
                        },
                        _ => (Err(Stop::Fault(FaultModel::Protocol)), pos),
                    }
                },
            }
        }
    }
}

/// The name given to text that is not read from a file.
pub open spec fn input_name() -> Seq<char> {
    "<input>"@
}

/// How rendering `text`, read from `file_name` (whose normalized path is
/// `file_key`), ends with the given answers. An error that stops rendering
/// outside debug mode gives back the text as it was.
pub open spec fn compile_outcome(
    c: TextCompiler,
    log: Seq<AnswerModel>,
    text: Seq<char>,
    file_name: Seq<char>,
    file_key: Seq<char>,
) -> OutcomeModel {
    let stack = if file_name != input_name() {
        seq![file_key]
    } else {
        Seq::empty()
    };
    match compile_text(c, log, text, file_name, stack, 0).0 {
        Ok(v) => OutcomeModel::Finished(v),
        Err(Stop::Need(q)) => OutcomeModel::Need(q),
        Err(Stop::Failed(e)) => if c.debug_mode {
            OutcomeModel::Failed(e)
        } else {
            OutcomeModel::Finished(text)
        },
        Err(Stop::Fault(f)) => OutcomeModel::Fault(f),
    }
}

} // verus!
