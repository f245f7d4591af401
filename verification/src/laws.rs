//! What holds of rendering and of the renderer's state across calls.
use vstd::prelude::*;
use crate::arguments::{
    ArgsFailure, argument_value, args_value, dict_value, enclosed, entries_value, items_value, list_value,
    scanned_value, token_value, tokens_value, unquoted, variable_regex,
};
use crate::compiler::{
    ErrorModel, TextCompiler, column_of, error_at, last_line_start, line_of, newline_count, inserted, key_index, lemma_inserted_lookup, lemma_key_index, lookup,
    with_function,
};
use crate::engine::lemma_match_piece;
use crate::pattern::{match_end, match_start, pattern_compiles, pattern_scan, scan_ordered};
use crate::render::{
    AnswerModel, OutcomeModel, RequestModel, Stop, args_start, call_failed_message, calls_from,
    circular_message,
    compile_outcome, compile_text, end_before, expand_calls, expand_includes, gap, include_base,
    include_name, includes_from, input_name, or_empty, rest_after, resume,
};
use crate::splitter::{
    ScanState, SplitError, is_closing, is_opening, lemma_split_bounded, scan_error, scan_prefix, scan_start,
    scan_text, split_spec,
};
use crate::compiler::{FaultModel, PatternRole};
use crate::text::{
    digit_char, digit_value, is_white_space, lemma_trimmed_len, spec_decimal, trim_end, trim_start, trimmed,
};
use crate::value::{
    Value, all_digits, digits_value, i64_magnitude_limit, render, render_entries, render_items, unsigned_part,
};
use crate::literal::{bool_text, is_decimal_number, is_digit, is_float_text, leading_digits, lowered};
use crate::names::{exported_name, is_ascii_digit, is_ascii_letter, valid_as_name};
use crate::pattern::escaped;
use crate::syntax::CompilerSyntax;
use crate::number::{
    after_point, decimal_text, exp_part, frac_part, has_point, leading_zeros, mantissa, number_text, scale, significant,
    lemma_leading_zeros, trailing_zeros, unpadded, zeros,
};

verus! {

/// Whether rendering leaves the call as it stands: its function is not
/// registered, or, outside debug mode, its arguments cannot be read.
pub open spec fn left_as_is(
    c: TextCompiler,
    f: (Seq<char>, Seq<char>, Option<Seq<char>>, Option<Seq<char>>),
) -> bool {
    ||| !c.function_names().contains(or_empty(f.2))
    ||| !c.debug_mode && args_value(c, or_empty(f.3)) matches Err(ArgsFailure::Syntax(_, _))
}

/// Replacing calls that are all left as they stand leaves the text from the
/// `k`-th match on as it is.
proof fn lemma_calls_left_as_is(
    c: TextCompiler,
    log: Seq<AnswerModel>,
    text: Seq<char>,
    file_name: Seq<char>,
    found: Seq<(Seq<char>, Seq<char>, Option<Seq<char>>, Option<Seq<char>>)>,
    k: nat,
    out: Seq<char>,
    pos: int,
)
    requires
        scan_ordered(text, found),
        k <= found.len(),
        0 <= end_before(found, k as int) <= text.len(),
        forall|j: int| 0 <= j < found.len() ==> left_as_is(c, #[trigger] found[j]),
    ensures
        calls_from(c, log, text, file_name, found, k, out, pos) == (
            Ok::<Seq<char>, Stop>(out + text.subrange(end_before(found, k as int), text.len() as int)),
            pos,
        ),
    decreases found.len() - k,
{
    if k < found.len() {
        let f = found[k as int];
        lemma_match_piece(text, found, k as int);
        let before = out + gap(text, found, k as int);
        assert(left_as_is(c, f));
        lemma_calls_left_as_is(c, log, text, file_name, found, (k + 1) as nat, before + f.1, pos);
        assert(f.1 =~= text.subrange(match_start(f), match_end(f))) by {
            assert(text.take(match_end(f)) == f.0 + f.1);
            assert forall|i: int| 0 <= i < f.1.len() implies f.1[i] == text[match_start(f) + i] by {
                assert((f.0 + f.1)[f.0.len() + i] == text.take(match_end(f))[f.0.len() + i]);
            }
        }
        assert(before + f.1 + text.subrange(match_end(f), text.len() as int) =~= out + text.subrange(
            end_before(found, k as int),
            text.len() as int,
        ));
    }
}

/// Rendering leaves a text unchanged when it includes nothing and each of its
/// calls is left as it stands: a call of a function that is not registered,
/// or, outside debug mode, a call whose arguments cannot be read. (The
/// matches of a scan come in order and do not overlap, as `scan_pattern`
/// states of every pattern that compiles.)
pub proof fn law_calls_left_as_they_stand(
    c: TextCompiler,
    log: Seq<AnswerModel>,
    text: Seq<char>,
    file_name: Seq<char>,
    file_key: Seq<char>,
)
    requires
        pattern_compiles(c.syntax.include_pattern()),
        pattern_compiles(c.syntax.function_pattern()),
        pattern_scan(c.syntax.include_pattern(), text).len() == 0,
        scan_ordered(text, pattern_scan(c.syntax.function_pattern(), text)),
        forall|j: int|
            0 <= j < pattern_scan(c.syntax.function_pattern(), text).len() ==> left_as_is(
                c,
                #[trigger] pattern_scan(c.syntax.function_pattern(), text)[j],
            ),
    ensures
        compile_outcome(c, log, text, file_name, file_key) == OutcomeModel::Finished(text),
{
    let stack = if file_name != input_name() {
        seq![file_key]
    } else {
        Seq::empty()
    };
    let includes = pattern_scan(c.syntax.include_pattern(), text);
    assert(rest_after(text, includes) =~= text);
    assert(includes_from(c, log, text, file_name, stack, includes, 0, Seq::empty(), 0).0 == Ok::<
        Seq<char>,
        Stop,
    >(text)) by {
        assert(Seq::<char>::empty() + text =~= text);
    }
    let calls = pattern_scan(c.syntax.function_pattern(), text);
    lemma_calls_left_as_is(c, log, text, file_name, calls, 0, Seq::empty(), 0);
    assert(Seq::<char>::empty() + text.subrange(0, text.len() as int) =~= text);
    assert(expand_includes(c, log, text, file_name, stack, 0) == (Ok::<Seq<char>, Stop>(text), 0int));
    assert(expand_calls(c, log, text, file_name, 0) == (Ok::<Seq<char>, Stop>(text), 0int));
}

/// Plain text, in which neither an include nor a function call is found,
/// renders as itself.
pub proof fn law_plain_text_unchanged(
    c: TextCompiler,
    log: Seq<AnswerModel>,
    text: Seq<char>,
    file_name: Seq<char>,
    file_key: Seq<char>,
)
    requires
        pattern_compiles(c.syntax.include_pattern()),
        pattern_compiles(c.syntax.function_pattern()),
        pattern_scan(c.syntax.include_pattern(), text).len() == 0,
        pattern_scan(c.syntax.function_pattern(), text).len() == 0,
    ensures
        compile_outcome(c, log, text, file_name, file_key) == OutcomeModel::Finished(text),
{
    law_calls_left_as_they_stand(c, log, text, file_name, file_key);
}

/// The first thing asked of the caller for a text with an include is to
/// resolve the include's target, unquoted, against the directory of the file
/// it appears in, or against the working directory for text not read from a
/// file.
pub proof fn law_include_resolved_against_its_file(
    c: TextCompiler,
    text: Seq<char>,
    file_name: Seq<char>,
    file_key: Seq<char>,
)
    requires
        pattern_compiles(c.syntax.include_pattern()),
        pattern_scan(c.syntax.include_pattern(), text).len() > 0,
    ensures
        compile_outcome(c, Seq::empty(), text, file_name, file_key) == OutcomeModel::Need(
            RequestModel::Resolve(
                include_name(pattern_scan(c.syntax.include_pattern(), text)[0].2),
                include_base(file_name),
            ),
        ),
{
}

/// A registered function is called with the values of its arguments, and
/// what it returns, printed, takes the place of the call.
pub proof fn law_call_replaced_by_its_result(
    c: TextCompiler,
    text: Seq<char>,
    file_name: Seq<char>,
    file_key: Seq<char>,
    returned: Value,
)
    requires
        pattern_compiles(c.syntax.include_pattern()),
        pattern_compiles(c.syntax.function_pattern()),
        pattern_scan(c.syntax.include_pattern(), text).len() == 0,
        pattern_scan(c.syntax.function_pattern(), text).len() == 1,
        c.function_names().contains(or_empty(pattern_scan(c.syntax.function_pattern(), text)[0].2)),
        args_value(c, or_empty(pattern_scan(c.syntax.function_pattern(), text)[0].3)) is Ok,
    ensures
        ({
            let f = pattern_scan(c.syntax.function_pattern(), text)[0];
            &&& compile_outcome(c, Seq::empty(), text, file_name, file_key) == OutcomeModel::Need(
                RequestModel::Call(or_empty(f.2), args_value(c, or_empty(f.3))->Ok_0),
            )
            &&& compile_outcome(c, seq![AnswerModel::Returned(returned)], text, file_name, file_key)
                == OutcomeModel::Finished(
                text.subrange(0, match_start(f)) + render(returned) + text.subrange(
                    match_end(f),
                    text.len() as int,
                ),
            )
        }),
{
    let stack = if file_name != input_name() {
        seq![file_key]
    } else {
        Seq::empty()
    };
    let includes = pattern_scan(c.syntax.include_pattern(), text);
    let calls = pattern_scan(c.syntax.function_pattern(), text);
    let f = calls[0];
    assert(rest_after(text, includes) =~= text);
    assert(Seq::<char>::empty() + text =~= text);
    let empty_log = Seq::<AnswerModel>::empty();
    let one = seq![AnswerModel::Returned(returned)];
    assert(expand_includes(c, empty_log, text, file_name, stack, 0) == (Ok::<Seq<char>, Stop>(text), 0int));
    assert(expand_includes(c, one, text, file_name, stack, 0) == (Ok::<Seq<char>, Stop>(text), 0int));
    let before = Seq::<char>::empty() + gap(text, calls, 0);
    assert(calls_from(c, one, text, file_name, calls, 1, before + render(returned), 1).0 == Ok::<
        Seq<char>,
        Stop,
    >(before + render(returned) + rest_after(text, calls)));
    assert(before + render(returned) + rest_after(text, calls) =~= text.subrange(0, match_start(f))
        + render(returned) + text.subrange(match_end(f), text.len() as int));
}

/// A file that includes itself is caught: in debug mode rendering stops with
/// an error at the include.
pub proof fn law_self_include_detected(
    c: TextCompiler,
    log: Seq<AnswerModel>,
    text: Seq<char>,
    file_name: Seq<char>,
    file_key: Seq<char>,
    path: Seq<char>,
)
    requires
        c.debug_mode,
        file_name != input_name(),
        pattern_compiles(c.syntax.include_pattern()),
        pattern_scan(c.syntax.include_pattern(), text).len() > 0,
        log.len() > 0,
        log[0] == AnswerModel::Resolved(path, file_key),
    ensures
        compile_outcome(c, log, text, file_name, file_key) == OutcomeModel::Failed(
            error_at(
                text,
                file_name,
                match_start(pattern_scan(c.syntax.include_pattern(), text)[0]),
                circular_message(path),
            ),
        ),
{
    let stack = seq![file_key];
    assert(stack[0] == file_key);
    assert(stack.contains(file_key));
}

/// While calls are replaced, from the `k`-th on, nothing but a call is asked
/// of the caller.
proof fn lemma_calls_only_call(
    c: TextCompiler,
    log: Seq<AnswerModel>,
    text: Seq<char>,
    file_name: Seq<char>,
    found: Seq<(Seq<char>, Seq<char>, Option<Seq<char>>, Option<Seq<char>>)>,
    k: nat,
    out: Seq<char>,
    pos: int,
)
    ensures
        calls_from(c, log, text, file_name, found, k, out, pos).0 matches Err(Stop::Need(q)) ==> q is Call,
    decreases found.len() - k,
{
    if k < found.len() {
        let f = found[k as int];
        let before = out + gap(text, found, k as int);
        lemma_calls_only_call(c, log, text, file_name, found, (k + 1) as nat, before + f.1, pos);
        if pos < log.len() {
            if let AnswerModel::Returned(v) = log[pos] {
                lemma_calls_only_call(c, log, text, file_name, found, (k + 1) as nat, before + render(v), pos + 1);
            }
            lemma_calls_only_call(c, log, text, file_name, found, (k + 1) as nat, before + f.1, pos + 1);
        }
    }
}

/// Outside debug mode, a file that includes itself is not read again: the
/// include is passed over.
pub proof fn law_self_include_not_read(
    c: TextCompiler,
    text: Seq<char>,
    file_name: Seq<char>,
    file_key: Seq<char>,
    path: Seq<char>,
)
    requires
        !c.debug_mode,
        file_name != input_name(),
        pattern_compiles(c.syntax.include_pattern()),
        pattern_scan(c.syntax.include_pattern(), text).len() > 0,
    ensures
        !(compile_outcome(c, seq![AnswerModel::Resolved(path, file_key)], text, file_name, file_key) matches OutcomeModel::Need(
            RequestModel::Read(_),
        )),
{
    let log = seq![AnswerModel::Resolved(path, file_key)];
    let stack = seq![file_key];
    assert(stack[0] == file_key);
    assert(stack.contains(file_key));
    let includes = pattern_scan(c.syntax.include_pattern(), text);
    let f = includes[0];
    let rest = includes_from(c, log, text, file_name, stack, includes, 1, gap(text, includes, 0) + f.1, 1);
    assert(Seq::<char>::empty() + gap(text, includes, 0) == gap(text, includes, 0));
    assert(includes_from(c, log, text, file_name, stack, includes, 0, Seq::empty(), 0) == rest);
    if let Ok(processed) = rest.0 {
        let fp = c.syntax.function_pattern();
        if pattern_compiles(fp) {
            lemma_calls_only_call(c, log, processed, file_name, pattern_scan(fp, processed), 0, Seq::empty(), rest.1);
        }
    }
}

/// Rendering text that is not read from a file does not depend on the
/// normalized path given for it.
pub proof fn law_input_needs_no_key(
    c: TextCompiler,
    log: Seq<AnswerModel>,
    text: Seq<char>,
    key: Seq<char>,
    other_key: Seq<char>,
)
    ensures
        compile_outcome(c, log, text, input_name(), key) == compile_outcome(
            c,
            log,
            text,
            input_name(),
            other_key,
        ),
{
}

/// A variable reads back as the value last set for it, and setting it leaves
/// the other variables as they were.
pub proof fn law_variable_reads_back(
    variables: Seq<(Seq<char>, Value)>,
    name: Seq<char>,
    value: Value,
    other: Seq<char>,
)
    ensures
        lookup(inserted(variables, name, value), name) == Some(value),
        other != name ==> lookup(inserted(variables, name, value), other) == lookup(variables, other),
{
    lemma_inserted_lookup(variables, name, value, other);
}

/// After the variables are cleared, none is found.
pub proof fn law_cleared_variables_are_gone(name: Seq<char>)
    ensures
        lookup(Seq::<(Seq<char>, Value)>::empty(), name) is None,
{
}

/// Registering a function name makes it registered, and registering it again
/// changes nothing.
pub proof fn law_register_twice_same_as_once(names: Seq<Seq<char>>, name: Seq<char>)
    ensures
        with_function(names, name).contains(name),
        with_function(with_function(names, name), name) == with_function(names, name),
{
    if !names.contains(name) {
        assert(names.push(name)[names.len() as int] == name);
    }
}

/// Outside debug mode, replacing calls never stops on an error.
proof fn lemma_calls_no_failure(
    c: TextCompiler,
    log: Seq<AnswerModel>,
    text: Seq<char>,
    file_name: Seq<char>,
    found: Seq<(Seq<char>, Seq<char>, Option<Seq<char>>, Option<Seq<char>>)>,
    k: nat,
    out: Seq<char>,
    pos: int,
)
    requires
        !c.debug_mode,
    ensures
        !(calls_from(c, log, text, file_name, found, k, out, pos).0 matches Err(Stop::Failed(_))),
    decreases found.len() - k,
{
    if k < found.len() {
        let f = found[k as int];
        let before = out + gap(text, found, k as int);
        lemma_calls_no_failure(c, log, text, file_name, found, (k + 1) as nat, before + f.1, pos);
        if pos < log.len() {
            if let AnswerModel::Returned(v) = log[pos] {
                lemma_calls_no_failure(c, log, text, file_name, found, (k + 1) as nat, before + render(v), pos + 1);
            }
            lemma_calls_no_failure(c, log, text, file_name, found, (k + 1) as nat, before + f.1, pos + 1);
        }
    }
}

proof fn lemma_text_no_failure(
    c: TextCompiler,
    log: Seq<AnswerModel>,
    text: Seq<char>,
    file_name: Seq<char>,
    stack: Seq<Seq<char>>,
    pos: int,
)
    requires
        !c.debug_mode,
    ensures
        !(compile_text(c, log, text, file_name, stack, pos).0 matches Err(Stop::Failed(_))),
    decreases log.len() - pos, 1int, 0int,
{
    if pos <= log.len() {
        lemma_includes_no_failure(c, log, text, file_name, stack, pos);
        if let (Ok(processed), p) = expand_includes(c, log, text, file_name, stack, pos) {
            let fp = c.syntax.function_pattern();
            if pattern_compiles(fp) {
                lemma_calls_no_failure(c, log, processed, file_name, pattern_scan(fp, processed), 0, Seq::empty(), p);
            }
        }
    }
}

proof fn lemma_includes_no_failure(
    c: TextCompiler,
    log: Seq<AnswerModel>,
    text: Seq<char>,
    file_name: Seq<char>,
    stack: Seq<Seq<char>>,
    pos: int,
)
    requires
        !c.debug_mode,
    ensures
        !(expand_includes(c, log, text, file_name, stack, pos).0 matches Err(Stop::Failed(_))),
    decreases log.len() - pos, 0int, pattern_scan(c.syntax.include_pattern(), text).len() + 1,
{
    let ip = c.syntax.include_pattern();
    if pattern_compiles(ip) {
        lemma_includes_from_no_failure(c, log, text, file_name, stack, pattern_scan(ip, text), 0, Seq::empty(), pos);
    }
}

proof fn lemma_includes_from_no_failure(
    c: TextCompiler,
    log: Seq<AnswerModel>,
    text: Seq<char>,
    file_name: Seq<char>,
    stack: Seq<Seq<char>>,
    found: Seq<(Seq<char>, Seq<char>, Option<Seq<char>>, Option<Seq<char>>)>,
    k: nat,
    out: Seq<char>,
    pos: int,
)
    requires
        !c.debug_mode,
    ensures
        !(includes_from(c, log, text, file_name, stack, found, k, out, pos).0 matches Err(Stop::Failed(_))),
    decreases log.len() - pos, 0int, found.len() - k,
{
    if pos < log.len() && k < found.len() {
        let f = found[k as int];
        let before = out + gap(text, found, k as int);
        if let AnswerModel::Resolved(path, key) = log[pos] {
            if stack.contains(key) {
                lemma_includes_from_no_failure(c, log, text, file_name, stack, found, (k + 1) as nat, before + f.1, pos + 1);
            } else if pos + 1 < log.len() {
                match log[pos + 1] {
                    AnswerModel::Loaded(Err(_)) => {
                        lemma_includes_from_no_failure(c, log, text, file_name, stack, found, (k + 1) as nat, before + f.1, pos + 2);
                    },
                    AnswerModel::Loaded(Ok(content)) => {
                        lemma_text_no_failure(c, log, content, path, stack.push(key), pos + 2);
                        let (nested, end) = compile_text(c, log, content, path, stack.push(key), pos + 2);
                        let next = resume(pos + 2, end, log.len() as int);
                        if let Ok(v) = nested {
                            lemma_includes_from_no_failure(c, log, text, file_name, stack, found, (k + 1) as nat, before + v, next);
                        }
                        lemma_includes_from_no_failure(c, log, text, file_name, stack, found, (k + 1) as nat, before + f.1, next);
                    },
                    _ => {},
                }
            }
        }
    }
}

/// Outside debug mode no error stops rendering: a call or an include that
/// fails is left in the text as it stands, and rendering goes on.
pub proof fn law_no_failure_outside_debug(
    c: TextCompiler,
    log: Seq<AnswerModel>,
    text: Seq<char>,
    file_name: Seq<char>,
    stack: Seq<Seq<char>>,
    pos: int,
)
    requires
        !c.debug_mode,
    ensures
        !(compile_text(c, log, text, file_name, stack, pos).0 matches Err(Stop::Failed(_))),
{
    lemma_text_no_failure(c, log, text, file_name, stack, pos);
}

/// `more` holds the answers of `log`, in order, and possibly more after them.
pub open spec fn extends(log: Seq<AnswerModel>, more: Seq<AnswerModel>) -> bool {
    &&& log.len() <= more.len()
    &&& forall|i: int| 0 <= i < log.len() ==> #[trigger] more[i] == log[i]
}

/// Whether a part of the rendering stopped to ask for more work.
pub open spec fn asks_more(r: Result<Seq<char>, Stop>) -> bool {
    r matches Err(Stop::Need(_))
}

proof fn lemma_calls_extend(
    c: TextCompiler,
    log: Seq<AnswerModel>,
    more: Seq<AnswerModel>,
    text: Seq<char>,
    file_name: Seq<char>,
    found: Seq<(Seq<char>, Seq<char>, Option<Seq<char>>, Option<Seq<char>>)>,
    k: nat,
    out: Seq<char>,
    pos: int,
)
    requires
        extends(log, more),
        0 <= pos <= log.len(),
    ensures
        ({
            let r = calls_from(c, log, text, file_name, found, k, out, pos);
            &&& pos <= r.1 <= log.len()
            &&& !asks_more(r.0) ==> calls_from(c, more, text, file_name, found, k, out, pos) == r
        }),
    decreases found.len() - k,
{
    if k < found.len() {
        let f = found[k as int];
        let before = out + gap(text, found, k as int);
        let name = or_empty(f.2);
        if !c.function_names().contains(name) {
            lemma_calls_extend(c, log, more, text, file_name, found, (k + 1) as nat, before + f.1, pos);
        } else {
            match args_value(c, or_empty(f.3)) {
                Err(ArgsFailure::Syntax(_, _)) => {
                    lemma_calls_extend(c, log, more, text, file_name, found, (k + 1) as nat, before + f.1, pos);
                },
                Ok(_) => {
                    if pos < log.len() {
                        assert(more[pos] == log[pos]);
                        if let AnswerModel::Returned(v) = log[pos] {
                            lemma_calls_extend(
                                c,
                                log,
                                more,
                                text,
                                file_name,
                                found,
                                (k + 1) as nat,
                                before + render(v),
                                pos + 1,
                            );
                        }
                        lemma_calls_extend(c, log, more, text, file_name, found, (k + 1) as nat, before + f.1, pos + 1);
                    }
                },
                _ => {},
            }
        }
    }
}

proof fn lemma_text_extend(
    c: TextCompiler,
    log: Seq<AnswerModel>,
    more: Seq<AnswerModel>,
    text: Seq<char>,
    file_name: Seq<char>,
    stack: Seq<Seq<char>>,
    pos: int,
)
    requires
        extends(log, more),
        0 <= pos <= log.len(),
    ensures
        ({
            let r = compile_text(c, log, text, file_name, stack, pos);
            &&& pos <= r.1 <= log.len()
            &&& !asks_more(r.0) ==> compile_text(c, more, text, file_name, stack, pos) == r
        }),
    decreases log.len() - pos, 1int, 0int,
{
    lemma_includes_extend(c, log, more, text, file_name, stack, pos);
    if let (Ok(processed), p) = expand_includes(c, log, text, file_name, stack, pos) {
        let fp = c.syntax.function_pattern();
        if pattern_compiles(fp) {
            lemma_calls_extend(c, log, more, processed, file_name, pattern_scan(fp, processed), 0, Seq::empty(), p);
        }
    }
}

proof fn lemma_includes_extend(
    c: TextCompiler,
    log: Seq<AnswerModel>,
    more: Seq<AnswerModel>,
    text: Seq<char>,
    file_name: Seq<char>,
    stack: Seq<Seq<char>>,
    pos: int,
)
    requires
        extends(log, more),
        0 <= pos <= log.len(),
    ensures
        ({
            let r = expand_includes(c, log, text, file_name, stack, pos);
            &&& pos <= r.1 <= log.len()
            &&& !asks_more(r.0) ==> expand_includes(c, more, text, file_name, stack, pos) == r
        }),
    decreases log.len() - pos, 0int, pattern_scan(c.syntax.include_pattern(), text).len() + 1,
{
    let ip = c.syntax.include_pattern();
    if pattern_compiles(ip) {
        lemma_includes_from_extend(c, log, more, text, file_name, stack, pattern_scan(ip, text), 0, Seq::empty(), pos);
    }
}

proof fn lemma_includes_from_extend(
    c: TextCompiler,
    log: Seq<AnswerModel>,
    more: Seq<AnswerModel>,
    text: Seq<char>,
    file_name: Seq<char>,
    stack: Seq<Seq<char>>,
    found: Seq<(Seq<char>, Seq<char>, Option<Seq<char>>, Option<Seq<char>>)>,
    k: nat,
    out: Seq<char>,
    pos: int,
)
    requires
        extends(log, more),
        0 <= pos <= log.len(),
    ensures
        ({
            let r = includes_from(c, log, text, file_name, stack, found, k, out, pos);
            &&& pos <= r.1 <= log.len()
            &&& !asks_more(r.0) ==> includes_from(c, more, text, file_name, stack, found, k, out, pos) == r
        }),
    decreases log.len() - pos, 0int, found.len() - k,
{
    if pos < log.len() && k < found.len() {
        let f = found[k as int];
        let before = out + gap(text, found, k as int);
        assert(more[pos] == log[pos]);
        if let AnswerModel::Resolved(path, key) = log[pos] {
            if stack.contains(key) {
                lemma_includes_from_extend(c, log, more, text, file_name, stack, found, (k + 1) as nat, before + f.1, pos + 1);
            } else if pos + 1 < log.len() {
                assert(more[pos + 1] == log[pos + 1]);
                match log[pos + 1] {
                    AnswerModel::Loaded(Err(_)) => {
                        lemma_includes_from_extend(c, log, more, text, file_name, stack, found, (k + 1) as nat, before + f.1, pos + 2);
                    },
                    AnswerModel::Loaded(Ok(content)) => {
                        lemma_text_extend(c, log, more, content, path, stack.push(key), pos + 2);
                        let (nested, end) = compile_text(c, log, content, path, stack.push(key), pos + 2);
                        let next = resume(pos + 2, end, log.len() as int);
                        assert(next == end);
                        if !asks_more(nested) {
                            assert(resume(pos + 2, end, more.len() as int) == end);
                        }
                        if let Ok(v) = nested {
                            lemma_includes_from_extend(c, log, more, text, file_name, stack, found, (k + 1) as nat, before + v, next);
                        }
                        lemma_includes_from_extend(c, log, more, text, file_name, stack, found, (k + 1) as nat, before + f.1, next);
                    },
                    _ => {},
                }
            }
        }
    }
}

/// Answers given after a run that did not ask for more change nothing: a run
/// that finished, failed or faulted ends the same way with further answers.
/// So a caller can run again with each answer added, and stop at the first
/// run that does not ask for more.
pub proof fn law_more_answers_same_outcome(
    c: TextCompiler,
    log: Seq<AnswerModel>,
    more: Seq<AnswerModel>,
    text: Seq<char>,
    file_name: Seq<char>,
    file_key: Seq<char>,
)
    requires
        extends(log, more),
        !(compile_outcome(c, log, text, file_name, file_key) is Need),
    ensures
        compile_outcome(c, more, text, file_name, file_key) == compile_outcome(c, log, text, file_name, file_key),
{
    let stack = if file_name != input_name() {
        seq![file_key]
    } else {
        Seq::empty()
    };
    lemma_text_extend(c, log, more, text, file_name, stack, 0);
}

proof fn lemma_tokens_blank(c: TextCompiler, parts: Seq<Seq<char>>)
    ensures
        tokens_value(c, parts) matches Ok(values) ==> values.len() == parts.len() && forall|i: int|
            0 <= i < parts.len() && trimmed(#[trigger] parts[i]).len() == 0 ==> values[i] == Value::Null,
    decreases parts.len(),
{
    if parts.len() > 0 {
        lemma_tokens_blank(c, parts.drop_last());
        if let Ok(values) = tokens_value(c, parts) {
            assert forall|i: int| 0 <= i < parts.len() && trimmed(#[trigger] parts[i]).len() == 0 implies values[i]
                == Value::Null by {
                if i < parts.len() - 1 {
                    assert(parts.drop_last()[i] == parts[i]);
                }
            }
        }
    }
}

/// A blank argument of a call is `null`: every argument that a top-level
/// comma closes and that holds nothing but white space reads as `null`.
pub proof fn law_blank_argument_is_null(c: TextCompiler, s: Seq<char>)
    ensures
        args_value(c, s) matches Ok(values) ==> forall|i: int|
            0 <= i < scan_text(s, ',').parts.len() && trimmed(#[trigger] scan_text(s, ',').parts[i]).len() == 0
                ==> values[i] == Value::Null,
{
    if trimmed(s).len() == 0 {
        lemma_blank_has_no_pieces(s);
        lemma_blank_is_white(s);
        lemma_white_scan(s, s.len() as int);
    }
    let parts = scan_text(s, ',').parts;
    lemma_tokens_blank(c, parts);
    if let Ok(values) = args_value(c, s) {
        let tokens = tokens_value(c, parts)->Ok_0;
        assert forall|i: int| 0 <= i < parts.len() && trimmed(#[trigger] parts[i]).len() == 0 implies values[i]
            == Value::Null by {
            assert(values[i] == tokens[i]);
        }
    }
}

proof fn lemma_decimal_digits(n: nat)
    ensures
        spec_decimal(n).len() > 0,
        all_digits(spec_decimal(n)),
        digits_value(spec_decimal(n)) == n,
        n > 0 ==> spec_decimal(n)[0] != '0',
        n == 0 ==> spec_decimal(n) == seq!['0'],
    decreases n,
{
    let last = (n % 10) as nat;
    assert(digit_value(digit_char(last)) == last);
    if n < 10 {
        assert(spec_decimal(n) == seq![digit_char(n)]);
        assert(seq![digit_char(n)].drop_last() =~= Seq::<char>::empty());
        assert(digits_value(spec_decimal(n)) == digits_value(Seq::<char>::empty()) * 10 + digit_value(
            digit_char(n),
        ));
    } else {
        lemma_decimal_digits(n / 10);
        let d = spec_decimal(n / 10);
        assert(spec_decimal(n) == d.push(digit_char(last)));
        assert(d.push(digit_char(last)).drop_last() =~= d);
        assert(d.push(digit_char(last)).last() == digit_char(last));
        assert(digits_value(spec_decimal(n)) == digits_value(d) * 10 + digit_value(digit_char(last)));
        assert((n / 10) * 10 + last == n);
    }
}

proof fn lemma_leading_digits_append(d: Seq<char>, r: Seq<char>)
    requires
        all_digits(d),
    ensures
        leading_digits(d + r) == d.len() + leading_digits(r),
    decreases d.len(),
{
    if d.len() > 0 {
        assert((d + r)[0] == d[0]);
        assert((d + r).drop_first() =~= d.drop_first() + r);
        assert forall|i: int| 0 <= i < d.drop_first().len() implies '0' <= #[trigger] d.drop_first()[i] <= '9' by {
            assert(d.drop_first()[i] == d[i + 1]);
        }
        lemma_leading_digits_append(d.drop_first(), r);
    } else {
        assert(d + r =~= r);
    }
}

proof fn lemma_trailing_split(s: Seq<char>)
    ensures
        trailing_zeros(s) <= s.len(),
        s.take(s.len() - trailing_zeros(s)) + zeros(trailing_zeros(s)) == s,
        s.len() > 0 && s[0] != '0' ==> trailing_zeros(s) < s.len(),
    decreases s.len(),
{
    if s.len() > 0 && s.last() == '0' {
        let p = s.drop_last();
        lemma_trailing_split(p);
        assert(s.take(s.len() - trailing_zeros(s)) =~= p.take(p.len() - trailing_zeros(p)));
        assert(zeros(trailing_zeros(s)) =~= zeros(trailing_zeros(p)).push('0'));
        assert(s =~= p.push('0'));
        if s.len() > 0 && s[0] != '0' && p.len() > 0 {
            assert(p[0] == s[0]);
        }
    } else {
        assert(s.take(s.len() as int) =~= s);
        assert(zeros(0) =~= Seq::<char>::empty());
        assert(s + Seq::<char>::empty() =~= s);
    }
}

/// The printing of a natural number's decimal digits, followed by `extra`
/// (nothing, or `.0`).
proof fn lemma_prints_whole(n: nat, extra: Seq<char>)
    requires
        n < i64_magnitude_limit(),
        extra == Seq::<char>::empty() || extra == seq!['.', '0'],
    ensures
        number_text(spec_decimal(n) + extra) == spec_decimal(n),
{
    lemma_decimal_digits(n);
    let d = spec_decimal(n);
    let t = d + extra;
    assert(t[0] == d[0]);
    assert('0' <= t[0] <= '9');
    assert(unsigned_part(t) == t);
    assert(lowered(t).len() == t.len());
    assert(lowered(t)[0] == t[0]);
    assert(lowered(t) != "inf"@ && lowered(t) != "infinity"@ && lowered(t) != "nan"@) by {
        reveal_strlit("inf");
        reveal_strlit("infinity");
        reveal_strlit("nan");
    }
    lemma_leading_digits_append(d, extra);
    assert(t.skip(d.len() as int) =~= extra);
    let mant = if extra.len() == 0 {
        d
    } else {
        d.push('0')
    };
    if extra.len() == 0 {
        assert(leading_digits(extra) == 0);
        assert(is_decimal_number(t));
        assert(exp_part(t).len() == 0);
        assert(mantissa(t) =~= d);
    } else {
        assert(extra[0] == '.');
        assert(leading_digits(extra) == 0) by {
            assert(!is_digit(extra[0]));
        }
        assert(after_point(t) =~= seq!['0']);
        assert(seq!['0'].drop_first() =~= Seq::<char>::empty());
        let z = seq!['0'];
        assert(z[0] == '0');
        assert(z.drop_first() =~= Seq::<char>::empty());
        assert(leading_digits(Seq::<char>::empty()) == 0);
        assert(leading_digits(z) == 1);
        assert(frac_part(t) =~= seq!['0']);
        assert(exp_part(t) =~= Seq::<char>::empty());
        let rest = t.skip(leading_digits(t) as int);
        assert(rest == extra);
        assert(rest.drop_first() =~= z);
        assert(z.skip(1) =~= Seq::<char>::empty());
        assert(is_decimal_number(t));
        assert(mantissa(t) =~= d.push('0'));
        assert(d.push('0').drop_last() =~= d);
    }
    assert(mantissa(t) == mant);
    if n == 0 {
        assert(d == seq!['0']);
        assert(mant[0] == '0');
        assert forall|j: int| 0 <= j < mant.len() implies #[trigger] mant[j] == '0' by {
            if extra.len() > 0 && j == 1 {
                assert(mant[1] == '0');
            }
        }
        lemma_leading_zeros(mant, mant.len() as int);
        assert(unpadded(mant).len() == 0);
        assert(significant(mant).len() == 0);
    } else {
        assert(mant[0] == d[0]);
        assert(leading_zeros(mant) == 0);
        assert(unpadded(mant) =~= mant);
        lemma_trailing_split(d);
        let z = trailing_zeros(d);
        if extra.len() > 0 {
            assert(trailing_zeros(mant) == 1 + z);
            assert(mant.take(mant.len() - trailing_zeros(mant)) =~= d.take(d.len() - z));
        }
        assert(significant(mant) == d.take(d.len() - z));
        assert(scale(t) == z);
        assert(significant(mant) + zeros(z) == d);
    }
}

/// A number prints by its value: a whole number within the range of an
/// `i64`, written in decimal or written with a point and a zero after it,
/// prints as its decimal digits (so `3` and `3.0` both print `3`).
pub proof fn law_whole_number_prints_as_integer(n: nat)
    requires
        n < i64_magnitude_limit(),
    ensures
        render(Value::Number(spec_decimal(n))) == spec_decimal(n),
        render(Value::Number(spec_decimal(n) + seq!['.', '0'])) == spec_decimal(n),
{
    lemma_prints_whole(n, Seq::empty());
    assert(spec_decimal(n) + Seq::<char>::empty() =~= spec_decimal(n));
    lemma_prints_whole(n, seq!['.', '0']);
}

/// In debug mode a registered call whose arguments cannot be read stops
/// rendering, with the error placed where it was found in the arguments.
pub proof fn law_debug_call_error_stops(
    c: TextCompiler,
    log: Seq<AnswerModel>,
    text: Seq<char>,
    file_name: Seq<char>,
    file_key: Seq<char>,
    message: Seq<char>,
    index: int,
)
    requires
        c.debug_mode,
        pattern_compiles(c.syntax.include_pattern()),
        pattern_compiles(c.syntax.function_pattern()),
        pattern_scan(c.syntax.include_pattern(), text).len() == 0,
        pattern_scan(c.syntax.function_pattern(), text).len() > 0,
        c.function_names().contains(or_empty(pattern_scan(c.syntax.function_pattern(), text)[0].2)),
        args_value(c, or_empty(pattern_scan(c.syntax.function_pattern(), text)[0].3)) == Err::<
            Seq<Value>,
            ArgsFailure,
        >(ArgsFailure::Syntax(message, index)),
    ensures
        compile_outcome(c, log, text, file_name, file_key) == OutcomeModel::Failed(
            error_at(
                text,
                file_name,
                args_start(c, pattern_scan(c.syntax.function_pattern(), text)[0]) + index,
                message,
            ),
        ),
{
    let stack = if file_name != input_name() {
        seq![file_key]
    } else {
        Seq::empty()
    };
    let includes = pattern_scan(c.syntax.include_pattern(), text);
    assert(rest_after(text, includes) =~= text);
    assert(Seq::<char>::empty() + text =~= text);
    assert(expand_includes(c, log, text, file_name, stack, 0) == (Ok::<Seq<char>, Stop>(text), 0int));
}

proof fn lemma_tokens_values(c: TextCompiler, parts: Seq<Seq<char>>)
    ensures
        tokens_value(c, parts) matches Ok(values) ==> values.len() == parts.len() && forall|i: int|
            0 <= i < parts.len() ==> token_value(c, #[trigger] parts[i]) == Ok::<Value, FaultModel>(values[i]),
        (forall|i: int| 0 <= i < parts.len() ==> #[trigger] token_value(c, parts[i]) is Ok) ==> tokens_value(
            c,
            parts,
        ) is Ok,
    decreases parts.len(),
{
    if parts.len() > 0 {
        let p = parts.drop_last();
        lemma_tokens_values(c, p);
        assert forall|i: int| 0 <= i < p.len() implies #[trigger] p[i] == parts[i] by {}
        if let Ok(values) = tokens_value(c, parts) {
            assert forall|i: int| 0 <= i < parts.len() implies token_value(c, #[trigger] parts[i]) == Ok::<
                Value,
                FaultModel,
            >(values[i]) by {
                if i < parts.len() - 1 {
                    assert(p[i] == parts[i]);
                }
            }
        }
        if forall|i: int| 0 <= i < parts.len() ==> #[trigger] token_value(c, parts[i]) is Ok {
            assert forall|i: int| 0 <= i < p.len() implies #[trigger] token_value(c, p[i]) is Ok by {
                assert(p[i] == parts[i]);
                assert(token_value(c, parts[i]) is Ok);
            }
            assert(token_value(c, parts[parts.len() - 1]) is Ok);
        }
    }
}

/// The pieces of an argument text that stand for arguments: the texts between
/// top-level commas, but for a blank last one.
pub open spec fn argument_pieces(s: Seq<char>) -> Seq<Seq<char>> {
    let st = scan_text(s, ',');
    if trimmed(st.current).len() == 0 {
        st.parts
    } else {
        st.parts.push(st.current)
    }
}

/// The arguments of a call are its pieces, read one by one: a blank argument
/// text gives none; otherwise the `i`-th argument is the value of the `i`-th
/// piece between top-level commas (`null` where it is blank), a blank last
/// piece being left out.
pub proof fn law_arguments_are_their_pieces(c: TextCompiler, s: Seq<char>)
    ensures
        trimmed(s).len() == 0 ==> args_value(c, s) == Ok::<Seq<Value>, ArgsFailure>(Seq::empty()),
        args_value(c, s) matches Ok(values) ==> values.len() == argument_pieces(s).len() && forall|i: int|
            0 <= i < values.len() ==> token_value(c, #[trigger] argument_pieces(s)[i]) == Ok::<
                Value,
                FaultModel,
            >(values[i]),
{
    if trimmed(s).len() == 0 {
        lemma_blank_has_no_pieces(s);
    }
    let st = scan_text(s, ',');
    lemma_tokens_values(c, st.parts);
    if trimmed(s).len() > 0 {
        if let Ok(values) = args_value(c, s) {
            let tokens = tokens_value(c, st.parts)->Ok_0;
            let pieces = argument_pieces(s);
            assert forall|i: int| 0 <= i < values.len() implies token_value(c, #[trigger] pieces[i]) == Ok::<
                Value,
                FaultModel,
            >(values[i]) by {
                if i < st.parts.len() {
                    assert(pieces[i] == st.parts[i]);
                    assert(values[i] == tokens[i]);
                } else {
                    assert(pieces[i] == st.current);
                }
            }
        }
    }
}

/// The syntax error that reading the arguments `s` reports, with the
/// position, where its reading ends on one.
pub open spec fn argument_error(s: Seq<char>) -> Option<(Seq<char>, int)> {
    let st = scan_text(s, ',');
    match scan_error(st) {
        Some(SplitError::UnexpectedClosingBracket) => Some(
            ("Unexpected closing bracket in function arguments"@, st.unexpected_close->0),
        ),
        Some(SplitError::UnclosedBracket) => Some(("Unclosed bracket in function arguments"@, s.len() as int)),
        Some(SplitError::UnclosedString) => Some(
            ("Unclosed string literal in function arguments"@, s.len() as int),
        ),
        Some(SplitError::TrailingEscape) => Some(
            ("Trailing escape character in function arguments"@, s.len() as int),
        ),
        None => None,
    }
}

/// Where every argument reads, the arguments of a call fail to read exactly
/// when their reading ends on an unexpected closing bracket, or on an
/// unclosed bracket, string or escape, checked in that order, with the
/// message and position of that error.
pub proof fn law_argument_errors(c: TextCompiler, s: Seq<char>)
    requires
        forall|i: int|
            0 <= i < argument_pieces(s).len() ==> #[trigger] token_value(c, argument_pieces(s)[i]) is Ok,
    ensures
        match argument_error(s) {
            Some((message, index)) => args_value(c, s) == Err::<Seq<Value>, ArgsFailure>(
                ArgsFailure::Syntax(message, index),
            ),
            None => args_value(c, s) is Ok,
        },
{
    if trimmed(s).len() == 0 {
        lemma_blank_has_no_pieces(s);
    }
    let st = scan_text(s, ',');
    let pieces = argument_pieces(s);
    assert forall|i: int| 0 <= i < st.parts.len() implies #[trigger] token_value(c, st.parts[i]) is Ok by {
        assert(pieces[i] == st.parts[i]);
    }
    lemma_tokens_values(c, st.parts);
    if trimmed(st.current).len() > 0 {
        assert(pieces[st.parts.len() as int] == st.current);
        assert(token_value(c, pieces[st.parts.len() as int]) is Ok);
    }
}

/// An include that resolves to a file not already being rendered, and whose
/// file reads and renders, is replaced by the rendered file, with the text
/// around it unchanged.
pub proof fn law_include_replaced_by_rendered_file(
    c: TextCompiler,
    log: Seq<AnswerModel>,
    text: Seq<char>,
    file_name: Seq<char>,
    stack: Seq<Seq<char>>,
    path: Seq<char>,
    key: Seq<char>,
    content: Seq<char>,
)
    requires
        pattern_compiles(c.syntax.include_pattern()),
        pattern_scan(c.syntax.include_pattern(), text).len() == 1,
        log.len() >= 2,
        log[0] == AnswerModel::Resolved(path, key),
        !stack.contains(key),
        log[1] == AnswerModel::Loaded(Ok(content)),
    ensures
        ({
            let f = pattern_scan(c.syntax.include_pattern(), text)[0];
            let nested = compile_text(c, log, content, path, stack.push(key), 2);
            nested.0 is Ok ==> expand_includes(c, log, text, file_name, stack, 0) == (
                Ok::<Seq<char>, Stop>(
                    text.subrange(0, match_start(f)) + nested.0->Ok_0 + text.subrange(
                        match_end(f),
                        text.len() as int,
                    ),
                ),
                resume(2, nested.1, log.len() as int),
            )
        }),
{
    let found = pattern_scan(c.syntax.include_pattern(), text);
    let nested = compile_text(c, log, content, path, stack.push(key), 2);
    if let Ok(v) = nested.0 {
        let before = Seq::<char>::empty() + gap(text, found, 0);
        assert(before + v + rest_after(text, found) =~= text.subrange(0, match_start(found[0])) + v
            + text.subrange(match_end(found[0]), text.len() as int));
    }
}

proof fn lemma_items(c: TextCompiler, parts: Seq<Seq<char>>, bound: int)
    requires
        forall|k: int| 0 <= k < parts.len() ==> #[trigger] parts[k].len() < bound,
    ensures
        items_value(c, parts, bound) matches Ok(values) ==> values.len() == parts.len() && forall|i: int|
            0 <= i < parts.len() ==> item_is(c, #[trigger] parts[i], values[i]),
    decreases parts.len(),
{
    if parts.len() > 0 {
        let p = parts.drop_last();
        assert forall|k: int| 0 <= k < p.len() implies #[trigger] p[k].len() < bound by {
            assert(p[k] == parts[k]);
        }
        lemma_items(c, p, bound);
        if let Ok(values) = items_value(c, parts, bound) {
            assert(parts.last().len() < bound);
            assert forall|i: int| 0 <= i < parts.len() implies item_is(c, #[trigger] parts[i], values[i]) by {
                if i < parts.len() - 1 {
                    assert(p[i] == parts[i]);
                }
            }
        }
    }
}

/// Whether `v` is the value of the list item `p`: `null` for an empty item,
/// otherwise what the item stands for as an argument.
pub open spec fn item_is(c: TextCompiler, p: Seq<char>, v: Value) -> bool {
    if p.len() == 0 {
        v == Value::Null
    } else {
        argument_value(c, p) == Ok::<Value, FaultModel>(v)
    }
}

/// A list is its items: the `i`-th value of a list read from a text is the
/// value of the `i`-th piece between the top-level commas inside its
/// brackets (`null` for an empty piece).
pub proof fn law_list_is_its_items(c: TextCompiler, x: Seq<char>)
    ensures
        list_value(c, x) matches Ok(Some(Value::List(values))) ==> ({
            let t = trimmed(x);
            let inner = t.subrange(1, t.len() - 1);
            &&& split_spec(inner, ',') is Ok
            &&& values.len() == split_spec(inner, ',')->Ok_0.len()
            &&& forall|i: int|
                0 <= i < values.len() ==> item_is(c, #[trigger] split_spec(inner, ',')->Ok_0[i], values[i])
        }),
{
    let t = trimmed(x);
    lemma_trimmed_len(x);
    if t.len() >= 2 {
        let inner = t.subrange(1, t.len() - 1);
        lemma_split_bounded(inner, ',');
        if let Ok(parts) = split_spec(inner, ',') {
            lemma_items(c, parts, x.len() as int);
        }
    }
}

proof fn lemma_trim_end_empty(r: Seq<char>)
    requires
        trim_end(r).len() == 0,
    ensures
        forall|i: int| 0 <= i < r.len() ==> is_white_space(#[trigger] r[i]),
    decreases r.len(),
{
    if r.len() > 0 {
        let p = r.drop_last();
        lemma_trim_end_empty(p);
        assert forall|i: int| 0 <= i < r.len() implies is_white_space(#[trigger] r[i]) by {
            if i < r.len() - 1 {
                assert(r[i] == p[i]);
            } else {
                assert(r[i] == r.last());
            }
        }
    }
}

proof fn lemma_trim_start_suffix(s: Seq<char>)
    ensures
        trim_start(s).len() <= s.len(),
        trim_start(s) == s.skip(s.len() - trim_start(s).len()),
        forall|i: int| 0 <= i < s.len() - trim_start(s).len() ==> is_white_space(#[trigger] s[i]),
    decreases s.len(),
{
    if s.len() > 0 && is_white_space(s[0]) {
        let p = s.drop_first();
        lemma_trim_start_suffix(p);
        assert(p.skip(p.len() - trim_start(p).len()) =~= s.skip(s.len() - trim_start(s).len()));
        assert forall|i: int| 0 <= i < s.len() - trim_start(s).len() implies is_white_space(#[trigger] s[i]) by {
            if i > 0 {
                assert(s[i] == p[i - 1]);
            }
        }
    } else {
        assert(s.skip(0) =~= s);
    }
}

/// A blank text is white space throughout.
proof fn lemma_blank_is_white(s: Seq<char>)
    requires
        trimmed(s).len() == 0,
    ensures
        forall|i: int| 0 <= i < s.len() ==> is_white_space(#[trigger] s[i]),
{
    lemma_trim_start_suffix(s);
    let r = trim_start(s);
    lemma_trim_end_empty(r);
    assert forall|i: int| 0 <= i < s.len() implies is_white_space(#[trigger] s[i]) by {
        if i >= s.len() - r.len() {
            assert(s[i] == r[i - (s.len() - r.len())]);
        }
    }
}

/// Reading a text of white space at commas gathers it all into one piece.
proof fn lemma_white_scan(s: Seq<char>, n: int)
    requires
        0 <= n <= s.len(),
        forall|i: int| 0 <= i < s.len() ==> is_white_space(#[trigger] s[i]),
    ensures
        scan_prefix(s, ',', n) == (ScanState { current: s.take(n), ..scan_start() }),
    decreases n,
{
    if n > 0 {
        lemma_white_scan(s, n - 1);
        let c = s[n - 1];
        assert(is_white_space(c));
        assert(c != '\\' && c != '\'' && c != '"' && c != ',' && !is_opening(c) && !is_closing(c));
        assert(s.take(n - 1).push(c) =~= s.take(n));
    } else {
        assert(s.take(0) =~= Seq::<char>::empty());
    }
}

/// A blank argument text has no pieces.
proof fn lemma_blank_has_no_pieces(s: Seq<char>)
    requires
        trimmed(s).len() == 0,
    ensures
        argument_pieces(s).len() == 0,
        argument_error(s) is None,
{
    lemma_blank_is_white(s);
    lemma_white_scan(s, s.len() as int);
    assert(s.take(s.len() as int) =~= s);
}

/// Whether a dictionary entry makes a text no dictionary: it is not empty,
/// and it does not split at a top-level colon into exactly a key and a
/// value, or its key is empty.
pub open spec fn entry_rejected(e: Seq<char>) -> bool {
    e.len() > 0 && match split_spec(e, ':') {
        Err(_) => true,
        Ok(pair) => pair.len() != 2 || unquoted(trimmed(pair[0])).len() == 0,
    }
}

proof fn lemma_entries_rejected(c: TextCompiler, entries: Seq<Seq<char>>, bound: int)
    ensures
        entries_value(c, entries, bound) is Ok ==> (entries_value(c, entries, bound) == Ok::<
            Option<Seq<(Seq<char>, Value)>>,
            FaultModel,
        >(None) <==> exists|i: int| 0 <= i < entries.len() && entry_rejected(#[trigger] entries[i])),
    decreases entries.len(),
{
    if entries.len() > 0 {
        let p = entries.drop_last();
        lemma_entries_rejected(c, p, bound);
        if entries_value(c, entries, bound) is Ok {
            if exists|i: int| 0 <= i < p.len() && entry_rejected(#[trigger] p[i]) {
                let i = choose|i: int| 0 <= i < p.len() && entry_rejected(#[trigger] p[i]);
                assert(entries[i] == p[i]);
            }
            if exists|i: int| 0 <= i < entries.len() && entry_rejected(#[trigger] entries[i]) {
                let i = choose|i: int| 0 <= i < entries.len() && entry_rejected(#[trigger] entries[i]);
                if i < entries.len() - 1 {
                    assert(p[i] == entries[i]);
                }
            }
            assert(entries.last() == entries[entries.len() - 1]);
        }
    }
}

/// When a text is no dictionary: where reading it as a dictionary meets no
/// fault, it is none exactly when, once trimmed, it is not enclosed in `{`
/// and `}`, or its inside does not split at top-level commas, or one of its
/// entries is rejected (see `entry_rejected`).
pub proof fn law_when_no_dictionary(c: TextCompiler, x: Seq<char>)
    requires
        dict_value(c, x) is Ok,
    ensures
        ({
            let t = trimmed(x);
            let inner = t.subrange(1, t.len() - 1);
            dict_value(c, x) == Ok::<Option<Value>, FaultModel>(None) <==> {
                ||| !enclosed(t, '{', '}')
                ||| split_spec(inner, ',') is Err
                ||| exists|i: int|
                    0 <= i < split_spec(inner, ',')->Ok_0.len() && entry_rejected(
                        #[trigger] split_spec(inner, ',')->Ok_0[i],
                    )
            }
        }),
{
    let t = trimmed(x);
    if enclosed(t, '{', '}') {
        let inner = t.subrange(1, t.len() - 1);
        if let Ok(entries) = split_spec(inner, ',') {
            lemma_entries_rejected(c, entries, x.len() as int);
        }
    }
}

proof fn lemma_trim_start_first(s: Seq<char>)
    ensures
        trim_start(s).len() > 0 ==> !is_white_space(trim_start(s)[0]),
    decreases s.len(),
{
    if s.len() > 0 && is_white_space(s[0]) {
        lemma_trim_start_first(s.drop_first());
    }
}

proof fn lemma_trim_end_prefix(r: Seq<char>)
    ensures
        trim_end(r).len() <= r.len(),
        trim_end(r) == r.take(trim_end(r).len() as int),
        trim_end(r).len() > 0 ==> !is_white_space(trim_end(r).last()),
    decreases r.len(),
{
    if r.len() > 0 && is_white_space(r.last()) {
        let p = r.drop_last();
        lemma_trim_end_prefix(p);
        assert(p.take(trim_end(p).len() as int) =~= r.take(trim_end(r).len() as int));
    } else {
        assert(r.take(r.len() as int) =~= r);
    }
}

/// Trimming a trimmed text changes nothing.
pub proof fn lemma_trimmed_twice(s: Seq<char>)
    ensures
        trimmed(trimmed(s)) == trimmed(s),
{
    let r = trim_start(s);
    let t = trim_end(r);
    lemma_trim_start_first(s);
    lemma_trim_end_prefix(r);
    if t.len() > 0 {
        assert(t[0] == r[0]);
        assert(trim_start(t) == t);
        assert(trim_end(t) == t);
    } else {
        assert(trim_start(t) == t);
        assert(trim_end(t) == t);
    }
}

/// The pieces of a split: none for a blank text, otherwise one more than the
/// top-level separators, each already trimmed.
pub proof fn law_split_pieces(text: Seq<char>, separator: char)
    ensures
        split_spec(text, separator) matches Ok(pieces) ==> {
            &&& trimmed(text).len() == 0 ==> pieces.len() == 0
            &&& trimmed(text).len() > 0 ==> pieces.len() == scan_text(text, separator).parts.len() + 1
            &&& forall|i: int| 0 <= i < pieces.len() ==> trimmed(#[trigger] pieces[i]) == pieces[i]
        },
{
    if let Ok(pieces) = split_spec(text, separator) {
        if trimmed(text).len() > 0 {
            let st = scan_text(text, separator);
            let all = st.parts.push(st.current);
            assert forall|i: int| 0 <= i < pieces.len() implies trimmed(#[trigger] pieces[i]) == pieces[i] by {
                assert(pieces[i] == trimmed(all[i]));
                lemma_trimmed_twice(all[i]);
            }
        }
    }
}

/// Reading white space never ends on an error.
proof fn lemma_white_scan_clean(s: Seq<char>, separator: char, n: int)
    requires
        0 <= n <= s.len(),
        forall|i: int| 0 <= i < s.len() ==> is_white_space(#[trigger] s[i]),
    ensures
        ({
            let st = scan_prefix(s, separator, n);
            &&& st.unexpected_close is None
            &&& st.depth == 0
            &&& !st.in_single
            &&& !st.in_double
            &&& !st.escape_next
        }),
    decreases n,
{
    if n > 0 {
        lemma_white_scan_clean(s, separator, n - 1);
        let c = s[n - 1];
        assert(is_white_space(c));
        assert(c != '\\' && c != '\'' && c != '"' && !is_opening(c) && !is_closing(c));
    }
}

/// A split fails exactly when reading the text ends on an error: an
/// unexpected closing bracket, an unclosed bracket, an unclosed string or a
/// trailing escape, checked in that order.
pub proof fn law_split_errors(text: Seq<char>, separator: char)
    ensures
        split_spec(text, separator) is Err <==> scan_error(scan_text(text, separator)) is Some,
        split_spec(text, separator) matches Err(e) ==> scan_error(scan_text(text, separator)) == Some(e),
{
    if trimmed(text).len() == 0 {
        lemma_blank_is_white(text);
        lemma_white_scan_clean(text, separator, text.len() as int);
    }
}

/// Whether no two entries have the same key.
pub open spec fn distinct_keys(entries: Seq<(Seq<char>, Value)>) -> bool {
    forall|i: int, j: int| 0 <= i < j < entries.len() ==> #[trigger] entries[i].0 != #[trigger] entries[j].0
}

/// Storing a value under a name keeps the keys of a map of variables (or of
/// a dictionary) distinct: each name is held at most once.
pub proof fn law_keys_stay_distinct(entries: Seq<(Seq<char>, Value)>, name: Seq<char>, value: Value)
    requires
        distinct_keys(entries),
    ensures
        distinct_keys(inserted(entries, name, value)),
{
    lemma_key_index(entries, name);
    let after = inserted(entries, name, value);
    match key_index(entries, name) {
        Some(k) => {
            assert forall|i: int, j: int| 0 <= i < j < after.len() implies #[trigger] after[i].0
                != #[trigger] after[j].0 by {
                assert(after[i].0 == entries[i].0);
                assert(after[j].0 == entries[j].0);
            }
        },
        None => {
            assert forall|i: int, j: int| 0 <= i < j < after.len() implies #[trigger] after[i].0
                != #[trigger] after[j].0 by {
                assert(after[i] == entries[i]);
                if j < entries.len() {
                    assert(after[j] == entries[j]);
                }
            }
        },
    }
}

/// Includes nest no deeper than there are files: rendering an include adds
/// the key of its file to the include stack only where the key is not on it
/// already (see `includes_from`), so a stack of distinct keys stays distinct
/// and is never longer than the set of files its keys are drawn from.
pub proof fn law_include_depth_bounded(stack: Seq<Seq<char>>, key: Seq<char>, files: Set<Seq<char>>)
    requires
        stack.no_duplicates(),
        !stack.contains(key),
        files.finite(),
        files.contains(key),
        forall|i: int| 0 <= i < stack.len() ==> files.contains(#[trigger] stack[i]),
    ensures
        stack.push(key).no_duplicates(),
        stack.push(key).len() <= files.len(),
{
    let pushed = stack.push(key);
    assert forall|i: int, j: int| 0 <= i < pushed.len() && 0 <= j < pushed.len() && i != j implies pushed[i]
        != pushed[j] by {
        if i < stack.len() && j < stack.len() {
            assert(pushed[i] == stack[i] && pushed[j] == stack[j]);
        } else if i < stack.len() {
            assert(pushed[i] == stack[i]);
        } else {
            assert(pushed[j] == stack[j]);
        }
    }
    pushed.unique_seq_to_set();
    assert forall|x: Seq<char>| pushed.to_set().contains(x) implies files.contains(x) by {
        let i = choose|i: int| 0 <= i < pushed.len() && pushed[i] == x;
        if i < stack.len() {
            assert(pushed[i] == stack[i]);
        }
    }
    vstd::set_lib::lemma_len_subset(pushed.to_set(), files);
}

/// The faults that reading an argument can meet: the variable pattern does
/// not compile, or an argument (or a list item or dictionary value) is a
/// lone quote character.
pub open spec fn argument_fault(c: TextCompiler, f: FaultModel) -> bool {
    ||| f == FaultModel::InvalidPattern(PatternRole::Variable, variable_regex(c.syntax))
    ||| f == FaultModel::LoneQuote(seq!['"'])
    ||| f == FaultModel::LoneQuote(seq!['\''])
}

proof fn lemma_argument_fault(c: TextCompiler, a: Seq<char>)
    ensures
        argument_value(c, a) matches Err(f) ==> argument_fault(c, f),
    decreases a.len(), 2int, 0int,
{
    lemma_trimmed_len(a);
    let t = trimmed(a);
    if pattern_compiles(variable_regex(c.syntax)) {
        lemma_scanned_fault(c, t, pattern_scan(variable_regex(c.syntax), t));
    }
}

proof fn lemma_scanned_fault(
    c: TextCompiler,
    t: Seq<char>,
    found: Seq<(Seq<char>, Seq<char>, Option<Seq<char>>, Option<Seq<char>>)>,
)
    ensures
        scanned_value(c, t, found) matches Err(f) ==> argument_fault(c, f),
    decreases t.len(), 1int, 1int,
{
    lemma_list_fault(c, t);
    lemma_dict_fault(c, t);
    if t.len() == 1 {
        assert(t =~= seq![t[0]]);
    }
}

proof fn lemma_list_fault(c: TextCompiler, x: Seq<char>)
    ensures
        list_value(c, x) matches Err(f) ==> argument_fault(c, f),
    decreases x.len(), 1int, 0int,
{
    lemma_trimmed_len(x);
    let t = trimmed(x);
    if enclosed(t, '[', ']') {
        if let Ok(parts) = split_spec(t.subrange(1, t.len() - 1), ',') {
            lemma_items_fault(c, parts, x.len() as int);
        }
    }
}

proof fn lemma_items_fault(c: TextCompiler, parts: Seq<Seq<char>>, bound: int)
    ensures
        items_value(c, parts, bound) matches Err(f) ==> argument_fault(c, f),
    decreases bound, 0int, parts.len(),
{
    if parts.len() > 0 {
        lemma_items_fault(c, parts.drop_last(), bound);
        let p = parts.last();
        if 0 < p.len() < bound {
            lemma_argument_fault(c, p);
        }
    }
}

proof fn lemma_dict_fault(c: TextCompiler, x: Seq<char>)
    ensures
        dict_value(c, x) matches Err(f) ==> argument_fault(c, f),
    decreases x.len(), 1int, 0int,
{
    lemma_trimmed_len(x);
    let t = trimmed(x);
    if enclosed(t, '{', '}') {
        if let Ok(entries) = split_spec(t.subrange(1, t.len() - 1), ',') {
            lemma_entries_fault(c, entries, x.len() as int);
        }
    }
}

proof fn lemma_entries_fault(c: TextCompiler, entries: Seq<Seq<char>>, bound: int)
    ensures
        entries_value(c, entries, bound) matches Err(f) ==> argument_fault(c, f),
    decreases bound, 0int, entries.len(),
{
    if entries.len() > 0 {
        lemma_entries_fault(c, entries.drop_last(), bound);
        let e = entries.last();
        if let Ok(pair) = split_spec(e, ':') {
            if pair.len() == 2 {
                let ve = trimmed(pair[1]);
                if 0 < ve.len() < bound {
                    lemma_argument_fault(c, ve);
                }
            }
        }
    }
}

proof fn lemma_tokens_fault(c: TextCompiler, parts: Seq<Seq<char>>)
    ensures
        tokens_value(c, parts) matches Err(f) ==> argument_fault(c, f),
    decreases parts.len(),
{
    if parts.len() > 0 {
        lemma_tokens_fault(c, parts.drop_last());
        lemma_argument_fault(c, trimmed(parts.last()));
    }
}

/// Reading arguments meets no fault but two: the variable pattern does not
/// compile, or an argument, list item or dictionary value is a lone quote
/// character. Any other argument text reads to a value or a syntax error.
pub proof fn law_argument_faults(c: TextCompiler, a: Seq<char>, s: Seq<char>)
    ensures
        argument_value(c, a) matches Err(f) ==> argument_fault(c, f),
        args_value(c, s) matches Err(ArgsFailure::Fault(f)) ==> argument_fault(c, f),
{
    lemma_argument_fault(c, a);
    let st = scan_text(s, ',');
    lemma_tokens_fault(c, st.parts);
    lemma_argument_fault(c, trimmed(st.current));
}

/// The pieces joined, with the separator between each two.
pub open spec fn joined(parts: Seq<Seq<char>>, separator: char) -> Seq<char>
    decreases parts.len(),
{
    if parts.len() == 0 {
        Seq::empty()
    } else if parts.len() == 1 {
        parts[0]
    } else {
        joined(parts.drop_last(), separator).push(separator) + parts.last()
    }
}

/// The text without its white space.
pub open spec fn dewhite(s: Seq<char>) -> Seq<char>
    decreases s.len(),
{
    if s.len() == 0 {
        Seq::empty()
    } else if is_white_space(s.last()) {
        dewhite(s.drop_last())
    } else {
        dewhite(s.drop_last()).push(s.last())
    }
}

/// A separator that is no white space, quote, backslash or bracket.
pub open spec fn plain_separator(separator: char) -> bool {
    &&& !is_white_space(separator)
    &&& separator != '\'' && separator != '"' && separator != '\\'
    &&& !is_opening(separator) && !is_closing(separator)
}

/// Whether the `i`-th character of `text` is a separator outside quotes, at
/// bracket depth 0 and not escaped.
pub open spec fn top_separator_at(text: Seq<char>, separator: char, i: int) -> bool {
    let st = scan_prefix(text, separator, i);
    &&& st.unexpected_close is None
    &&& !st.escape_next && !st.in_single && !st.in_double
    &&& st.depth == 0
    &&& text[i] == separator
}

/// How many of the first `n` characters are such separators.
pub open spec fn top_separators(text: Seq<char>, separator: char, n: int) -> nat
    decreases n,
{
    if n <= 0 {
        0
    } else {
        top_separators(text, separator, n - 1) + if top_separator_at(text, separator, n - 1) {
            1nat
        } else {
            0nat
        }
    }
}

proof fn lemma_joined_push_char(ps: Seq<Seq<char>>, x: Seq<char>, c: char, separator: char)
    ensures
        joined(ps.push(x.push(c)), separator) == joined(ps.push(x), separator).push(c),
{
    assert(ps.push(x.push(c)).drop_last() =~= ps);
    assert(ps.push(x).drop_last() =~= ps);
    if ps.len() > 0 {
        assert(joined(ps, separator).push(separator) + x.push(c) =~= (joined(ps, separator).push(separator)
            + x).push(c));
    }
}

proof fn lemma_scan_joined(text: Seq<char>, separator: char, n: int)
    requires
        0 <= n <= text.len(),
        plain_separator(separator),
        scan_prefix(text, separator, n).unexpected_close is None,
    ensures
        joined(
            scan_prefix(text, separator, n).parts.push(scan_prefix(text, separator, n).current),
            separator,
        ) == text.take(n),
        scan_prefix(text, separator, n).parts.len() == top_separators(text, separator, n),
    decreases n,
{
    if n == 0 {
        assert(text.take(0) =~= Seq::<char>::empty());
        assert(Seq::<Seq<char>>::empty().push(Seq::<char>::empty())[0] == Seq::<char>::empty());
    } else {
        let prev = scan_prefix(text, separator, n - 1);
        let c = text[n - 1];
        assert(prev.unexpected_close is None);
        lemma_scan_joined(text, separator, n - 1);
        let st = scan_prefix(text, separator, n);
        assert(text.take(n) =~= text.take(n - 1).push(c));
        if top_separator_at(text, separator, n - 1) {
            assert(st.parts == prev.parts.push(prev.current));
            assert(st.current.len() == 0);
            let ps = st.parts;
            assert(ps.push(st.current).drop_last() =~= ps);
            assert(ps.len() > 0);
            assert(joined(ps.push(st.current), separator) =~= joined(ps, separator).push(separator));
        } else {
            assert(st.parts == prev.parts);
            assert(st.current == prev.current.push(c));
            lemma_joined_push_char(prev.parts, prev.current, c, separator);
        }
    }
}

proof fn lemma_dewhite_add(a: Seq<char>, b: Seq<char>)
    ensures
        dewhite(a + b) == dewhite(a) + dewhite(b),
    decreases b.len(),
{
    if b.len() == 0 {
        assert(a + b =~= a);
        assert(dewhite(a) + Seq::<char>::empty() =~= dewhite(a));
    } else {
        lemma_dewhite_add(a, b.drop_last());
        assert((a + b).drop_last() =~= a + b.drop_last());
        assert((a + b).last() == b.last());
        if !is_white_space(b.last()) {
            assert(dewhite(a) + dewhite(b.drop_last()).push(b.last()) =~= (dewhite(a) + dewhite(
                b.drop_last(),
            )).push(b.last()));
        }
    }
}

proof fn lemma_dewhite_trimmed(s: Seq<char>)
    ensures
        dewhite(trimmed(s)) == dewhite(s),
{
    lemma_dewhite_trim_start(s);
    lemma_dewhite_trim_end(trim_start(s));
}

proof fn lemma_dewhite_trim_start(s: Seq<char>)
    ensures
        dewhite(trim_start(s)) == dewhite(s),
    decreases s.len(),
{
    if s.len() > 0 && is_white_space(s[0]) {
        let rest = s.drop_first();
        lemma_dewhite_trim_start(rest);
        assert(s =~= seq![s[0]] + rest);
        lemma_dewhite_add(seq![s[0]], rest);
        assert(seq![s[0]].drop_last() =~= Seq::<char>::empty());
        assert(seq![s[0]].last() == s[0]);
        assert(dewhite(Seq::<char>::empty()) == Seq::<char>::empty());
        assert(dewhite(seq![s[0]]) =~= Seq::<char>::empty());
        assert(Seq::<char>::empty() + dewhite(rest) =~= dewhite(rest));
    }
}

proof fn lemma_dewhite_trim_end(s: Seq<char>)
    ensures
        dewhite(trim_end(s)) == dewhite(s),
    decreases s.len(),
{
    if s.len() > 0 && is_white_space(s.last()) {
        lemma_dewhite_trim_end(s.drop_last());
    }
}

proof fn lemma_dewhite_joined_trimmed(ps: Seq<Seq<char>>, separator: char)
    requires
        !is_white_space(separator),
    ensures
        dewhite(joined(ps.map_values(|p: Seq<char>| trimmed(p)), separator)) == dewhite(joined(ps, separator)),
    decreases ps.len(),
{
    let m = ps.map_values(|p: Seq<char>| trimmed(p));
    if ps.len() == 1 {
        lemma_dewhite_trimmed(ps[0]);
    } else if ps.len() > 1 {
        let q = ps.drop_last();
        lemma_dewhite_joined_trimmed(q, separator);
        assert(m.drop_last() =~= q.map_values(|p: Seq<char>| trimmed(p)));
        assert(m.last() == trimmed(ps.last()));
        let jm = joined(m.drop_last(), separator);
        let jp = joined(q, separator);
        lemma_dewhite_add(jm.push(separator), trimmed(ps.last()));
        lemma_dewhite_add(jp.push(separator), ps.last());
        assert(jm.push(separator).drop_last() =~= jm);
        assert(jp.push(separator).drop_last() =~= jp);
        lemma_dewhite_trimmed(ps.last());
    }
}

proof fn lemma_dewhite_blank(s: Seq<char>)
    requires
        forall|i: int| 0 <= i < s.len() ==> is_white_space(#[trigger] s[i]),
    ensures
        dewhite(s).len() == 0,
    decreases s.len(),
{
    if s.len() > 0 {
        assert(is_white_space(s[s.len() - 1]));
        assert forall|i: int| 0 <= i < s.drop_last().len() implies is_white_space(#[trigger] s.drop_last()[i]) by {
            assert(s.drop_last()[i] == s[i]);
        }
        lemma_dewhite_blank(s.drop_last());
    }
}

/// With a separator that is no white space, quote, backslash or bracket, a
/// split gives back its text: the pieces, joined with the separator, are
/// the text apart from white space; and there is one piece more than there
/// are separators outside quotes, at bracket depth 0 and not escaped (none
/// for a blank text).
pub proof fn law_split_gives_back_the_text(text: Seq<char>, separator: char)
    requires
        plain_separator(separator),
    ensures
        split_spec(text, separator) matches Ok(pieces) ==> {
            &&& dewhite(joined(pieces, separator)) == dewhite(text)
            &&& trimmed(text).len() == 0 ==> pieces.len() == 0
            &&& trimmed(text).len() > 0 ==> pieces.len() == top_separators(text, separator, text.len() as int) + 1
        },
{
    if let Ok(pieces) = split_spec(text, separator) {
        if trimmed(text).len() == 0 {
            lemma_blank_is_white(text);
            lemma_dewhite_blank(text);
        } else {
            let st = scan_text(text, separator);
            lemma_scan_joined(text, separator, text.len() as int);
            assert(text.take(text.len() as int) =~= text);
            lemma_dewhite_joined_trimmed(st.parts.push(st.current), separator);
        }
    }
}

/// A lone quote character.
pub open spec fn lone_quote(t: Seq<char>) -> bool {
    t == seq!['"'] || t == seq!['\'']
}

/// Whether the text is a list one of whose non-empty items fails to read.
pub open spec fn item_fails(c: TextCompiler, t: Seq<char>) -> bool {
    &&& enclosed(t, '[', ']')
    &&& split_spec(t.subrange(1, t.len() - 1), ',') matches Ok(parts)
    &&& exists|i: int| 0 <= i < parts.len() && parts[i].len() > 0 && #[trigger] argument_value(c, parts[i]) is Err
}

/// Whether a dictionary entry has a non-empty value that fails to read.
pub open spec fn entry_value_fails(c: TextCompiler, e: Seq<char>) -> bool {
    &&& split_spec(e, ':') matches Ok(pair)
    &&& pair.len() == 2
    &&& trimmed(pair[1]).len() > 0
    &&& argument_value(c, trimmed(pair[1])) is Err
}

/// Whether the text is a dictionary one of whose entries has a value that
/// fails to read.
pub open spec fn entry_fails(c: TextCompiler, t: Seq<char>) -> bool {
    &&& enclosed(t, '{', '}')
    &&& split_spec(t.subrange(1, t.len() - 1), ',') matches Ok(entries)
    &&& exists|i: int| 0 <= i < entries.len() && #[trigger] entry_value_fails(c, entries[i])
}

proof fn lemma_items_err(c: TextCompiler, parts: Seq<Seq<char>>, bound: int)
    ensures
        items_value(c, parts, bound) is Err ==> exists|i: int|
            0 <= i < parts.len() && parts[i].len() > 0 && #[trigger] argument_value(c, parts[i]) is Err,
    decreases parts.len(),
{
    if parts.len() > 0 {
        let p = parts.drop_last();
        lemma_items_err(c, p, bound);
        if items_value(c, parts, bound) is Err {
            if items_value(c, p, bound) is Err {
                let i = choose|i: int| 0 <= i < p.len() && p[i].len() > 0 && #[trigger] argument_value(c, p[i]) is Err;
                assert(parts[i] == p[i]);
            } else {
                assert(parts[parts.len() - 1] == parts.last());
                assert(argument_value(c, parts[parts.len() - 1]) is Err);
            }
        }
    }
}

proof fn lemma_entries_err(c: TextCompiler, entries: Seq<Seq<char>>, bound: int)
    ensures
        entries_value(c, entries, bound) is Err ==> exists|i: int|
            0 <= i < entries.len() && #[trigger] entry_value_fails(c, entries[i]),
    decreases entries.len(),
{
    if entries.len() > 0 {
        let p = entries.drop_last();
        lemma_entries_err(c, p, bound);
        if entries_value(c, entries, bound) is Err {
            if entries_value(c, p, bound) is Err {
                let i = choose|i: int| 0 <= i < p.len() && #[trigger] entry_value_fails(c, p[i]);
                assert(entries[i] == p[i]);
            } else {
                assert(entries[entries.len() - 1] == entries.last());
                assert(entry_value_fails(c, entries[entries.len() - 1]));
            }
        }
    }
}

/// Where the variable pattern compiles, reading an argument fails only on a
/// lone quote character, or on a list item or dictionary value that itself
/// fails to read (so a fault always comes from a lone quote, at some depth).
/// In particular an argument that is neither a lone quote nor enclosed in
/// brackets or braces always reads to a value.
pub proof fn law_argument_fails_only_on_a_lone_quote(c: TextCompiler, a: Seq<char>)
    requires
        pattern_compiles(variable_regex(c.syntax)),
    ensures
        argument_value(c, a) is Err ==> {
            ||| lone_quote(trimmed(a))
            ||| item_fails(c, trimmed(a))
            ||| entry_fails(c, trimmed(a))
        },
        !lone_quote(trimmed(a)) && !enclosed(trimmed(a), '[', ']') && !enclosed(trimmed(a), '{', '}')
            ==> argument_value(c, a) is Ok,
{
    let t = trimmed(a);
    lemma_trimmed_len(a);
    lemma_trimmed_twice(a);
    assert(trimmed(t) == t);
    assert(argument_value(c, a) == scanned_value(c, t, pattern_scan(variable_regex(c.syntax), t)));
    if enclosed(t, '[', ']') {
        if let Ok(parts) = split_spec(t.subrange(1, t.len() - 1), ',') {
            lemma_items_err(c, parts, t.len() as int);
        }
    }
    if enclosed(t, '{', '}') {
        if let Ok(entries) = split_spec(t.subrange(1, t.len() - 1), ',') {
            lemma_entries_err(c, entries, t.len() as int);
        }
    }
    if t.len() == 1 {
        assert(t =~= seq![t[0]]);
    }
}

/// Whether the match is a call of a registered function whose arguments
/// can be read.
pub open spec fn callable(c: TextCompiler, f: (Seq<char>, Seq<char>, Option<Seq<char>>, Option<Seq<char>>)) -> bool {
    c.function_names().contains(or_empty(f.2)) && args_value(c, or_empty(f.3)) is Ok
}

/// How many of the matches from the `k`-th to before the `j`-th are calls
/// that can be made.
pub open spec fn calls_before(
    c: TextCompiler,
    found: Seq<(Seq<char>, Seq<char>, Option<Seq<char>>, Option<Seq<char>>)>,
    k: int,
    j: int,
) -> nat
    decreases j - k,
{
    if k >= j {
        0
    } else {
        (if callable(c, found[k]) {
            1nat
        } else {
            0nat
        }) + calls_before(c, found, k + 1, j)
    }
}

/// What takes the place of a call that was answered: the printed value
/// where a value was returned, otherwise the call itself.
pub open spec fn answer_text(a: AnswerModel, f: (Seq<char>, Seq<char>, Option<Seq<char>>, Option<Seq<char>>)) -> Seq<char> {
    match a {
        AnswerModel::Returned(v) => render(v),
        _ => f.1,
    }
}

/// The text from the `k`-th match on, each call that can be made replaced by
/// what its answer, taken in order from position `pos`, gives, and every
/// other match left as it stands.
pub open spec fn outputs_from(
    c: TextCompiler,
    log: Seq<AnswerModel>,
    text: Seq<char>,
    found: Seq<(Seq<char>, Seq<char>, Option<Seq<char>>, Option<Seq<char>>)>,
    k: nat,
    pos: int,
) -> Seq<char>
    decreases found.len() - k,
{
    if k >= found.len() {
        rest_after(text, found)
    } else if callable(c, found[k as int]) {
        gap(text, found, k as int) + answer_text(log[pos], found[k as int]) + outputs_from(
            c,
            log,
            text,
            found,
            (k + 1) as nat,
            pos + 1,
        )
    } else {
        gap(text, found, k as int) + found[k as int].1 + outputs_from(c, log, text, found, (k + 1) as nat, pos)
    }
}

/// Calls are made in the order they are found, one answer each; a finished
/// replacement is the text between the matches with each call that could be
/// made replaced by its answer (its printed value, or itself where it
/// failed) and every other match left as it stands; and where more work is
/// needed, it is the next call that can be made, with its argument values.
pub proof fn law_calls_in_order(
    c: TextCompiler,
    log: Seq<AnswerModel>,
    text: Seq<char>,
    file_name: Seq<char>,
    found: Seq<(Seq<char>, Seq<char>, Option<Seq<char>>, Option<Seq<char>>)>,
    k: nat,
    out: Seq<char>,
    pos: int,
)
    requires
        0 <= pos <= log.len(),
    ensures
        calls_from(c, log, text, file_name, found, k, out, pos) matches (Ok(r), end) ==> r == out + outputs_from(
            c,
            log,
            text,
            found,
            k,
            pos,
        ) && end == pos + calls_before(c, found, k as int, found.len() as int),
        calls_from(c, log, text, file_name, found, k, out, pos).0 matches Err(Stop::Need(q)) ==> exists|j: int|
            k <= j < found.len() && #[trigger] callable(c, found[j]) && pos + calls_before(c, found, k as int, j)
                == log.len() && q == RequestModel::Call(or_empty(found[j].2), args_value(c, or_empty(found[j].3))->Ok_0),
    decreases found.len() - k,
{
    if k < found.len() {
        let f = found[k as int];
        let before = out + gap(text, found, k as int);
        if callable(c, f) {
            if pos < log.len() {
                if log[pos] is Returned || log[pos] is CallFailed {
                    let next = if log[pos] is Returned {
                        before + render(log[pos]->Returned_0)
                    } else {
                        before + f.1
                    };
                    law_calls_in_order(c, log, text, file_name, found, (k + 1) as nat, next, pos + 1);
                    assert(next + outputs_from(c, log, text, found, (k + 1) as nat, pos + 1) =~= out
                        + outputs_from(c, log, text, found, k, pos));
                    if let Err(Stop::Need(q)) = calls_from(c, log, text, file_name, found, k, out, pos).0 {
                        let j = choose|j: int|
                            k + 1 <= j < found.len() && #[trigger] callable(c, found[j]) && pos + 1
                                + calls_before(c, found, k + 1int, j) == log.len() && q == RequestModel::Call(
                                or_empty(found[j].2),
                                args_value(c, or_empty(found[j].3))->Ok_0,
                            );
                        assert(calls_before(c, found, k as int, j) == 1 + calls_before(c, found, k + 1int, j));
                    }
                }
            } else {
                assert(calls_before(c, found, k as int, k as int) == 0);
            }
        } else {
            law_calls_in_order(c, log, text, file_name, found, (k + 1) as nat, before + f.1, pos);
            assert(before + f.1 + outputs_from(c, log, text, found, (k + 1) as nat, pos) =~= out + outputs_from(
                c,
                log,
                text,
                found,
                k,
                pos,
            ));
            if let Err(Stop::Need(q)) = calls_from(c, log, text, file_name, found, k, out, pos).0 {
                let j = choose|j: int|
                    k + 1 <= j < found.len() && #[trigger] callable(c, found[j]) && pos + calls_before(c, found, k + 1int,
                        j,
                    ) == log.len() && q == RequestModel::Call(
                        or_empty(found[j].2),
                        args_value(c, or_empty(found[j].3))->Ok_0,
                    );
                assert(calls_before(c, found, k as int, j) == calls_before(c, found, k + 1int, j));
            }
        }
    } else {
        assert(out + rest_after(text, found) == out + outputs_from(c, log, text, found, k, pos));
    }
}

/// The error of a call whose arguments cannot be read: the message, placed
/// at the start of the arguments plus the position found in them.
pub open spec fn call_error(
    c: TextCompiler,
    text: Seq<char>,
    file_name: Seq<char>,
    f: (Seq<char>, Seq<char>, Option<Seq<char>>, Option<Seq<char>>),
) -> Option<ErrorModel> {
    if c.function_names().contains(or_empty(f.2)) {
        match args_value(c, or_empty(f.3)) {
            Err(ArgsFailure::Syntax(message, index)) => Some(
                error_at(text, file_name, args_start(c, f) + index, message),
            ),
            _ => None,
        }
    } else {
        None
    }
}

/// A call whose arguments cannot be read has its error at the start of its
/// arguments plus the position found in them (`call_error`), in either mode:
/// in debug mode that error stops rendering and no later call is asked for;
/// outside it the call is left as it stands and rendering goes on.
pub proof fn law_call_error(
    c: TextCompiler,
    log: Seq<AnswerModel>,
    text: Seq<char>,
    file_name: Seq<char>,
    found: Seq<(Seq<char>, Seq<char>, Option<Seq<char>>, Option<Seq<char>>)>,
    k: nat,
    out: Seq<char>,
    pos: int,
)
    requires
        k < found.len(),
        call_error(c, text, file_name, found[k as int]) is Some,
    ensures
        c.debug_mode ==> calls_from(c, log, text, file_name, found, k, out, pos) == (
            Err::<Seq<char>, Stop>(Stop::Failed(call_error(c, text, file_name, found[k as int])->0)),
            pos,
        ),
        !c.debug_mode ==> calls_from(c, log, text, file_name, found, k, out, pos) == calls_from(
            c,
            log,
            text,
            file_name,
            found,
            (k + 1) as nat,
            out + gap(text, found, k as int) + found[k as int].1,
            pos,
        ),
{
}

/// What stops rendering, in debug mode, at a call whose answer (if it needs
/// one) is at position `pos`: an argument error, or the failure of the
/// function.
pub open spec fn call_stop(
    c: TextCompiler,
    log: Seq<AnswerModel>,
    text: Seq<char>,
    file_name: Seq<char>,
    f: (Seq<char>, Seq<char>, Option<Seq<char>>, Option<Seq<char>>),
    pos: int,
) -> Option<ErrorModel> {
    if call_error(c, text, file_name, f) is Some {
        call_error(c, text, file_name, f)
    } else if callable(c, f) && 0 <= pos < log.len() && log[pos] is CallFailed {
        Some(
            error_at(
                text,
                file_name,
                match_start(f),
                call_failed_message(or_empty(f.2), log[pos]->CallFailed_0),
            ),
        )
    } else {
        None
    }
}

/// Whether a match, in debug mode, lets rendering go on: it calls no
/// registered function, or it is a call that can be made and its answer, at
/// position `pos`, is a returned value.
pub open spec fn goes_on(
    c: TextCompiler,
    log: Seq<AnswerModel>,
    f: (Seq<char>, Seq<char>, Option<Seq<char>>, Option<Seq<char>>),
    pos: int,
) -> bool {
    ||| !c.function_names().contains(or_empty(f.2))
    ||| callable(c, f) && 0 <= pos < log.len() && log[pos] is Returned
}

proof fn lemma_first_failing_call(
    c: TextCompiler,
    log: Seq<AnswerModel>,
    text: Seq<char>,
    file_name: Seq<char>,
    found: Seq<(Seq<char>, Seq<char>, Option<Seq<char>>, Option<Seq<char>>)>,
    j: nat,
    k: nat,
    out: Seq<char>,
    pos: int,
)
    requires
        c.debug_mode,
        k <= j < found.len(),
        0 <= pos,
        forall|i: int|
            k <= i < j ==> #[trigger] goes_on(c, log, found[i], pos + calls_before(c, found, k as int, i)),
        call_stop(c, log, text, file_name, found[j as int], pos + calls_before(c, found, k as int, j as int))
            is Some,
    ensures
        calls_from(c, log, text, file_name, found, k, out, pos).0 == Err::<Seq<char>, Stop>(
            Stop::Failed(
                call_stop(
                    c,
                    log,
                    text,
                    file_name,
                    found[j as int],
                    pos + calls_before(c, found, k as int, j as int),
                )->0,
            ),
        ),
    decreases j - k,
{
    let f = found[k as int];
    let before = out + gap(text, found, k as int);
    if k < j {
        assert(goes_on(c, log, f, pos + calls_before(c, found, k as int, k as int)));
        let step: int = if callable(c, f) {
            1
        } else {
            0
        };
        let next = if callable(c, f) {
            before + render(log[pos]->Returned_0)
        } else {
            before + f.1
        };
        assert forall|i: int| k + 1 <= i <= j implies calls_before(c, found, k as int, i) == step
            + calls_before(c, found, k + 1int, i) by {}
        assert forall|i: int| k + 1 <= i < j implies #[trigger] goes_on(
            c,
            log,
            found[i],
            pos + step + calls_before(c, found, k + 1int, i),
        ) by {
            assert(goes_on(c, log, found[i], pos + calls_before(c, found, k as int, i)));
        }
        lemma_first_failing_call(c, log, text, file_name, found, j, (k + 1) as nat, next, pos + step);
    }
}

/// In debug mode the first failing call stops rendering: where every call
/// before it either calls no registered function or is made and returns a
/// value, the first call whose arguments cannot be read, or whose function
/// fails, ends rendering with its error, and no later call is asked for.
pub proof fn law_first_failing_call_stops(
    c: TextCompiler,
    log: Seq<AnswerModel>,
    text: Seq<char>,
    file_name: Seq<char>,
    found: Seq<(Seq<char>, Seq<char>, Option<Seq<char>>, Option<Seq<char>>)>,
    j: nat,
)
    requires
        c.debug_mode,
        j < found.len(),
        forall|i: int| 0 <= i < j ==> #[trigger] goes_on(c, log, found[i], calls_before(c, found, 0, i) as int),
        call_stop(c, log, text, file_name, found[j as int], calls_before(c, found, 0, j as int) as int) is Some,
    ensures
        calls_from(c, log, text, file_name, found, 0, Seq::empty(), 0).0 == Err::<Seq<char>, Stop>(
            Stop::Failed(call_stop(c, log, text, file_name, found[j as int], calls_before(c, found, 0, j as int) as int)->0),
        ),
{
    assert forall|i: int| 0 <= i < j implies #[trigger] goes_on(c, log, found[i], 0int + calls_before(c, found, 0, i)) by {
        assert(goes_on(c, log, found[i], calls_before(c, found, 0, i) as int));
    }
    lemma_first_failing_call(c, log, text, file_name, found, j, 0, Seq::empty(), 0);
}

/// In debug mode an error stops the whole rendering: an error while
/// expanding includes is the rendering's error, and no call is asked for;
/// otherwise rendering is the replacing of calls in the expanded text,
/// which a failing call stops (see `law_first_failing_call_stops`).
pub proof fn law_debug_include_error_stops(
    c: TextCompiler,
    log: Seq<AnswerModel>,
    text: Seq<char>,
    file_name: Seq<char>,
    stack: Seq<Seq<char>>,
    pos: int,
)
    requires
        0 <= pos <= log.len(),
    ensures
        expand_includes(c, log, text, file_name, stack, pos) matches (Err(Stop::Failed(e)), p) ==> compile_text(
            c,
            log,
            text,
            file_name,
            stack,
            pos,
        ) == (Err::<Seq<char>, Stop>(Stop::Failed(e)), p),
        expand_includes(c, log, text, file_name, stack, pos) matches (Ok(processed), p) ==> compile_text(
            c,
            log,
            text,
            file_name,
            stack,
            pos,
        ) == expand_calls(c, log, processed, file_name, p),
{
}

proof fn lemma_decimal_starts_plain(u: Seq<char>)
    requires
        is_decimal_number(u),
    ensures
        u.len() > 0,
        is_digit(u[0]) || u[0] == '.',
        unsigned_part(u) == u,
        lowered(u) != "inf"@ && lowered(u) != "infinity"@ && lowered(u) != "nan"@,
{
    if leading_digits(u) == 0 {
        assert(u.skip(0) =~= u);
    }
    assert(lowered(u)[0] == u[0]);
    reveal_strlit("inf");
    reveal_strlit("infinity");
    reveal_strlit("nan");
}

/// A number written with a minus sign prints with it: for every decimal
/// text `u` that prints as neither `0` nor the largest `i64` (where the
/// negative saturates differently), `-u` prints as `-` followed by what `u`
/// prints as; and `+u` prints as `u` does.
pub proof fn law_negative_number_keeps_its_sign(u: Seq<char>)
    requires
        is_decimal_number(u),
    ensures
        number_text(u) != seq!['0'] && number_text(u) != spec_decimal((i64_magnitude_limit() - 1) as nat)
            ==> number_text(seq!['-'] + u) == seq!['-'] + number_text(u),
        number_text(seq!['+'] + u) == number_text(u),
{
    lemma_decimal_starts_plain(u);
    let neg = seq!['-'] + u;
    let pos = seq!['+'] + u;
    assert(neg[0] == '-');
    assert(neg.drop_first() =~= u);
    assert(unsigned_part(neg) == u);
    assert(pos[0] == '+');
    assert(pos.drop_first() =~= u);
    assert(unsigned_part(pos) == u);
    assert(u[0] != '-');
}

/// A leading sign does not change whether a text is a number: for a text
/// `u` with no sign of its own, `-u` and `+u` are numbers exactly when `u`
/// is one.
pub proof fn law_sign_keeps_a_number_a_number(u: Seq<char>)
    requires
        u.len() == 0 || (u[0] != '-' && u[0] != '+'),
    ensures
        is_float_text(seq!['-'] + u) == is_float_text(u),
        is_float_text(seq!['+'] + u) == is_float_text(u),
{
    let neg = seq!['-'] + u;
    let pos = seq!['+'] + u;
    assert(neg[0] == '-');
    assert(neg.drop_first() =~= u);
    assert(pos[0] == '+');
    assert(pos.drop_first() =~= u);
    assert(unsigned_part(u) == u);
}

/// The text from the `k`-th include on, with the `j`-th include replaced by
/// `vs[j]` and the text between includes kept once.
pub open spec fn interleaved(
    text: Seq<char>,
    found: Seq<(Seq<char>, Seq<char>, Option<Seq<char>>, Option<Seq<char>>)>,
    vs: Seq<Seq<char>>,
    k: nat,
) -> Seq<char>
    decreases found.len() - k,
{
    if k >= found.len() {
        rest_after(text, found)
    } else {
        gap(text, found, k as int) + vs[k as int] + interleaved(text, found, vs, (k + 1) as nat)
    }
}

/// Whether the `k`-th include, whose answers start at `ps[k]`, resolves to a
/// file not on the include stack, which reads and renders as `vs[k]`, the
/// next include's answers starting where that rendering's end.
pub open spec fn include_renders(
    c: TextCompiler,
    log: Seq<AnswerModel>,
    stack: Seq<Seq<char>>,
    ps: Seq<int>,
    vs: Seq<Seq<char>>,
    k: int,
) -> bool {
    let p = ps[k];
    &&& 0 <= p && p + 1 < log.len()
    &&& log[p] is Resolved
    &&& !stack.contains(log[p]->Resolved_1)
    &&& log[p + 1] is Loaded
    &&& log[p + 1]->Loaded_0 is Ok
    &&& {
        let nested = compile_text(
            c,
            log,
            log[p + 1]->Loaded_0->Ok_0,
            log[p]->Resolved_0,
            stack.push(log[p]->Resolved_1),
            p + 2,
        );
        &&& nested.0 == Ok::<Seq<char>, Stop>(vs[k])
        &&& ps[k + 1] == resume(p + 2, nested.1, log.len() as int)
    }
}

proof fn lemma_includes_interleaved(
    c: TextCompiler,
    log: Seq<AnswerModel>,
    text: Seq<char>,
    file_name: Seq<char>,
    stack: Seq<Seq<char>>,
    found: Seq<(Seq<char>, Seq<char>, Option<Seq<char>>, Option<Seq<char>>)>,
    ps: Seq<int>,
    vs: Seq<Seq<char>>,
    k: nat,
    out: Seq<char>,
)
    requires
        ps.len() == found.len() + 1,
        vs.len() == found.len(),
        k <= found.len(),
        0 <= ps[k as int] <= log.len(),
        forall|j: int| k <= j < found.len() ==> #[trigger] include_renders(c, log, stack, ps, vs, j),
    ensures
        includes_from(c, log, text, file_name, stack, found, k, out, ps[k as int]) == (
            Ok::<Seq<char>, Stop>(out + interleaved(text, found, vs, k)),
            ps[found.len() as int],
        ),
    decreases found.len() - k,
{
    if k < found.len() {
        assert(include_renders(c, log, stack, ps, vs, k as int));
        let p = ps[k as int];
        let before = out + gap(text, found, k as int);
        lemma_includes_interleaved(c, log, text, file_name, stack, found, ps, vs, (k + 1) as nat, before
            + vs[k as int]);
        assert(before + vs[k as int] + interleaved(text, found, vs, (k + 1) as nat) =~= out + interleaved(
            text,
            found,
            vs,
            k,
        ));
    }
}

/// Includes are replaced in place, however many there are: where each
/// include resolves to a file not on the include stack, which reads and
/// renders, the expanded text is the text between the includes, each piece
/// kept once, with each include replaced by its rendered file.
pub proof fn law_includes_replaced_in_place(
    c: TextCompiler,
    log: Seq<AnswerModel>,
    text: Seq<char>,
    file_name: Seq<char>,
    stack: Seq<Seq<char>>,
    ps: Seq<int>,
    vs: Seq<Seq<char>>,
)
    requires
        pattern_compiles(c.syntax.include_pattern()),
        ps.len() == pattern_scan(c.syntax.include_pattern(), text).len() + 1,
        vs.len() == pattern_scan(c.syntax.include_pattern(), text).len(),
        0 <= ps[0] <= log.len(),
        forall|j: int|
            0 <= j < pattern_scan(c.syntax.include_pattern(), text).len() ==> #[trigger] include_renders(
                c,
                log,
                stack,
                ps,
                vs,
                j,
            ),
    ensures
        expand_includes(c, log, text, file_name, stack, ps[0]) == (
            Ok::<Seq<char>, Stop>(interleaved(text, pattern_scan(c.syntax.include_pattern(), text), vs, 0)),
            ps[ps.len() - 1],
        ),
{
    let found = pattern_scan(c.syntax.include_pattern(), text);
    lemma_includes_interleaved(c, log, text, file_name, stack, found, ps, vs, 0, Seq::empty());
    assert(Seq::<char>::empty() + interleaved(text, found, vs, 0) =~= interleaved(text, found, vs, 0));
}

/// Every attribute of a module whose name does not start with `_` is
/// registered under the namespace as `namespace.name`; one that starts with
/// `_` is not.
pub proof fn law_exported_names(as_name: Seq<char>, attribute: Seq<char>)
    ensures
        attribute.len() == 0 || attribute[0] != '_' ==> exported_name(as_name, attribute) == Some(
            as_name + seq!['.'] + attribute,
        ),
        attribute.len() > 0 && attribute[0] == '_' ==> exported_name(as_name, attribute) is None,
{
    reveal_strlit(".");
    assert("."@ == seq!['.']);
}

/// The regular expressions are built from the configured syntax: each is
/// the configured prefix, escaped, followed by the configured name pattern
/// (for functions and variables) in the first group.
pub proof fn law_patterns_follow_the_syntax(syntax: CompilerSyntax)
    ensures
        syntax.variable_pattern() == escaped(syntax.variable_prefix@) + seq!['('] + syntax.variable_name_pattern@
            + seq![')'],
        syntax.function_pattern().take(
            (escaped(syntax.function_prefix@).len() + 1 + syntax.function_name_pattern@.len() + 1) as int,
        ) == escaped(syntax.function_prefix@) + seq!['('] + syntax.function_name_pattern@ + seq![')'],
        syntax.include_pattern().take(escaped(syntax.include_prefix@).len() as int) == escaped(
            syntax.include_prefix@,
        ),
{
    reveal_strlit("(");
    reveal_strlit(")");
    reveal_strlit(")\\(([^)]*)\\)");
    reveal_strlit("\\(([^)]*)\\)");
    let f = syntax.function_pattern();
    let head = escaped(syntax.function_prefix@) + seq!['('] + syntax.function_name_pattern@ + seq![')'];
    assert(")\\(([^)]*)\\)"@ =~= seq![')'] + "\\(([^)]*)\\)"@);
    assert(f =~= head + "\\(([^)]*)\\)"@);
    assert(f.take(head.len() as int) =~= head);
    let i = syntax.include_pattern();
    assert(i.take(escaped(syntax.include_prefix@).len() as int) =~= escaped(syntax.include_prefix@));
}

proof fn lemma_leading_zeros_facts(s: Seq<char>)
    ensures
        leading_zeros(s) <= s.len(),
        forall|j: int| 0 <= j < leading_zeros(s) ==> #[trigger] s[j] == '0',
        leading_zeros(s) < s.len() ==> s[leading_zeros(s) as int] != '0',
    decreases s.len(),
{
    if s.len() > 0 && s[0] == '0' {
        let t = s.drop_first();
        lemma_leading_zeros_facts(t);
        assert forall|j: int| 0 <= j < leading_zeros(s) implies #[trigger] s[j] == '0' by {
            if j > 0 {
                assert(s[j] == t[j - 1]);
            }
        }
        if leading_zeros(s) < s.len() {
            assert(s[leading_zeros(s) as int] == t[leading_zeros(t) as int]);
        }
    }
}

/// How `d.f` reads as a decimal number: its mantissa is `d` then `f`, and
/// its value is that mantissa times `10^-len(f)` before trailing zeros go.
proof fn lemma_fraction_parts(d: Seq<char>, f: Seq<char>)
    requires
        all_digits(d),
        all_digits(f),
        d.len() > 0,
        f.len() > 0,
    ensures
        is_decimal_number(d + seq!['.'] + f),
        mantissa(d + seq!['.'] + f) == d + f,
        frac_part(d + seq!['.'] + f) == f,
        exp_part(d + seq!['.'] + f).len() == 0,
{
    let u = d + seq!['.'] + f;
    let pf = seq!['.'] + f;
    assert(u =~= d + pf);
    lemma_leading_digits_append(d, pf);
    assert(pf[0] == '.');
    assert(!is_digit(pf[0]));
    assert(leading_digits(pf) == 0);
    assert(leading_digits(u) == d.len());
    assert(u.skip(d.len() as int) =~= pf);
    assert(has_point(u));
    assert(after_point(u) =~= f);
    lemma_leading_digits_append(f, Seq::empty());
    assert(f + Seq::<char>::empty() =~= f);
    assert(leading_digits(Seq::<char>::empty()) == 0);
    assert(leading_digits(f) == f.len());
    assert(frac_part(u) =~= f);
    assert(exp_part(u) =~= Seq::<char>::empty());
    assert(pf.drop_first() =~= f);
    assert(f.skip(f.len() as int) =~= Seq::<char>::empty());
    assert(mantissa(u) =~= d + f);
}

proof fn lemma_fraction_digits_nonzero(d: Seq<char>, f: Seq<char>)
    requires
        d.len() > 0,
        d[0] != '0',
        f.len() > 0,
        f.last() != '0',
    ensures
        decimal_text(false, significant(d + f), trailing_zeros(unpadded(d + f)) - f.len()) == d + seq!['.'] + f,
        trailing_zeros(unpadded(d + f)) == 0,
{
    let m = d + f;
    assert(m.last() == f.last());
    assert(m[0] == d[0]);
    assert(leading_zeros(m) == 0);
    assert(unpadded(m) =~= m);
    assert(trailing_zeros(m) == 0);
    assert(significant(m) =~= m);
    assert(m.take(d.len() as int) =~= d);
    assert(m.skip(d.len() as int) =~= f);
}

proof fn lemma_fraction_digits_zero(f: Seq<char>)
    requires
        f.len() > 0,
        f.len() < 300,
        f.last() != '0',
    ensures
        decimal_text(false, significant(seq!['0'] + f), trailing_zeros(unpadded(seq!['0'] + f)) - f.len())
            == seq!['0'] + seq!['.'] + f,
        trailing_zeros(unpadded(seq!['0'] + f)) == 0,
{
    let m = seq!['0'] + f;
    lemma_leading_zeros_facts(f);
    let z = leading_zeros(f);
    if z == f.len() {
        assert(f[f.len() - 1] == '0');
    }
    assert(m[0] == '0');
    assert(m.drop_first() =~= f);
    assert(leading_zeros(m) == 1 + z);
    let sig = f.skip(z as int);
    assert(unpadded(m) =~= sig);
    assert(sig.last() == f.last());
    assert(trailing_zeros(sig) == 0);
    assert(significant(m) =~= sig);
    assert(zeros(z) =~= f.take(z as int));
    assert(f.take(z as int) + sig =~= f);
    assert(seq!['0', '.'] + zeros(z) + sig =~= seq!['0'] + seq!['.'] + f);
}

/// A number written with digits, a point and a fraction that does not end in
/// `0` (and no needless leading zero) prints as it is written, with or
/// without a minus sign.
pub proof fn law_fraction_prints_as_written(d: Seq<char>, f: Seq<char>)
    requires
        all_digits(d),
        all_digits(f),
        d.len() > 0,
        d[0] != '0' || d == seq!['0'],
        f.len() > 0,
        f.len() < 300,
        f.last() != '0',
    ensures
        number_text(d + seq!['.'] + f) == d + seq!['.'] + f,
        number_text(seq!['-'] + (d + seq!['.'] + f)) == seq!['-'] + (d + seq!['.'] + f),
{
    let u = d + seq!['.'] + f;
    lemma_fraction_parts(d, f);
    if d[0] != '0' {
        lemma_fraction_digits_nonzero(d, f);
    } else {
        lemma_fraction_digits_zero(f);
    }
    lemma_decimal_starts_plain(u);
    assert(scale(u) == trailing_zeros(unpadded(d + f)) - f.len());
    assert(number_text(u) == u);
    law_negative_number_keeps_its_sign(u);
    assert(u[d.len() as int] == '.');
    assert(u != seq!['0']);
    lemma_decimal_digits((i64_magnitude_limit() - 1) as nat);
    let top = spec_decimal((i64_magnitude_limit() - 1) as nat);
    if u == top {
        assert(top[d.len() as int] == '.');
        assert('0' <= top[d.len() as int] <= '9');
    }
}

/// How values print: `null` as nothing, booleans as `true` and `false`, a
/// string as itself, a list as its items' texts separated by `, ` inside
/// brackets, a dictionary as its `key: value` entries likewise inside braces.
pub proof fn law_values_print(s: Seq<char>, items: Seq<Value>, x: Value, entries: Seq<(Seq<char>, Value)>, key: Seq<char>)
    ensures
        render(Value::Null) == Seq::<char>::empty(),
        render(Value::Bool(true)) == "true"@,
        render(Value::Bool(false)) == "false"@,
        render(Value::Text(s)) == s,
        render(Value::List(Seq::empty())) == seq!['[', ']'],
        render(Value::List(seq![x])) == seq!['['] + render(x) + seq![']'],
        items.len() > 0 ==> render(Value::List(items.push(x))) == render(Value::List(items)).drop_last()
            + seq![',', ' '] + render(x) + seq![']'],
        render(Value::Dict(Seq::empty())) == seq!['{', '}'],
        render(Value::Dict(seq![(key, x)])) == seq!['{'] + key + seq![':', ' '] + render(x) + seq!['}'],
        entries.len() > 0 ==> render(Value::Dict(entries.push((key, x)))) == render(Value::Dict(entries)).drop_last()
            + seq![',', ' '] + key + seq![':', ' '] + render(x) + seq!['}'],
{
    reveal_strlit(", ");
    reveal_strlit(": ");
    assert(", "@ =~= seq![',', ' ']);
    assert(": "@ =~= seq![':', ' ']);
    assert(seq!['['] + Seq::<char>::empty() + seq![']'] =~= seq!['[', ']']);
    assert(seq!['{'] + Seq::<char>::empty() + seq!['}'] =~= seq!['{', '}']);
    assert(seq![x][0] == x);
    assert(seq![(key, x)][0] == (key, x));
    if items.len() > 0 {
        let w = items.push(x);
        assert(w.drop_last() =~= items);
        assert(w.last() == x);
        let r = seq!['['] + render_items(items) + seq![']'];
        assert(r.drop_last() =~= seq!['['] + render_items(items));
    }
    if entries.len() > 0 {
        let w = entries.push((key, x));
        assert(w.drop_last() =~= entries);
        assert(w.last() == (key, x));
        let r = seq!['{'] + render_entries(entries) + seq!['}'];
        assert(r.drop_last() =~= seq!['{'] + render_entries(entries));
    }
}

/// A namespace name is a non-empty identifier: it may start with a letter or
/// `_` but not with a digit, and letters, digits and `_` may follow.
pub proof fn law_namespace_names(s: Seq<char>, c: char)
    ensures
        !valid_as_name(Seq::empty()),
        (is_ascii_letter(c) || c == '_') ==> valid_as_name(seq![c]),
        is_ascii_digit(c) ==> !valid_as_name(seq![c] + s),
        valid_as_name(s) && (is_ascii_letter(c) || is_ascii_digit(c) || c == '_') ==> valid_as_name(s.push(c)),
        valid_as_name(s) && !(is_ascii_letter(c) || is_ascii_digit(c) || c == '_') ==> !valid_as_name(s.push(c)),
{
    assert((seq![c] + s)[0] == c);
    let t = s.push(c);
    assert(t[s.len() as int] == c);
    if s.len() > 0 {
        assert(t[0] == s[0]);
    }
    if valid_as_name(s) && (is_ascii_letter(c) || is_ascii_digit(c) || c == '_') {
        assert forall|i: int| 1 <= i < t.len() implies is_ascii_letter(#[trigger] t[i]) || is_ascii_digit(t[i])
            || t[i] == '_' by {
            if i < s.len() {
                assert(t[i] == s[i]);
            }
        }
    }
}

proof fn lemma_line_counts(s: Seq<char>)
    ensures
        newline_count(s) <= s.len(),
        last_line_start(s) <= s.len(),
    decreases s.len(),
{
    if s.len() > 0 {
        lemma_line_counts(s.drop_last());
    }
}

/// Lines and columns count from 1 at the start of a text; each character
/// moves one column to the right, and a line break moves to column 1 of the
/// next line.
pub proof fn law_lines_and_columns(text: Seq<char>, i: int)
    requires
        0 <= i < text.len(),
        text.len() + 2 <= usize::MAX,
    ensures
        line_of(text, 0) == 1,
        column_of(text, 0) == 1,
        text[i] == '\n' ==> line_of(text, i + 1) == line_of(text, i) + 1 && column_of(text, i + 1) == 1,
        text[i] != '\n' ==> line_of(text, i + 1) == line_of(text, i) && column_of(text, i + 1) == column_of(
            text,
            i,
        ) + 1,
{
    assert(text.take(0) =~= Seq::<char>::empty());
    let a = text.take(i);
    let b = text.take(i + 1);
    assert(b.drop_last() =~= a);
    assert(b.last() == text[i]);
    lemma_line_counts(a);
    lemma_line_counts(b);
}

/// Outside debug mode an include that fails is left as it stands and the
/// next one is expanded: one whose file is already on the include stack
/// (after its one answer), and one whose file cannot be read (after its two).
pub proof fn law_failed_include_left_in_place(
    c: TextCompiler,
    log: Seq<AnswerModel>,
    text: Seq<char>,
    file_name: Seq<char>,
    stack: Seq<Seq<char>>,
    found: Seq<(Seq<char>, Seq<char>, Option<Seq<char>>, Option<Seq<char>>)>,
    k: nat,
    out: Seq<char>,
    pos: int,
)
    requires
        !c.debug_mode,
        k < found.len(),
        0 <= pos,
        pos + 1 < log.len(),
        log[pos] is Resolved,
    ensures
        stack.contains(log[pos]->Resolved_1) ==> includes_from(c, log, text, file_name, stack, found, k, out, pos)
            == includes_from(
            c,
            log,
            text,
            file_name,
            stack,
            found,
            (k + 1) as nat,
            out + gap(text, found, k as int) + found[k as int].1,
            pos + 1,
        ),
        !stack.contains(log[pos]->Resolved_1) && log[pos + 1] is Loaded && log[pos + 1]->Loaded_0 is Err
            ==> includes_from(c, log, text, file_name, stack, found, k, out, pos) == includes_from(
            c,
            log,
            text,
            file_name,
            stack,
            found,
            (k + 1) as nat,
            out + gap(text, found, k as int) + found[k as int].1,
            pos + 2,
        ),
{
}

proof fn lemma_trimmed_plain(x: Seq<char>)
    requires
        x.len() > 0,
        !is_white_space(x[0]),
        !is_white_space(x.last()),
    ensures
        trimmed(x) == x,
{
    assert(trim_start(x) == x);
    assert(trim_end(x) == x);
}

/// What kind of value an argument is, where the variable pattern finds no
/// variable in it: a text in double or single quotes is the string between
/// them; a number (that is no boolean) is that number; `true` and `false`
/// are booleans. Where the pattern finds a variable that is set, the
/// argument is that variable's value.
pub proof fn law_argument_kinds(
    c: TextCompiler,
    s: Seq<char>,
    t: Seq<char>,
    found: Seq<(Seq<char>, Seq<char>, Option<Seq<char>>, Option<Seq<char>>)>,
    name: Seq<char>,
    v: Value,
)
    ensures
        scanned_value(c, seq!['"'] + s + seq!['"'], Seq::empty()) == Ok::<Value, FaultModel>(Value::Text(s)),
        scanned_value(c, seq!['\''] + s + seq!['\''], Seq::empty()) == Ok::<Value, FaultModel>(Value::Text(s)),
        is_float_text(t) && bool_text(t) is None ==> scanned_value(c, t, Seq::empty()) == Ok::<Value, FaultModel>(
            Value::Number(t),
        ),
        scanned_value(c, "true"@, Seq::empty()) == Ok::<Value, FaultModel>(Value::Bool(true)),
        scanned_value(c, "false"@, Seq::empty()) == Ok::<Value, FaultModel>(Value::Bool(false)),
        found.len() > 0 && found[0].2 == Some(name) && lookup(c.variables(), name) == Some(v) ==> scanned_value(
            c,
            t,
            found,
        ) == Ok::<Value, FaultModel>(v),
{
    reveal_strlit("true");
    reveal_strlit("false");
    reveal_strlit("inf");
    reveal_strlit("infinity");
    reveal_strlit("nan");
    lemma_quoted_value(c, s, '"');
    lemma_quoted_value(c, s, '\'');
}

proof fn lemma_quoted_value(c: TextCompiler, s: Seq<char>, q: char)
    requires
        q == '"' || q == '\'',
    ensures
        scanned_value(c, seq![q] + s + seq![q], Seq::empty()) == Ok::<Value, FaultModel>(Value::Text(s)),
{
    reveal_strlit("true");
    reveal_strlit("false");
    reveal_strlit("inf");
    reveal_strlit("infinity");
    reveal_strlit("nan");
    let t = seq![q] + s + seq![q];
    assert(t[0] == q);
    assert(t.last() == q);
    assert(t.len() >= 2);
    assert(unsigned_part(t) == t);
    assert(lowered(t)[0] == q);
    assert(leading_digits(t) == 0);
    assert(t.skip(0) =~= t);
    assert(!is_decimal_number(t));
    assert(!is_float_text(t));
    assert(bool_text(t) is None) by {
        if t == "true"@ {
            assert(t[0] == 't');
        }
        if t == "false"@ {
            assert(t[0] == 'f');
        }
    }
    lemma_trimmed_plain(t);
    assert(!enclosed(t, '[', ']'));
    assert(!enclosed(t, '{', '}'));
    assert(list_value(c, t) == Ok::<Option<Value>, FaultModel>(None));
    assert(dict_value(c, t) == Ok::<Option<Value>, FaultModel>(None));
    assert(t.subrange(1, t.len() - 1) =~= s);
}

/// Infinities print as `inf` or `-inf` and not-a-number as `NaN`, whichever
/// way they are spelled (in any case, with or without a sign).
pub proof fn law_special_numbers_print(u: Seq<char>)
    requires
        u.len() == 0 || (u[0] != '-' && u[0] != '+'),
    ensures
        lowered(u) == "inf"@ || lowered(u) == "infinity"@ ==> {
            &&& number_text(u) == "inf"@
            &&& number_text(seq!['+'] + u) == "inf"@
            &&& number_text(seq!['-'] + u) == "-inf"@
        },
        lowered(u) == "nan"@ ==> {
            &&& number_text(u) == "NaN"@
            &&& number_text(seq!['+'] + u) == "NaN"@
            &&& number_text(seq!['-'] + u) == "NaN"@
        },
{
    let neg = seq!['-'] + u;
    let pos = seq!['+'] + u;
    assert(neg[0] == '-');
    assert(neg.drop_first() =~= u);
    assert(pos[0] == '+');
    assert(pos.drop_first() =~= u);
    assert(unsigned_part(u) == u);
    reveal_strlit("inf");
    reveal_strlit("infinity");
    reveal_strlit("nan");
    if lowered(u) == "nan"@ {
        assert(lowered(u)[0] == 'n');
        assert(lowered(u) != "inf"@ && lowered(u) != "infinity"@);
    }
}

} // verus!
