//! Reading the arguments of a function call: variables, booleans, numbers,
//! lists, dictionaries and strings.
use vstd::prelude::*;
use crate::compiler::{Fault, FaultModel, PatternRole, TextCompiler, lookup, inserted};
use crate::literal::{bool_text, is_float_text, is_float_literal, parse_bool};
use crate::pattern::{Found, pattern_compiles, pattern_scan, scan_pattern, found_model};
use crate::splitter::{
    split_spec, split_top_level, lemma_split_bounded, pieces_model, scan_text, scan_top_level,
};
use crate::syntax::CompilerSyntax;
use crate::text::{chars_of, string_of, sub_chars, trim, trimmed, lemma_trimmed_len};
use crate::value::{DynamicValue, Value, list_model, lemma_list_model_push, dict_model};

verus! {

/// The regular expression that a whole argument must match to name a variable.
pub open spec fn variable_regex(syntax: CompilerSyntax) -> Seq<char> {
    "^"@ + syntax.variable_pattern() + "$"@
}

/// `v` without its enclosing quotes, where it starts and ends with the same
/// kind of quote and is at least two characters long.
pub open spec fn unquoted(v: Seq<char>) -> Seq<char> {
    if v.len() >= 2 && ((v[0] == '"' && v.last() == '"') || (v[0] == '\'' && v.last() == '\'')) {
        v.subrange(1, v.len() - 1)
    } else {
        v
    }
}

/// The value of the variable that the first match of the variable pattern
/// names, if it names one that is set.
pub open spec fn variable_value(
    c: TextCompiler,
    found: Seq<(Seq<char>, Seq<char>, Option<Seq<char>>, Option<Seq<char>>)>,
) -> Option<Value> {
    if found.len() > 0 {
        match found[0].2 {
            Some(name) => lookup(c.variables(), name),
            None => None,
        }
    } else {
        None
    }
}

/// A (trimmed) argument read as a string: the inside of a quoted text, or
/// the text itself.
pub open spec fn string_value(t: Seq<char>) -> Result<Value, FaultModel> {
    if t.len() > 0 && ((t[0] == '"' && t.last() == '"') || (t[0] == '\'' && t.last() == '\'')) {
        if t.len() == 1 {
            Err(FaultModel::LoneQuote(t))
        } else {
            Ok(Value::Text(t.subrange(1, t.len() - 1)))
        }
    } else {
        Ok(Value::Text(t))
    }
}

/// What an argument text stands for: the variable it names, a boolean, a
/// number, a list, a dictionary, or a string, tried in that order.
pub open spec fn argument_value(c: TextCompiler, a: Seq<char>) -> Result<Value, FaultModel>
    decreases a.len(), 2int, 0int,
{
    let t = trimmed(a);
    proof {
        lemma_trimmed_len(a);
    }
    if !pattern_compiles(variable_regex(c.syntax)) {
        Err(FaultModel::InvalidPattern(PatternRole::Variable, variable_regex(c.syntax)))
    } else {
        scanned_value(c, t, pattern_scan(variable_regex(c.syntax), t))
    }
}

/// What the trimmed argument text `t` stands for, given the matches of the
/// variable pattern in it (see `argument_value`).
pub open spec fn scanned_value(
    c: TextCompiler,
    t: Seq<char>,
    found: Seq<(Seq<char>, Seq<char>, Option<Seq<char>>, Option<Seq<char>>)>,
) -> Result<Value, FaultModel>
    decreases t.len(), 1int, 1int,
{
    if variable_value(c, found) is Some {
        Ok(variable_value(c, found)->0)
    } else if bool_text(t) is Some {
        Ok(Value::Bool(bool_text(t)->0))
    } else if is_float_text(t) {
        Ok(Value::Number(t))
    } else {
        match list_value(c, t) {
            Err(f) => Err(f),
            Ok(Some(v)) => Ok(v),
            Ok(None) => match dict_value(c, t) {
                Err(f) => Err(f),
                Ok(Some(v)) => Ok(v),
                Ok(None) => string_value(t),
            },
        }
    }
}

/// The inside of a text enclosed in `open` and `close`, once trimmed.
pub open spec fn enclosed(t: Seq<char>, open: char, close: char) -> bool {
    t.len() >= 2 && t[0] == open && t.last() == close
}

/// A text read as a list: `[` and `]` around items split at top-level commas.
pub open spec fn list_value(c: TextCompiler, x: Seq<char>) -> Result<Option<Value>, FaultModel>
    decreases x.len(), 1int, 0int,
{
    let t = trimmed(x);
    proof {
        lemma_trimmed_len(x);
    }
    if enclosed(t, '[', ']') {
        match split_spec(t.subrange(1, t.len() - 1), ',') {
            Err(_) => Ok(None),
            Ok(parts) => match items_value(c, parts, x.len() as int) {
                Err(f) => Err(f),
                Ok(values) => Ok(Some(Value::List(values))),
            },
        }
    } else {
        Ok(None)
    }
}

/// The values of list items: `null` for an empty item. Only items shorter
/// than `bound` are read, which every item of a list is.
pub open spec fn items_value(c: TextCompiler, parts: Seq<Seq<char>>, bound: int) -> Result<
    Seq<Value>,
    FaultModel,
>
    decreases bound, 0int, parts.len(),
{
    if parts.len() == 0 {
        Ok(Seq::empty())
    } else {
        match items_value(c, parts.drop_last(), bound) {
            Err(f) => Err(f),
            Ok(values) => {
                let p = parts.last();
                if p.len() == 0 {
                    Ok(values.push(Value::Null))
                } else if p.len() < bound {
                    match argument_value(c, p) {
                        Err(f) => Err(f),
                        Ok(v) => Ok(values.push(v)),
                    }
                } else {
                    Ok(values)
                }
            },
        }
    }
}

/// A text read as a dictionary: `{` and `}` around `key: value` entries split
/// at top-level commas.
pub open spec fn dict_value(c: TextCompiler, x: Seq<char>) -> Result<Option<Value>, FaultModel>
    decreases x.len(), 1int, 0int,
{
    let t = trimmed(x);
    proof {
        lemma_trimmed_len(x);
    }
    if enclosed(t, '{', '}') {
        match split_spec(t.subrange(1, t.len() - 1), ',') {
            Err(_) => Ok(None),
            Ok(entries) => match entries_value(c, entries, x.len() as int) {
                Err(f) => Err(f),
                Ok(None) => Ok(None),
                Ok(Some(map)) => Ok(Some(Value::Dict(map))),
            },
        }
    } else {
        Ok(None)
    }
}

/// The entries of a dictionary: an empty entry is skipped; an entry that is
/// not one key and one value, or whose key is empty, makes the text no
/// dictionary; an empty value is `null`; a later key replaces an earlier one.
pub open spec fn entries_value(c: TextCompiler, entries: Seq<Seq<char>>, bound: int) -> Result<
    Option<Seq<(Seq<char>, Value)>>,
    FaultModel,
>
    decreases bound, 0int, entries.len(),
{
    if entries.len() == 0 {
        Ok(Some(Seq::empty()))
    } else {
        match entries_value(c, entries.drop_last(), bound) {
            Err(f) => Err(f),
            Ok(None) => Ok(None),
            Ok(Some(map)) => {
                let e = entries.last();
                if e.len() == 0 {
                    Ok(Some(map))
                } else {
                    match split_spec(e, ':') {
                        Err(_) => Ok(None),
                        Ok(pair) => {
                            if pair.len() != 2 {
                                Ok(None)
                            } else {
                                let key = unquoted(trimmed(pair[0]));
                                let ve = trimmed(pair[1]);
                                if key.len() == 0 {
                                    Ok(None)
                                } else if ve.len() == 0 {
                                    Ok(Some(inserted(map, key, Value::Null)))
                                } else if ve.len() < bound {
                                    match argument_value(c, ve) {
                                        Err(f) => Err(f),
                                        Ok(v) => Ok(Some(inserted(map, key, v))),
                                    }
                                } else {
                                    Ok(Some(map))
                                }
                            }
                        },
                    }
                }
            },
        }
    }
}

/// Why the arguments of a call could not be read.
#[derive(Debug)]
pub enum ArgsError {
    Fault(Fault),
    /// A syntax error, with the index (in characters) in the argument text
    /// where it was found.
    Syntax { message: String, index: usize },
}

/// The mathematical model of an `ArgsError`.
pub enum ArgsFailure {
    Fault(FaultModel),
    Syntax(Seq<char>, int),
}

impl ArgsError {
    pub open spec fn model(self) -> ArgsFailure {
        match self {
            ArgsError::Fault(f) => ArgsFailure::Fault(f.model()),
            ArgsError::Syntax { message, index } => ArgsFailure::Syntax(message@, index as int),
        }
    }
}

/// The value of one top-level argument: `null` when it is blank.
pub open spec fn token_value(c: TextCompiler, p: Seq<char>) -> Result<Value, FaultModel> {
    if trimmed(p).len() == 0 {
        Ok(Value::Null)
    } else {
        argument_value(c, trimmed(p))
    }
}

/// The values of the arguments closed by a comma, left to right.
pub open spec fn tokens_value(c: TextCompiler, parts: Seq<Seq<char>>) -> Result<Seq<Value>, FaultModel>
    decreases parts.len(),
{
    if parts.len() == 0 {
        Ok(Seq::empty())
    } else {
        match tokens_value(c, parts.drop_last()) {
            Err(f) => Err(f),
            Ok(values) => match token_value(c, parts.last()) {
                Err(f) => Err(f),
                Ok(v) => Ok(values.push(v)),
            },
        }
    }
}

/// The arguments of a call, read from the text between its parentheses:
/// split at top-level commas, a blank argument being `null` except a blank
/// last one, which is left out. The arguments closed by a comma are read
/// before any syntax error is reported, and the last one before an unclosed
/// bracket, string or escape is.
pub open spec fn args_value(c: TextCompiler, s: Seq<char>) -> Result<Seq<Value>, ArgsFailure> {
    if trimmed(s).len() == 0 {
        Ok(Seq::empty())
    } else {
        let st = scan_text(s, ',');
        match tokens_value(c, st.parts) {
            Err(f) => Err(ArgsFailure::Fault(f)),
            Ok(values) => match st.unexpected_close {
                Some(i) => Err(
                    ArgsFailure::Syntax("Unexpected closing bracket in function arguments"@, i),
                ),
                None => {
                    let last = trimmed(st.current);
                    let all = if last.len() == 0 {
                        Ok(values)
                    } else {
                        match argument_value(c, last) {
                            Err(f) => Err(f),
                            Ok(v) => Ok(values.push(v)),
                        }
                    };
                    match all {
                        Err(f) => Err(ArgsFailure::Fault(f)),
                        Ok(all) => if st.depth != 0 {
                            Err(
                                ArgsFailure::Syntax(
                                    "Unclosed bracket in function arguments"@,
                                    s.len() as int,
                                ),
                            )
                        } else if st.in_single || st.in_double {
                            Err(
                                ArgsFailure::Syntax(
                                    "Unclosed string literal in function arguments"@,
                                    s.len() as int,
                                ),
                            )
                        } else if st.escape_next {
                            Err(
                                ArgsFailure::Syntax(
                                    "Trailing escape character in function arguments"@,
                                    s.len() as int,
                                ),
                            )
                        } else {
                            Ok(all)
                        },
                    }
                },
            },
        }
    }
}

/// The lemma that a failure while reading list items is the failure of the
/// whole list.
pub proof fn lemma_items_stop(c: TextCompiler, parts: Seq<Seq<char>>, bound: int, k: int)
    requires
        0 <= k <= parts.len(),
        items_value(c, parts.take(k), bound) is Err,
    ensures
        items_value(c, parts, bound) == items_value(c, parts.take(k), bound),
    decreases parts.len() - k,
{
    if k < parts.len() {
        assert(parts.take(k + 1).drop_last() =~= parts.take(k));
        lemma_items_stop(c, parts, bound, k + 1);
    } else {
        assert(parts.take(k) =~= parts);
    }
}

/// The lemma that a failure, or a text found to be no dictionary, while
/// reading entries decides the whole dictionary.
pub proof fn lemma_entries_stop(c: TextCompiler, entries: Seq<Seq<char>>, bound: int, k: int)
    requires
        0 <= k <= entries.len(),
        !(entries_value(c, entries.take(k), bound) is Ok && entries_value(
            c,
            entries.take(k),
            bound,
        )->Ok_0 is Some),
    ensures
        entries_value(c, entries, bound) == entries_value(c, entries.take(k), bound),
    decreases entries.len() - k,
{
    if k < entries.len() {
        assert(entries.take(k + 1).drop_last() =~= entries.take(k));
        lemma_entries_stop(c, entries, bound, k + 1);
    } else {
        assert(entries.take(k) =~= entries);
    }
}

/// The lemma that a failure while reading arguments is the failure of all.
pub proof fn lemma_tokens_stop(c: TextCompiler, parts: Seq<Seq<char>>, k: int)
    requires
        0 <= k <= parts.len(),
        tokens_value(c, parts.take(k)) is Err,
    ensures
        tokens_value(c, parts) == tokens_value(c, parts.take(k)),
    decreases parts.len() - k,
{
    if k < parts.len() {
        assert(parts.take(k + 1).drop_last() =~= parts.take(k));
        lemma_tokens_stop(c, parts, k + 1);
    } else {
        assert(parts.take(k) =~= parts);
    }
}

/// Whether an executable result is the modelled one.
pub open spec fn value_result(res: Result<DynamicValue, Fault>, model: Result<Value, FaultModel>) -> bool {
    match res {
        Ok(v) => model == Ok::<Value, FaultModel>(v.model()),
        Err(f) => model == Err::<Value, FaultModel>(f.model()),
    }
}

pub open spec fn option_result(
    res: Result<Option<DynamicValue>, Fault>,
    model: Result<Option<Value>, FaultModel>,
) -> bool {
    match res {
        Ok(Some(v)) => model == Ok::<Option<Value>, FaultModel>(Some(v.model())),
        Ok(None) => model == Ok::<Option<Value>, FaultModel>(None),
        Err(f) => model == Err::<Option<Value>, FaultModel>(f.model()),
    }
}

/// The regular expression of a whole-argument variable.
pub fn variable_regex_string(syntax: &CompilerSyntax) -> (res: String)
    ensures
        res@ == variable_regex(*syntax),
{
    let mut res = "^".to_owned();
    res.append(syntax.get_variable_pattern().as_str());
    res.append("$");
    res
}

/// `v` without enclosing quotes of the same kind (see `unquoted`).
pub fn strip_quotes(v: &Vec<char>) -> (res: Vec<char>)
    ensures
        res@ == unquoted(v@),
{
    let n = v.len();
    if n >= 2 && ((v[0] == '"' && v[n - 1] == '"') || (v[0] == '\'' && v[n - 1] == '\'')) {
        sub_chars(v, 1, n - 1)
    } else {
        sub_chars(v, 0, n)
    }
}

fn is_enclosed(t: &Vec<char>, open: char, close: char) -> (res: bool)
    ensures
        res == enclosed(t@, open, close),
{
    t.len() >= 2 && t[0] == open && t[t.len() - 1] == close
}

impl TextCompiler {
    /// What an argument text stands for (see `argument_value`).
    pub fn parse_argument(&self, argument: &Vec<char>) -> (res: Result<DynamicValue, Fault>)
        ensures
            value_result(res, argument_value(*self, argument@)),
        decreases argument@.len(), 2int, 0int,
    {
        let t = trim(argument);
        proof {
            lemma_trimmed_len(argument@);
        }
        let pattern = variable_regex_string(&self.syntax);
        match scan_pattern(pattern.as_str(), string_of(&t).as_str()) {
            None => Err(Fault::InvalidPattern { role: PatternRole::Variable, pattern }),
            Some(found) => self.parse_scanned_argument(&t, &found),
        }
    }

    /// What the trimmed argument text `t` stands for, given the matches of
    /// the variable pattern in it (see `scanned_value`).
    pub fn parse_scanned_argument(&self, t: &Vec<char>, found: &Vec<Found>) -> (res: Result<DynamicValue, Fault>)
        ensures
            value_result(res, scanned_value(*self, t@, found_model(found@))),
        decreases t@.len(), 1int, 1int,
    {
        proof {
            if found@.len() > 0 {
                assert(found_model(found@)[0] == found@[0].model());
            }
        }
        if found.len() > 0 {
            if let Some(name) = &found[0].first {
                if let Some(v) = self.get_arg(&chars_of(name.as_str())) {
                    return Ok(v);
                }
            }
        }
        if let Some(b) = parse_bool(t) {
            return Ok(DynamicValue::Bool(b));
        }
        if is_float_literal(t) {
            return Ok(DynamicValue::Number(string_of(t)));
        }
        match self.parse_list(t) {
            Err(f) => {
                return Err(f);
            },
            Ok(Some(v)) => {
                return Ok(v);
            },
            Ok(None) => {},
        }
        match self.parse_dict(t) {
            Err(f) => {
                return Err(f);
            },
            Ok(Some(v)) => {
                return Ok(v);
            },
            Ok(None) => {},
        }
        let n = t.len();
        if n > 0 && ((t[0] == '"' && t[n - 1] == '"') || (t[0] == '\'' && t[n - 1] == '\'')) {
            if n == 1 {
                return Err(Fault::LoneQuote { token: string_of(t) });
            }
            let inner = sub_chars(t, 1, n - 1);
            return Ok(DynamicValue::String(string_of(&inner)));
        }
        Ok(DynamicValue::String(string_of(t)))
    }

    /// A text read as a list (see `list_value`).
    #[verifier::loop_isolation(false)]
    pub fn parse_list(&self, x: &Vec<char>) -> (res: Result<Option<DynamicValue>, Fault>)
        ensures
            option_result(res, list_value(*self, x@)),
        decreases x@.len(), 1int, 0int,
    {
        let t = trim(x);
        proof {
            lemma_trimmed_len(x@);
        }
        if !is_enclosed(&t, '[', ']') {
            return Ok(None);
        }
        let inner = sub_chars(&t, 1, t.len() - 1);
        let parts = match split_top_level(&inner, ',') {
            Err(_) => {
                return Ok(None);
            },
            Ok(parts) => parts,
        };
        let ghost parts_model = pieces_model(parts@);
        let ghost bound = x@.len() as int;
        proof {
            lemma_split_bounded(inner@, ',');
        }
        let mut values: Vec<DynamicValue> = Vec::new();
        let mut k: usize = 0;
        while k < parts.len()
            invariant
                k <= parts@.len(),
                parts_model == pieces_model(parts@),
                split_spec(inner@, ',') == Ok::<Seq<Seq<char>>, crate::splitter::SplitError>(parts_model),
                forall|j: int| 0 <= j < parts_model.len() ==> #[trigger] parts_model[j].len() <= inner@.len(),
                inner@.len() + 2 <= bound,
                bound == x@.len(),
                items_value(*self, parts_model.take(k as int), bound) == Ok::<Seq<Value>, FaultModel>(list_model(values@)),
            decreases parts.len() - k,
        {
            proof {
                assert(parts_model.take(k + 1).drop_last() =~= parts_model.take(k as int));
                assert(parts_model.take(k + 1).last() == parts@[k as int]@);
                assert(parts_model[k as int] == parts@[k as int]@);
            }
            let v = if parts[k].len() == 0 {
                DynamicValue::Null
            } else {
                match self.parse_argument(&parts[k]) {
                    Err(f) => {
                        proof {
                            lemma_items_stop(*self, parts_model, bound, k + 1);
                        }
                        return Err(f);
                    },
                    Ok(v) => v,
                }
            };
            proof {
                lemma_list_model_push(values@, v);
            }
            values.push(v);
            k += 1;
        }
        proof {
            assert(parts_model.take(parts@.len() as int) =~= parts_model);
        }
        Ok(Some(DynamicValue::List(values)))
    }

    /// A text read as a dictionary (see `dict_value`).
    #[verifier::loop_isolation(false)]
    pub fn parse_dict(&self, x: &Vec<char>) -> (res: Result<Option<DynamicValue>, Fault>)
        ensures
            option_result(res, dict_value(*self, x@)),
        decreases x@.len(), 1int, 0int,
    {
        let t = trim(x);
        proof {
            lemma_trimmed_len(x@);
        }
        if !is_enclosed(&t, '{', '}') {
            return Ok(None);
        }
        let inner = sub_chars(&t, 1, t.len() - 1);
        let entries = match split_top_level(&inner, ',') {
            Err(_) => {
                return Ok(None);
            },
            Ok(entries) => entries,
        };
        let ghost entries_model = pieces_model(entries@);
        let ghost bound = x@.len() as int;
        proof {
            lemma_split_bounded(inner@, ',');
        }
        let mut map = DynamicValue::Dict(Vec::new());
        proof {
            assert(dict_model(Seq::<(String, DynamicValue)>::empty()) =~= Seq::<(Seq<char>, Value)>::empty());
        }
        let mut k: usize = 0;
        while k < entries.len()
            invariant
                k <= entries@.len(),
                entries_model == pieces_model(entries@),
                split_spec(inner@, ',') == Ok::<Seq<Seq<char>>, crate::splitter::SplitError>(entries_model),
                forall|j: int| 0 <= j < entries_model.len() ==> #[trigger] entries_model[j].len() <= inner@.len(),
                inner@.len() + 2 <= bound,
                bound == x@.len(),
                map is Dict,
                entries_value(*self, entries_model.take(k as int), bound) == Ok::<Option<Seq<(Seq<char>, Value)>>, FaultModel>(Some(dict_model(map->Dict_0@))),
            decreases entries.len() - k,
        {
            proof {
                assert(entries_model.take(k + 1).drop_last() =~= entries_model.take(k as int));
                assert(entries_model.take(k + 1).last() == entries@[k as int]@);
                assert(entries_model[k as int] == entries@[k as int]@);
            }
            if entries[k].len() != 0 {
                let pair = match split_top_level(&entries[k], ':') {
                    Err(_) => {
                        proof {
                            lemma_entries_stop(*self, entries_model, bound, k + 1);
                        }
                        return Ok(None);
                    },
                    Ok(pair) => pair,
                };
                proof {
                    lemma_split_bounded(entries@[k as int]@, ':');
                }
                if pair.len() != 2 {
                    proof {
                        lemma_entries_stop(*self, entries_model, bound, k + 1);
                    }
                    return Ok(None);
                }
                proof {
                    assert(pieces_model(pair@)[0] == pair@[0]@);
                    assert(pieces_model(pair@)[1] == pair@[1]@);
                }
                let key = strip_quotes(&trim(&pair[0]));
                if key.len() == 0 {
                    proof {
                        lemma_entries_stop(*self, entries_model, bound, k + 1);
                    }
                    return Ok(None);
                }
                let value_text = trim(&pair[1]);
                proof {
                    lemma_trimmed_len(pair@[1]@);
                }
                let value = if value_text.len() == 0 {
                    DynamicValue::Null
                } else {
                    match self.parse_argument(&value_text) {
                        Err(f) => {
                            proof {
                                lemma_entries_stop(*self, entries_model, bound, k + 1);
                            }
                            return Err(f);
                        },
                        Ok(v) => v,
                    }
                };
                map = insert_entry(map, &key, value);
            }
            k += 1;
        }
        proof {
            assert(entries_model.take(entries@.len() as int) =~= entries_model);
        }
        Ok(Some(map))
    }

    /// The arguments of a call (see `args_value`).
    #[verifier::loop_isolation(false)]
    pub fn parse_args(&self, args_string: &Vec<char>) -> (res: Result<Vec<DynamicValue>, ArgsError>)
        ensures
            match res {
                Ok(values) => args_value(*self, args_string@) == Ok::<Seq<Value>, ArgsFailure>(
                    list_model(values@),
                ),
                Err(e) => args_value(*self, args_string@) == Err::<Seq<Value>, ArgsFailure>(
                    e.model(),
                ),
            },
    {
        let mut values: Vec<DynamicValue> = Vec::new();
        if trim(args_string).len() == 0 {
            proof {
                assert(list_model(values@) =~= Seq::<Value>::empty());
            }
            return Ok(values);
        }
        let st = scan_top_level(args_string, ',');
        let ghost parts_model = scan_text(args_string@, ',').parts;
        proof {
            assert(tokens_value(*self, parts_model.take(0)) == Ok::<Seq<Value>, FaultModel>(Seq::<Value>::empty()));
            assert(list_model(values@) =~= Seq::<Value>::empty());
        }
        let mut k: usize = 0;
        while k < st.parts.len()
            invariant
                k <= st.parts@.len(),
                parts_model == pieces_model(st.parts@),
                tokens_value(*self, parts_model.take(k as int)) == Ok::<Seq<Value>, FaultModel>(list_model(values@)),
            decreases st.parts.len() - k,
        {
            proof {
                assert(parts_model.take(k + 1).drop_last() =~= parts_model.take(k as int));
                assert(parts_model.take(k + 1).last() == st.parts@[k as int]@);
            }
            let token = trim(&st.parts[k]);
            let v = if token.len() == 0 {
                DynamicValue::Null
            } else {
                match self.parse_argument(&token) {
                    Err(f) => {
                        proof {
                            lemma_tokens_stop(*self, parts_model, k + 1);
                        }
                        return Err(ArgsError::Fault(f));
                    },
                    Ok(v) => v,
                }
            };
            proof {
                lemma_list_model_push(values@, v);
            }
            values.push(v);
            k += 1;
        }
        proof {
            assert(parts_model.take(st.parts@.len() as int) =~= parts_model);
        }
        if let Some(i) = st.unexpected_close {
            return Err(ArgsError::Syntax {
                message: "Unexpected closing bracket in function arguments".to_owned(),
                index: i,
            });
        }
        let last = trim(&st.current);
        if last.len() != 0 {
            match self.parse_argument(&last) {
                Err(f) => {
                    return Err(ArgsError::Fault(f));
                },
                Ok(v) => {
                    proof {
                        lemma_list_model_push(values@, v);
                    }
                    values.push(v);
                },
            }
        }
        let n = args_string.len();
        if st.depth != 0 {
            return Err(ArgsError::Syntax {
                message: "Unclosed bracket in function arguments".to_owned(),
                index: n,
            });
        }
        if st.in_single || st.in_double {
            return Err(ArgsError::Syntax {
                message: "Unclosed string literal in function arguments".to_owned(),
                index: n,
            });
        }
        if st.escape_next {
            return Err(ArgsError::Syntax {
                message: "Trailing escape character in function arguments".to_owned(),
                index: n,
            });
        }
        Ok(values)
    }
}

/// A dictionary value with `value` stored under `key` (see `inserted`).
#[verifier::loop_isolation(false)]
fn insert_entry(map: DynamicValue, key: &Vec<char>, value: DynamicValue) -> (res: DynamicValue)
    requires
        map is Dict,
    ensures
        res is Dict,
        dict_model(res->Dict_0@) == inserted(dict_model(map->Dict_0@), key@, value.model()),
{
    let ghost given = map;
    let mut entries = match map {
        DynamicValue::Dict(entries) => entries,
        _ => Vec::new(),
    };
    let ghost before = dict_model(entries@);
    proof {
        crate::value::lemma_dict_model(entries@);
        crate::compiler::lemma_key_index(before, key@);
    }
    let mut i: usize = 0;
    while i < entries.len()
        invariant
            i <= entries@.len(),
            before == dict_model(entries@),
            before.len() == entries@.len(),
            forall|j: int| 0 <= j < entries@.len() ==> #[trigger] before[j] == (
                entries@[j].0@,
                entries@[j].1.model(),
            ),
            forall|j: int| 0 <= j < i ==> #[trigger] before[j].0 != key@,
            given is Dict,
            before == dict_model(given->Dict_0@),
        decreases entries.len() - i,
    {
        if crate::text::same_chars(&chars_of(entries[i].0.as_str()), key) {
            proof {
                assert(before[i as int] == (entries@[i as int].0@, entries@[i as int].1.model()));
                assert(before[i as int].0 == key@);
                crate::compiler::lemma_key_index(before, key@);
                assert(crate::compiler::key_index(before, key@) == Some(i as int));
            }
            let ghost v = value.model();
            entries.set(i, (string_of(key), value));
            proof {
                crate::value::lemma_dict_model(entries@);
                assert(dict_model(entries@) =~= before.update(i as int, (key@, v)));
            }
            return DynamicValue::Dict(entries);
        }
        i += 1;
    }
    proof {
        assert(crate::compiler::key_index(before, key@) is None);
    }
    let entry = (string_of(key), value);
    proof {
        crate::value::lemma_dict_model_push(entries@, entry);
    }
    entries.push(entry);
    DynamicValue::Dict(entries)
}

} // verus!
