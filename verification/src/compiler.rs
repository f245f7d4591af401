//! The renderer's state: its syntax, its variables, the names of the
//! functions it may call and whether errors stop it; and the errors it
//! reports.
use vstd::prelude::*;
use crate::syntax::CompilerSyntax;
use crate::text::{chars_of, same_chars, string_of, append, decimal_digits, spec_decimal};
use crate::value::{DynamicValue, Value, dict_model, lemma_dict_model, lemma_dict_model_push};

verus! {

/// The value stored under `name`: that of the first entry with that key.
pub open spec fn lookup(entries: Seq<(Seq<char>, Value)>, name: Seq<char>) -> Option<Value>
    decreases entries.len(),
{
    if entries.len() == 0 {
        None
    } else if entries[0].0 == name {
        Some(entries[0].1)
    } else {
        lookup(entries.drop_first(), name)
    }
}

/// The index of the first entry with key `name`.
pub open spec fn key_index(entries: Seq<(Seq<char>, Value)>, name: Seq<char>) -> Option<int>
    decreases entries.len(),
{
    if entries.len() == 0 {
        None
    } else if entries[0].0 == name {
        Some(0)
    } else {
        match key_index(entries.drop_first(), name) {
            Some(i) => Some(i + 1),
            None => None,
        }
    }
}

/// The entries with `value` stored under `name`: in place of the first
/// entry with that key, or at the end where there is none.
pub open spec fn inserted(entries: Seq<(Seq<char>, Value)>, name: Seq<char>, value: Value) -> Seq<
    (Seq<char>, Value),
> {
    match key_index(entries, name) {
        Some(i) => entries.update(i, (name, value)),
        None => entries.push((name, value)),
    }
}

/// The lemma that `key_index` finds the first entry with the key.
pub proof fn lemma_key_index(entries: Seq<(Seq<char>, Value)>, name: Seq<char>)
    ensures
        match key_index(entries, name) {
            Some(i) => 0 <= i < entries.len() && entries[i].0 == name && forall|j: int|
                0 <= j < i ==> #[trigger] entries[j].0 != name,
            None => forall|j: int| 0 <= j < entries.len() ==> #[trigger] entries[j].0 != name,
        },
        key_index(entries, name) matches Some(i) ==> lookup(entries, name) == Some(entries[i].1),
        key_index(entries, name) is None ==> lookup(entries, name) is None,
    decreases entries.len(),
{
    if entries.len() > 0 && entries[0].0 != name {
        let rest = entries.drop_first();
        lemma_key_index(rest, name);
        match key_index(rest, name) {
            Some(i) => {
                assert forall|j: int| 0 <= j < i + 1 implies #[trigger] entries[j].0 != name by {
                    if j > 0 {
                        assert(entries[j] == rest[j - 1]);
                    }
                }
            },
            None => {
                assert forall|j: int| 0 <= j < entries.len() implies #[trigger] entries[j].0
                    != name by {
                    if j > 0 {
                        assert(entries[j] == rest[j - 1]);
                    }
                }
            },
        }
    }
}

proof fn lemma_lookup_push(entries: Seq<(Seq<char>, Value)>, e: (Seq<char>, Value), other: Seq<char>)
    requires
        e.0 != other,
    ensures
        lookup(entries.push(e), other) == lookup(entries, other),
    decreases entries.len(),
{
    if entries.len() > 0 {
        assert(entries.push(e).drop_first() =~= entries.drop_first().push(e));
        assert(entries.push(e)[0] == entries[0]);
        lemma_lookup_push(entries.drop_first(), e, other);
    } else {
        assert(entries.push(e).drop_first() =~= Seq::<(Seq<char>, Value)>::empty());
        assert(entries.push(e)[0] == e);
        assert(lookup(Seq::<(Seq<char>, Value)>::empty(), other) is None);
        assert(lookup(entries.push(e), other) == lookup(entries.push(e).drop_first(), other));
    }
}

proof fn lemma_lookup_update(
    entries: Seq<(Seq<char>, Value)>,
    i: int,
    e: (Seq<char>, Value),
    other: Seq<char>,
)
    requires
        0 <= i < entries.len(),
        entries[i].0 != other,
        e.0 != other,
    ensures
        lookup(entries.update(i, e), other) == lookup(entries, other),
    decreases entries.len(),
{
    if i > 0 {
        assert(entries.update(i, e).drop_first() =~= entries.drop_first().update(i - 1, e));
        assert(entries.update(i, e)[0] == entries[0]);
        lemma_lookup_update(entries.drop_first(), i - 1, e, other);
    } else {
        assert(entries.update(i, e).drop_first() =~= entries.drop_first());
    }
}

proof fn lemma_lookup_first(entries: Seq<(Seq<char>, Value)>, i: int, name: Seq<char>)
    requires
        0 <= i < entries.len(),
        entries[i].0 == name,
        forall|j: int| 0 <= j < i ==> #[trigger] entries[j].0 != name,
    ensures
        lookup(entries, name) == Some(entries[i].1),
    decreases i,
{
    if i > 0 {
        let rest = entries.drop_first();
        assert forall|j: int| 0 <= j < i - 1 implies #[trigger] rest[j].0 != name by {
            assert(rest[j] == entries[j + 1]);
        }
        assert(entries[0].0 != name);
        lemma_lookup_first(rest, i - 1, name);
    }
}

/// The lemma that what is stored under a name is what a lookup of that name
/// gives back, and that other names keep their values.
pub proof fn lemma_inserted_lookup(
    entries: Seq<(Seq<char>, Value)>,
    name: Seq<char>,
    value: Value,
    other: Seq<char>,
)
    ensures
        lookup(inserted(entries, name, value), name) == Some(value),
        other != name ==> lookup(inserted(entries, name, value), other) == lookup(entries, other),
{
    let after = inserted(entries, name, value);
    lemma_key_index(entries, name);
    match key_index(entries, name) {
        Some(i) => {
            assert forall|j: int| 0 <= j < i implies #[trigger] after[j].0 != name by {
                assert(after[j] == entries[j]);
            }
            lemma_lookup_first(after, i, name);
            if other != name {
                lemma_lookup_update(entries, i, (name, value), other);
            }
        },
        None => {
            assert forall|j: int| 0 <= j < entries.len() implies #[trigger] after[j].0 != name by {
                assert(after[j] == entries[j]);
            }
            lemma_lookup_first(after, entries.len() as int, name);
            if other != name {
                lemma_lookup_push(entries, (name, value), other);
            }
        },
    }
}

/// The text of a number in lines or columns, held to what a `usize` can count.
pub open spec fn counted(n: int) -> nat {
    if n > usize::MAX {
        usize::MAX as nat
    } else if n < 0 {
        0
    } else {
        n as nat
    }
}

/// How many line breaks a text holds.
pub open spec fn newline_count(s: Seq<char>) -> nat
    decreases s.len(),
{
    if s.len() == 0 {
        0
    } else {
        newline_count(s.drop_last()) + if s.last() == '\n' {
            1nat
        } else {
            0nat
        }
    }
}

/// Where the last line of a text starts: just after its last line break.
pub open spec fn last_line_start(s: Seq<char>) -> nat
    decreases s.len(),
{
    if s.len() == 0 {
        0
    } else if s.last() == '\n' {
        s.len()
    } else {
        last_line_start(s.drop_last())
    }
}

/// The 1-based line of the character at `index` (at most the end of the text).
pub open spec fn line_of(text: Seq<char>, index: int) -> nat {
    let upto = if index < text.len() { index } else { text.len() as int };
    counted(1 + newline_count(text.take(upto)) as int)
}

/// The 1-based column, in characters, of the character at `index` (at most
/// the end of the text).
pub open spec fn column_of(text: Seq<char>, index: int) -> nat {
    let upto = if index < text.len() { index } else { text.len() as int };
    counted(upto - last_line_start(text.take(upto)) + 1)
}

/// Which regular expression failed to compile.
#[derive(Debug, Clone, Copy, PartialEq, Eq, Structural)]
pub enum PatternRole {
    Include,
    Function,
    Variable,
}

/// A condition on which rendering cannot go on at all.
#[derive(Debug)]
pub enum Fault {
    /// A regular expression built from the syntax does not compile.
    InvalidPattern { role: PatternRole, pattern: String },
    /// An argument is a lone quote character, which has no inside to take.
    LoneQuote { token: String },
    /// An answer does not fit the request it was given for.
    Protocol,
}

/// The mathematical model of a `Fault`.
pub enum FaultModel {
    InvalidPattern(PatternRole, Seq<char>),
    LoneQuote(Seq<char>),
    Protocol,
}

impl Fault {
    pub open spec fn model(self) -> FaultModel {
        match self {
            Fault::InvalidPattern { role, pattern } => FaultModel::InvalidPattern(role, pattern@),
            Fault::LoneQuote { token } => FaultModel::LoneQuote(token@),
            Fault::Protocol => FaultModel::Protocol,
        }
    }
}

/// Where and why rendering failed.
#[derive(Debug, Clone)]
pub struct CompilerError {
    pub file_name: String,
    pub line: usize,
    pub column: usize,
    pub message: String,
}

/// The mathematical model of a `CompilerError`.
pub struct ErrorModel {
    pub file_name: Seq<char>,
    pub line: nat,
    pub column: nat,
    pub message: Seq<char>,
}

impl CompilerError {
    pub open spec fn model(self) -> ErrorModel {
        ErrorModel {
            file_name: self.file_name@,
            line: self.line as nat,
            column: self.column as nat,
            message: self.message@,
        }
    }

    /// The error as `file:line:column: message`.
    pub fn describe(&self) -> (res: String)
        ensures
            res@ == self.file_name@ + ":"@ + spec_decimal(self.line as nat) + ":"@
                + spec_decimal(self.column as nat) + ": "@ + self.message@,
    {
        let mut out = chars_of(self.file_name.as_str());
        append(&mut out, &chars_of(":"));
        append(&mut out, &decimal_digits(self.line as u64));
        append(&mut out, &chars_of(":"));
        append(&mut out, &decimal_digits(self.column as u64));
        append(&mut out, &chars_of(": "));
        append(&mut out, &chars_of(self.message.as_str()));
        string_of(&out)
    }
}

/// The error reported at `index` of `text`, read from `file_name`.
pub open spec fn error_at(text: Seq<char>, file_name: Seq<char>, index: int, message: Seq<char>) -> ErrorModel {
    ErrorModel {
        file_name,
        line: line_of(text, index),
        column: column_of(text, index),
        message,
    }
}

/// The 1-based line and column of the character at `index` of `text`.
pub fn get_line_and_column(text: &Vec<char>, index: usize) -> (res: (usize, usize))
    ensures
        res.0 == line_of(text@, index as int),
        res.1 == column_of(text@, index as int),
{
    let upto = if index < text.len() { index } else { text.len() };
    let mut line: usize = 1;
    let mut start: usize = 0;
    let mut i: usize = 0;
    while i < upto
        invariant
            i <= upto <= text@.len(),
            line == counted(1 + newline_count(text@.take(i as int)) as int),
            start == last_line_start(text@.take(i as int)),
            start <= i,
        decreases upto - i,
    {
        proof {
            assert(text@.take(i + 1).drop_last() =~= text@.take(i as int));
        }
        if text[i] == '\n' {
            line = line.saturating_add(1);
            start = i + 1;
        }
        i += 1;
    }
    let column = (upto - start).saturating_add(1);
    (line, column)
}

/// Builds the error reported at `index` of `text`.
pub fn build_compiler_error(
    text: &Vec<char>,
    file_name: &Vec<char>,
    index: usize,
    message: Vec<char>,
) -> (res: CompilerError)
    ensures
        res.model() == error_at(text@, file_name@, index as int, message@),
{
    let (line, column) = get_line_and_column(text, index);
    CompilerError {
        file_name: string_of(file_name),
        line,
        column,
        message: string_of(&message),
    }
}

/// Renders templates: replaces function calls with what the functions
/// return and includes with the rendered files.
pub struct TextCompiler {
    pub syntax: CompilerSyntax,
    /// The variables that function arguments may name, by name.
    pub args: Vec<(String, DynamicValue)>,
    /// Whether an error stops rendering (otherwise the failed call or
    /// include is left as it stands).
    pub debug_mode: bool,
    /// The names of the functions that may be called.
    pub functions: Vec<String>,
}

/// The registered names after registering `name`: unchanged where it is
/// already there, otherwise with `name` added at the end.
pub open spec fn with_function(names: Seq<Seq<char>>, name: Seq<char>) -> Seq<Seq<char>> {
    if names.contains(name) {
        names
    } else {
        names.push(name)
    }
}

pub open spec fn names_model(names: Seq<String>) -> Seq<Seq<char>> {
    names.map_values(|s: String| s@)
}

impl TextCompiler {
    /// The names of the registered functions, in the order of registration.
    pub open spec fn function_names(&self) -> Seq<Seq<char>> {
        names_model(self.functions@)
    }

    /// The variables, as a list of entries.
    pub open spec fn variables(&self) -> Seq<(Seq<char>, Value)> {
        dict_model(self.args@)
    }

    /// A renderer with the given syntax (the default one where none is
    /// given), no variables, no functions, and errors that do not stop it.
    pub fn new(syntax: Option<CompilerSyntax>) -> (res: Self)
        ensures
            match syntax {
                Some(s) => res.syntax == s,
                None => res.syntax.function_prefix@ == crate::syntax::default_function_prefix()
                    && res.syntax.include_prefix@ == crate::syntax::default_include_prefix()
                    && res.syntax.variable_prefix@ == crate::syntax::default_variable_prefix()
                    && res.syntax.function_name_pattern@
                    == crate::syntax::default_function_name_pattern()
                    && res.syntax.variable_name_pattern@
                    == crate::syntax::default_variable_name_pattern(),
            },
            res.variables() == Seq::<(Seq<char>, Value)>::empty(),
            res.function_names() == Seq::<Seq<char>>::empty(),
            !res.debug_mode,
    {
        let syntax = match syntax {
            Some(s) => s,
            None => CompilerSyntax::default(),
        };
        let res = TextCompiler { syntax, args: Vec::new(), debug_mode: false, functions: Vec::new() };
        proof {
            assert(res.variables() =~= Seq::<(Seq<char>, Value)>::empty());
            assert(res.function_names() =~= Seq::<Seq<char>>::empty());
        }
        res
    }

    pub fn set_debug_mode(&mut self, debug_mode: bool)
        ensures
            final(self).debug_mode == debug_mode,
            final(self).syntax == old(self).syntax,
            final(self).args == old(self).args,
            final(self).function_names() == old(self).function_names(),
    {
        self.debug_mode = debug_mode;
    }

    /// Whether a function of that name is registered.
    pub fn has_function(&self, name: &Vec<char>) -> (res: bool)
        ensures
            res == self.function_names().contains(name@),
    {
        let mut i: usize = 0;
        while i < self.functions.len()
            invariant
                i <= self.functions@.len(),
                forall|j: int| 0 <= j < i ==> self.functions@[j]@ != name@,
            decreases self.functions.len() - i,
        {
            if same_chars(&chars_of(self.functions[i].as_str()), name) {
                proof {
                    assert(self.function_names()[i as int] == name@);
                }
                return true;
            }
            i += 1;
        }
        proof {
            if self.function_names().contains(name@) {
                let j = choose|j: int| 0 <= j < self.function_names().len() && self.function_names()[j] == name@;
                assert(self.functions@[j]@ == name@);
            }
        }
        false
    }

    /// Registers a function name; registering a name again changes nothing.
    pub fn add_function(&mut self, full_function_name: &str)
        ensures
            final(self).function_names() == with_function(
                old(self).function_names(),
                full_function_name@,
            ),
            final(self).syntax == old(self).syntax,
            final(self).args == old(self).args,
            final(self).debug_mode == old(self).debug_mode,
    {
        if !self.has_function(&chars_of(full_function_name)) {
            let ghost before = self.functions@;
            self.functions.push(full_function_name.to_owned());
            proof {
                assert(names_model(self.functions@) =~= names_model(before).push(full_function_name@));
            }
        }
    }

    /// Stores a variable, in place of any earlier value of that name.
    pub fn set_arg(&mut self, name: &str, value: DynamicValue)
        ensures
            final(self).variables() == inserted(old(self).variables(), name@, value.model()),
            final(self).syntax == old(self).syntax,
            final(self).function_names() == old(self).function_names(),
            final(self).debug_mode == old(self).debug_mode,
    {
        let key = chars_of(name);
        let ghost entries = self.variables();
        proof {
            lemma_dict_model(self.args@);
            lemma_key_index(entries, name@);
        }
        let mut i: usize = 0;
        while i < self.args.len()
            invariant
                i <= self.args@.len(),
                key@ == name@,
                entries == dict_model(self.args@),
                entries.len() == self.args@.len(),
                forall|j: int| 0 <= j < self.args@.len() ==> #[trigger] entries[j] == (
                    self.args@[j].0@,
                    self.args@[j].1.model(),
                ),
                forall|j: int| 0 <= j < i ==> #[trigger] entries[j].0 != name@,
                self.args@ == old(self).args@,
                self.syntax == old(self).syntax,
                self.functions == old(self).functions,
                self.debug_mode == old(self).debug_mode,
                entries == dict_model(old(self).args@),
            decreases self.args.len() - i,
        {
            if same_chars(&chars_of(self.args[i].0.as_str()), &key) {
                proof {
                    assert(entries[i as int] == (self.args@[i as int].0@, self.args@[i as int].1.model()));
                    assert(entries[i as int].0 == name@);
                    lemma_key_index(entries, name@);
                    assert(key_index(entries, name@) == Some(i as int));
                }
                let ghost before = self.args@;
                self.args.set(i, (name.to_owned(), value));
                proof {
                    lemma_dict_model(self.args@);
                    assert(dict_model(self.args@) =~= entries.update(
                        i as int,
                        (name@, self.args@[i as int].1.model()),
                    ));
                }
                return;
            }
            i += 1;
        }
        proof {
            assert(key_index(entries, name@) is None);
        }
        let entry = (name.to_owned(), value);
        proof {
            lemma_dict_model_push(self.args@, entry);
        }
        self.args.push(entry);
    }

    /// Removes every variable.
    pub fn clear_args(&mut self)
        ensures
            final(self).variables() == Seq::<(Seq<char>, Value)>::empty(),
            final(self).syntax == old(self).syntax,
            final(self).function_names() == old(self).function_names(),
            final(self).debug_mode == old(self).debug_mode,
    {
        self.args.clear();
        proof {
            assert(dict_model(self.args@) =~= Seq::<(Seq<char>, Value)>::empty());
        }
    }

    /// A copy of the value of the variable `name`, if there is one.
    pub fn get_arg(&self, name: &Vec<char>) -> (res: Option<DynamicValue>)
        ensures
            match res {
                Some(v) => lookup(self.variables(), name@) == Some(v.model()),
                None => lookup(self.variables(), name@) is None,
            },
    {
        let ghost entries = self.variables();
        proof {
            lemma_dict_model(self.args@);
            lemma_key_index(entries, name@);
        }
        let mut i: usize = 0;
        while i < self.args.len()
            invariant
                i <= self.args@.len(),
                entries == dict_model(self.args@),
                entries.len() == self.args@.len(),
                forall|j: int| 0 <= j < self.args@.len() ==> #[trigger] entries[j] == (
                    self.args@[j].0@,
                    self.args@[j].1.model(),
                ),
                forall|j: int| 0 <= j < i ==> #[trigger] entries[j].0 != name@,
            decreases self.args.len() - i,
        {
            if same_chars(&chars_of(self.args[i].0.as_str()), name) {
                proof {
                    assert(entries[i as int] == (self.args@[i as int].0@, self.args@[i as int].1.model()));
                    assert(entries[i as int].0 == name@);
                    lemma_key_index(entries, name@);
                    assert(key_index(entries, name@) == Some(i as int));
                }
                return Some(self.args[i].1.duplicate());
            }
            i += 1;
        }
        None
    }
}

impl Default for TextCompiler {
    fn default() -> (res: Self)
        ensures
            res.syntax.function_prefix@ == crate::syntax::default_function_prefix(),
            res.syntax.include_prefix@ == crate::syntax::default_include_prefix(),
            res.syntax.variable_prefix@ == crate::syntax::default_variable_prefix(),
            res.syntax.function_name_pattern@ == crate::syntax::default_function_name_pattern(),
            res.syntax.variable_name_pattern@ == crate::syntax::default_variable_name_pattern(),
            res.variables() == Seq::<(Seq<char>, Value)>::empty(),
            res.function_names() == Seq::<Seq<char>>::empty(),
            !res.debug_mode,
    {
        Self::new(None)
    }
}

} // verus!
