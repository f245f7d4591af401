//! The template syntax: the prefixes that mark function calls, includes and
//! variables, and the regular expressions built from them.
use vstd::prelude::*;
use crate::pattern::{escaped, regex_escape};

verus! {

/// The configurable parts of the template syntax.
#[derive(Clone, Debug)]
pub struct CompilerSyntax {
    pub function_prefix: String,
    pub include_prefix: String,
    pub variable_prefix: String,
    pub function_name_pattern: String,
    pub variable_name_pattern: String,
}

/// The default prefix of a function call.
pub open spec fn default_function_prefix() -> Seq<char> {
    "~fn:"@
}

/// The default prefix of an include.
pub open spec fn default_include_prefix() -> Seq<char> {
    "~include:"@
}

/// The default prefix of a variable.
pub open spec fn default_variable_prefix() -> Seq<char> {
    "$"@
}

/// The default pattern of a function name.
pub open spec fn default_function_name_pattern() -> Seq<char> {
    "[\\w.]+"@
}

/// The default pattern of a variable name.
pub open spec fn default_variable_name_pattern() -> Seq<char> {
    "[A-Za-z_]\\w*"@
}

impl Default for CompilerSyntax {
    fn default() -> (res: Self)
        ensures
            res.function_prefix@ == default_function_prefix(),
            res.include_prefix@ == default_include_prefix(),
            res.variable_prefix@ == default_variable_prefix(),
            res.function_name_pattern@ == default_function_name_pattern(),
            res.variable_name_pattern@ == default_variable_name_pattern(),
    {
        CompilerSyntax {
            function_prefix: "~fn:".to_owned(),
            include_prefix: "~include:".to_owned(),
            variable_prefix: "$".to_owned(),
            function_name_pattern: "[\\w.]+".to_owned(),
            variable_name_pattern: "[A-Za-z_]\\w*".to_owned(),
        }
    }
}

/// The given text, or the default where none is given.
pub open spec fn given_or(given: Option<String>, default: Seq<char>) -> Seq<char> {
    match given {
        Some(s) => s@,
        None => default,
    }
}

impl CompilerSyntax {
    /// The default syntax with each given part put in place of its default.
    pub fn from_options(
        function_prefix: Option<String>,
        include_prefix: Option<String>,
        variable_prefix: Option<String>,
        function_name_pattern: Option<String>,
        variable_name_pattern: Option<String>,
    ) -> (res: Self)
        ensures
            res.function_prefix@ == given_or(function_prefix, default_function_prefix()),
            res.include_prefix@ == given_or(include_prefix, default_include_prefix()),
            res.variable_prefix@ == given_or(variable_prefix, default_variable_prefix()),
            res.function_name_pattern@ == given_or(
                function_name_pattern,
                default_function_name_pattern(),
            ),
            res.variable_name_pattern@ == given_or(
                variable_name_pattern,
                default_variable_name_pattern(),
            ),
    {
        let mut res = CompilerSyntax::default();
        if let Some(value) = function_prefix {
            res.function_prefix = value;
        }
        if let Some(value) = include_prefix {
            res.include_prefix = value;
        }
        if let Some(value) = variable_prefix {
            res.variable_prefix = value;
        }
        if let Some(value) = function_name_pattern {
            res.function_name_pattern = value;
        }
        if let Some(value) = variable_name_pattern {
            res.variable_name_pattern = value;
        }
        res
    }

    /// The regular expression of a function call: the escaped prefix, the
    /// name as group 1, and the text between parentheses as group 2.
    pub open spec fn function_pattern(self) -> Seq<char> {
        escaped(self.function_prefix@) + "("@ + self.function_name_pattern@ + ")\\(([^)]*)\\)"@
    }

    /// The regular expression of a variable: the escaped prefix and the name
    /// as group 1.
    pub open spec fn variable_pattern(self) -> Seq<char> {
        escaped(self.variable_prefix@) + "("@ + self.variable_name_pattern@ + ")"@
    }

    /// The regular expression of an include: the escaped prefix, optional
    /// white space, and the target as group 1 (a quoted string or a run of
    /// non-space characters).
    pub open spec fn include_pattern(self) -> Seq<char> {
        escaped(self.include_prefix@)
            + "\\s*(\"(?:\\\\.|[^\"\\\\])*\"|'(?:\\\\.|[^'\\\\])*'|[^\\s]+)"@
    }

    pub fn get_function_pattern(&self) -> (res: String)
        ensures
            res@ == self.function_pattern(),
    {
        let mut res = regex_escape(self.function_prefix.as_str());
        res.append("(");
        res.append(self.function_name_pattern.as_str());
        res.append(")\\(([^)]*)\\)");
        res
    }

    pub fn get_variable_pattern(&self) -> (res: String)
        ensures
            res@ == self.variable_pattern(),
    {
        let mut res = regex_escape(self.variable_prefix.as_str());
        res.append("(");
        res.append(self.variable_name_pattern.as_str());
        res.append(")");
        res
    }

    pub fn get_include_pattern(&self) -> (res: String)
        ensures
            res@ == self.include_pattern(),
    {
        let mut res = regex_escape(self.include_prefix.as_str());
        res.append("\\s*(\"(?:\\\\.|[^\"\\\\])*\"|'(?:\\\\.|[^'\\\\])*'|[^\\s]+)");
        res
    }
}

} // verus!
