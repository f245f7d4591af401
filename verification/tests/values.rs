use dtr::compiler::{get_line_and_column, TextCompiler};
use dtr::literal::{is_float_literal, parse_bool};
use dtr::names::{exported_function_name, is_valid_as_name};
use dtr::splitter::{split_top_level, SplitError};
use dtr::syntax::CompilerSyntax;
use dtr::text::{chars_of, string_of};
use dtr::number::render_number;
use dtr::value::DynamicValue;

fn chars(s: &str) -> Vec<char> {
    s.chars().collect()
}

fn shown(v: &DynamicValue) -> String {
    v.to_output_string().into_iter().collect()
}

fn number(s: &str) -> String {
    render_number(&chars(s)).into_iter().collect()
}

#[test]
fn default_patterns() {
    let syntax = CompilerSyntax::default();
    assert_eq!(syntax.get_function_pattern(), r"\~fn:([\w.]+)\(([^)]*)\)");
    assert_eq!(syntax.get_variable_pattern(), r"\$([A-Za-z_]\w*)");
    assert_eq!(
        syntax.get_include_pattern(),
        r#"\~include:\s*("(?:\\.|[^"\\])*"|'(?:\\.|[^'\\])*'|[^\s]+)"#
    );
}

#[test]
fn escaping_meta_characters() {
    let syntax = CompilerSyntax::from_options(None, None, Some("a.b$c".to_string()), None, None);
    assert_eq!(syntax.get_variable_pattern(), r"a\.b\$c([A-Za-z_]\w*)");
}

#[test]
fn output_strings() {
    assert_eq!(shown(&DynamicValue::Null), "");
    assert_eq!(shown(&DynamicValue::Bool(true)), "true");
    assert_eq!(shown(&DynamicValue::String("x y".to_string())), "x y");
    let list = DynamicValue::List(vec![
        DynamicValue::Number("1".to_string()),
        DynamicValue::String("a".to_string()),
        DynamicValue::List(vec![]),
    ]);
    assert_eq!(shown(&list), "[1, a, []]");
    let dict = DynamicValue::Dict(vec![
        ("k".to_string(), DynamicValue::Bool(false)),
        ("n".to_string(), DynamicValue::Null),
    ]);
    assert_eq!(shown(&dict), "{k: false, n: }");
}

#[test]
fn numbers_print_like_a_float_cast_to_integer() {
    assert_eq!(number("42"), "42");
    assert_eq!(number("-0"), "0");
    assert_eq!(number("007"), "7");
    assert_eq!(number("1.5"), "1.5");
    assert_eq!(number("NaN"), "NaN");
    assert_eq!(number("9223372036854775807"), "9223372036854775807");
    assert_eq!(number("9223372036854775808"), "9223372036854775807");
    assert_eq!(number("-9223372036854775809"), "-9223372036854775808");
    assert_eq!(number("100000000000000000000000000000"), "9223372036854775807");
}

#[test]
fn numbers_print_by_value() {
    assert_eq!(number("3.0"), "3");
    assert_eq!(number("1e3"), "1000");
    assert_eq!(number("-0.0"), "0");
    assert_eq!(number("Infinity"), "inf");
    assert_eq!(number("-INF"), "-inf");
    assert_eq!(number("nan"), "NaN");
    assert_eq!(number("2.50"), "2.5");
    assert_eq!(number("+.5"), "0.5");
    assert_eq!(number("1e-7"), "0.0000001");
    assert_eq!(number("-2.5e1"), "-25");
    assert_eq!(number("12.345e1"), "123.45");
    assert_eq!(number("1e-400"), "0");
    assert_eq!(number("1e99999999999999999999999999999999"), "9223372036854775807");
    assert_eq!(number("-1e99999999999999999999999999999999"), "-9223372036854775808");
    assert_eq!(number("5e-99999999999999999999999999999999"), "0");
    for x in [3.0f64, 2.5, -0.0, 1e3, 0.1, -7.25, 1e-7] {
        let text = x.to_string();
        let expected = if x.fract() == 0.0 { (x as i64).to_string() } else { x.to_string() };
        assert_eq!(number(&text), expected, "{}", text);
    }
}

#[test]
fn float_literals() {
    for t in ["1", "-1.5", "+.5", "1.", "1e3", "2.5E-3", "inf", "-Infinity", "NaN"] {
        assert!(is_float_literal(&chars(t)), "{}", t);
        assert_eq!(t.parse::<f64>().is_ok(), true);
    }
    for t in ["", ".", "e5", "1e", "1.2.3", "0x1", "--1", "infin", "1_000"] {
        assert!(!is_float_literal(&chars(t)), "{}", t);
        assert_eq!(t.parse::<f64>().is_ok(), false);
    }
}

#[test]
fn booleans() {
    assert_eq!(parse_bool(&chars("true")), Some(true));
    assert_eq!(parse_bool(&chars("false")), Some(false));
    assert_eq!(parse_bool(&chars("True")), None);
}

#[test]
fn splitting_at_top_level() {
    let parts = split_top_level(&chars(" a , [b, c] , 'd,e' "), ',').unwrap();
    let parts: Vec<String> = parts.iter().map(|p| p.iter().collect()).collect();
    assert_eq!(parts, vec!["a", "[b, c]", "'d,e'"]);
    assert!(split_top_level(&chars("   "), ',').unwrap().is_empty());
    assert_eq!(split_top_level(&chars("a]"), ','), Err(SplitError::UnexpectedClosingBracket));
    assert_eq!(split_top_level(&chars("[a"), ','), Err(SplitError::UnclosedBracket));
    assert_eq!(split_top_level(&chars("'a"), ','), Err(SplitError::UnclosedString));
    assert_eq!(split_top_level(&chars("a\\"), ','), Err(SplitError::TrailingEscape));
}

#[test]
fn lines_and_columns() {
    let t = chars("ab\ncd\n\nxyz");
    assert_eq!(get_line_and_column(&t, 0), (1, 1));
    assert_eq!(get_line_and_column(&t, 4), (2, 2));
    assert_eq!(get_line_and_column(&t, 6), (3, 1));
    assert_eq!(get_line_and_column(&t, 100), (4, 4));
}

#[test]
fn namespace_names() {
    assert!(is_valid_as_name("gen_1"));
    assert!(is_valid_as_name("_x"));
    assert!(!is_valid_as_name(""));
    assert!(!is_valid_as_name("1abc"));
    assert!(!is_valid_as_name("a-b"));
    assert_eq!(exported_function_name("gen", "roll"), Some("gen.roll".to_string()));
    assert_eq!(exported_function_name("gen", "_hidden"), None);
}

#[test]
fn variables_are_replaced_and_looked_up() {
    let mut compiler = TextCompiler::new(None);
    compiler.set_arg("a", DynamicValue::Bool(true));
    compiler.set_arg("b", DynamicValue::Null);
    compiler.set_arg("a", DynamicValue::String("x".to_string()));
    assert_eq!(compiler.args.len(), 2);
    match compiler.get_arg(&chars("a")) {
        Some(DynamicValue::String(s)) => assert_eq!(s, "x"),
        other => panic!("{:?}", other),
    }
    assert!(compiler.get_arg(&chars("c")).is_none());
}

#[test]
fn registering_twice_registers_once() {
    let mut compiler = TextCompiler::new(None);
    compiler.add_function("f");
    compiler.add_function("f");
    assert_eq!(compiler.functions.len(), 1);
    assert!(compiler.has_function(&chars("f")));
}

#[test]
fn character_conversions() {
    assert_eq!(string_of(&chars_of("héllo")), "héllo");
}
