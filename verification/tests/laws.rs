use dtr::compiler::TextCompiler;
use dtr::pattern::Found;
use dtr::render::{Answer, Outcome, Request};
use dtr::value::DynamicValue;

fn text(s: &str) -> String {
    s.to_string()
}

fn shown(outcome: &Outcome) -> String {
    format!("{:?}", outcome)
}

fn number(s: &str) -> String {
    DynamicValue::Number(text(s)).to_output_string().iter().collect()
}

#[test]
fn further_answers_change_a_finished_run_nothing() {
    let mut compiler = TextCompiler::new(None);
    compiler.add_function("f");
    let template = "a ~fn:f(1) b";
    let answers = vec![Answer::Returned(DynamicValue::String(text("X")))];
    let first = compiler.compile(template, &answers);
    assert!(matches!(&first, Outcome::Finished(s) if s == "a X b"));
    let more = vec![
        Answer::Returned(DynamicValue::String(text("X"))),
        Answer::Returned(DynamicValue::Null),
        Answer::Loaded(Ok(text("unused"))),
    ];
    assert_eq!(shown(&compiler.compile(template, &more)), shown(&first));
}

#[test]
fn errors_outside_debug_leave_the_rest_rendered() {
    let mut compiler = TextCompiler::new(None);
    compiler.add_function("f");
    compiler.add_function("g");
    let template = "~fn:f([1) ~fn:g(2)";
    match compiler.compile(template, &vec![]) {
        Outcome::Need(Request::Call { name, args }) => {
            assert_eq!(name, "g");
            assert!(matches!(&args[0], DynamicValue::Number(s) if s == "2"));
        },
        other => panic!("unexpected outcome {:?}", other),
    }
    let answers = vec![Answer::Returned(DynamicValue::Number(text("5")))];
    assert!(matches!(compiler.compile(template, &answers), Outcome::Finished(s) if s == "~fn:f([1) 5"));
}

#[test]
fn self_include_is_not_read_outside_debug() {
    let mut compiler = TextCompiler::new(None);
    compiler.add_function("f");
    let template = "~include:a.txt ~fn:f()";
    let answers = vec![Answer::Resolved { path: text("a.txt"), key: text("/k/a.txt") }];
    match compiler.compile_with_file(template, "a.txt", "/k/a.txt", &answers) {
        Outcome::Need(Request::Call { name, .. }) => assert_eq!(name, "f"),
        other => panic!("unexpected outcome {:?}", other),
    }
}

#[test]
fn include_is_resolved_against_its_file() {
    let compiler = TextCompiler::new(None);
    match compiler.compile_with_file("x ~include:'part.txt'", "dir/t.txt", "/k/dir/t.txt", &vec![]) {
        Outcome::Need(Request::Resolve { target, relative_to }) => {
            assert_eq!(target, "part.txt");
            assert_eq!(relative_to, Some(text("dir/t.txt")));
        },
        other => panic!("unexpected outcome {:?}", other),
    }
}

#[test]
fn text_from_no_file_ignores_the_key() {
    let compiler = TextCompiler::new(None);
    let template = "~include:b.txt";
    let answers = vec![Answer::Resolved { path: text("b.txt"), key: text("/k/b.txt") }];
    let plain = compiler.compile(template, &answers);
    assert!(matches!(&plain, Outcome::Need(Request::Read { path }) if path == "b.txt"));
    let keyed = compiler.compile_with_file(template, "<input>", "/k/b.txt", &answers);
    assert_eq!(shown(&keyed), shown(&plain));
}

#[test]
fn call_is_replaced_in_place() {
    let mut compiler = TextCompiler::new(None);
    compiler.add_function("f");
    let answers = vec![Answer::Returned(DynamicValue::List(vec![
        DynamicValue::Bool(true),
        DynamicValue::Number(text("2")),
    ]))];
    assert!(matches!(
        compiler.compile("pre ~fn:f(1) post", &answers),
        Outcome::Finished(s) if s == "pre [true, 2] post"
    ));
}

#[test]
fn whole_numbers_print_as_written() {
    assert_eq!(number("0"), "0");
    assert_eq!(number("123"), "123");
    assert_eq!(number("-45"), "-45");
    assert_eq!(number("9223372036854775807"), "9223372036854775807");
    assert_eq!(number("-9223372036854775808"), "-9223372036854775808");
    assert_eq!(number("3.0"), "3");
    assert_eq!(number("120.0"), "120");
    assert_eq!(number("0.0"), "0");
}

#[test]
fn calls_left_as_they_stand_leave_the_text_unchanged() {
    let mut compiler = TextCompiler::new(None);
    compiler.add_function("f");
    let template = "x ~fn:g(1) y ~fn:f('open) z";
    assert!(matches!(compiler.compile(template, &vec![]), Outcome::Finished(s) if s == template));
    compiler.set_debug_mode(true);
    match compiler.compile(template, &vec![]) {
        Outcome::Failed(error) => {
            assert_eq!(error.message, "Unclosed string literal in function arguments");
            assert_eq!((error.line, error.column), (1, 25));
        },
        other => panic!("unexpected outcome {:?}", other),
    }
}

#[test]
fn failed_call_is_left_unless_debugging() {
    let mut compiler = TextCompiler::new(None);
    compiler.add_function("f");
    let template = "a\n ~fn:f(1) b";
    let answers = vec![Answer::CallFailed(text("boom"))];
    assert!(matches!(compiler.compile(template, &answers), Outcome::Finished(s) if s == template));
    compiler.set_debug_mode(true);
    match compiler.compile(template, &answers) {
        Outcome::Failed(error) => {
            assert_eq!(error.message, "Function call failed for 'f': boom");
            assert_eq!((error.line, error.column), (2, 2));
        },
        other => panic!("unexpected outcome {:?}", other),
    }
}

fn chars(s: &str) -> Vec<char> {
    s.chars().collect()
}

#[test]
fn texts_that_are_no_dictionary() {
    let compiler = TextCompiler::new(None);
    for t in ["{a}", "{a: 1: 2}", "{: 1}", "[1]", "{a: [1}"] {
        assert!(matches!(compiler.parse_dict(&chars(t)), Ok(None)), "{}", t);
    }
    match compiler.parse_dict(&chars(" { a : 1 , , 'b': } ")) {
        Ok(Some(v)) => assert_eq!(format!("{:?}", v), "Dict([(\"a\", Number(\"1\")), (\"b\", Null)])"),
        other => panic!("unexpected {:?}", other),
    }
}

#[test]
fn list_items_are_read_one_by_one() {
    let compiler = TextCompiler::new(None);
    match compiler.parse_list(&chars("[ , true, [2], 'x' ]")) {
        Ok(Some(v)) => assert_eq!(
            format!("{:?}", v),
            "List([Null, Bool(true), List([Number(\"2\")]), String(\"x\")])"
        ),
        other => panic!("unexpected {:?}", other),
    }
}

#[test]
fn argument_errors_in_order() {
    let compiler = TextCompiler::new(None);
    let message = |s: &str| match compiler.parse_args(&chars(s)) {
        Err(dtr::arguments::ArgsError::Syntax { message, index }) => (message, index),
        other => panic!("unexpected {:?}", other),
    };
    assert_eq!(message("a, b)"), (text("Unexpected closing bracket in function arguments"), 4));
    assert_eq!(message("[a, 'b"), (text("Unclosed bracket in function arguments"), 6));
    assert_eq!(message("'a"), (text("Unclosed string literal in function arguments"), 2));
    assert_eq!(message("a\\"), (text("Trailing escape character in function arguments"), 2));
    assert!(matches!(compiler.parse_args(&chars("  ")), Ok(v) if v.is_empty()));
    assert!(matches!(compiler.parse_args(&chars("1, 2,")), Ok(v) if v.len() == 2));
}

#[test]
fn calls_given_their_matches() {
    let mut compiler = TextCompiler::new(None);
    compiler.add_function("f");
    let text_chars = chars("x ~fn:f(1) y");
    let found = vec![Found {
        before: text("x "),
        whole: text("~fn:f(1)"),
        first: Some(text("f")),
        second: Some(text("1")),
    }];
    let answers = vec![Answer::Returned(DynamicValue::String(text("R")))];
    match compiler.expand_found_calls(&answers, &text_chars, &chars("<input>"), &found, 0) {
        (Ok(out), 1) => assert_eq!(out.iter().collect::<String>(), "x R y"),
        other => panic!("unexpected {:?}", other.1),
    }
}

#[test]
fn split_gives_back_the_text() {
    let text_chars = chars(" a , [b, c] , 'd,e' ,, \\, ");
    let parts = dtr::splitter::split_top_level(&text_chars, ',').unwrap();
    let parts: Vec<String> = parts.iter().map(|p| p.iter().collect()).collect();
    assert_eq!(parts.len(), 5);
    let strip = |s: &str| s.chars().filter(|c| !c.is_whitespace()).collect::<String>();
    let whole: String = text_chars.iter().collect();
    assert_eq!(strip(&parts.join(",")), strip(&whole));
    for p in &parts {
        assert_eq!(p.trim(), p);
    }
}

#[test]
fn arguments_fail_only_on_a_lone_quote() {
    let compiler = TextCompiler::new(None);
    for t in ["\"", " ' "] {
        assert!(compiler.parse_argument(&chars(t)).is_err(), "{}", t);
    }
    for t in ["\"\"", "x'", "[1, 'a']", "{a: 'b'}", "a\"b", "[1, \"]", "{a: '}"] {
        assert!(compiler.parse_argument(&chars(t)).is_ok(), "{}", t);
    }
}

#[test]
fn first_failing_call_stops_debug_rendering() {
    let mut compiler = TextCompiler::new(None);
    compiler.add_function("f");
    compiler.set_debug_mode(true);
    let template = "~fn:g(0) ~fn:f(1) ~fn:f([) ~fn:f(2)";
    let answers = vec![Answer::Returned(DynamicValue::Null)];
    match compiler.compile(template, &answers) {
        Outcome::Failed(error) => {
            assert_eq!(error.message, "Unclosed bracket in function arguments");
            assert_eq!((error.line, error.column), (1, 26));
        },
        other => panic!("unexpected outcome {:?}", other),
    }
    compiler.set_debug_mode(false);
    match compiler.compile(template, &answers) {
        Outcome::Need(Request::Call { args, .. }) => {
            assert!(matches!(&args[0], DynamicValue::Number(s) if s == "2"));
        },
        other => panic!("unexpected outcome {:?}", other),
    }
}
