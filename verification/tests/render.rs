use dtr::compiler::{CompilerError, Fault, PatternRole, TextCompiler};
use dtr::engine::Halt;
use dtr::render::{Answer, Outcome, Request};
use dtr::syntax::CompilerSyntax;
use dtr::value::DynamicValue;

fn text(s: &str) -> String {
    s.to_string()
}

fn finished(outcome: Outcome) -> String {
    match outcome {
        Outcome::Finished(s) => s,
        other => panic!("expected a finished rendering, got {:?}", other),
    }
}

fn needed(outcome: Outcome) -> Request {
    match outcome {
        Outcome::Need(r) => r,
        other => panic!("expected a request, got {:?}", other),
    }
}

fn failed(outcome: Outcome) -> CompilerError {
    match outcome {
        Outcome::Failed(e) => e,
        other => panic!("expected an error, got {:?}", other),
    }
}

fn describe_values(values: &[DynamicValue]) -> Vec<String> {
    values.iter().map(|v| format!("{:?}", v)).collect()
}

#[test]
fn plain_text_is_unchanged() {
    let compiler = TextCompiler::new(None);
    assert_eq!(finished(compiler.compile("plain text", &vec![])), "plain text");
}

#[test]
fn unregistered_function_is_left_as_it_stands() {
    let compiler = TextCompiler::new(None);
    let template = "a ~fn:missing.call(1, 2) b";
    assert_eq!(finished(compiler.compile(template, &vec![])), template);
}

#[test]
fn registered_function_is_asked_for_then_replaced() {
    let mut compiler = TextCompiler::new(None);
    compiler.add_function("str.repeat");
    let template = "Result: ~fn:str.repeat('ha', 3)";
    match needed(compiler.compile(template, &vec![])) {
        Request::Call { name, args } => {
            assert_eq!(name, "str.repeat");
            assert_eq!(args.len(), 2);
            assert!(matches!(&args[0], DynamicValue::String(s) if s == "ha"));
            assert!(matches!(&args[1], DynamicValue::Number(s) if s == "3"));
        },
        other => panic!("unexpected request {:?}", other),
    }
    let answers = vec![Answer::Returned(DynamicValue::String(text("hahaha")))];
    assert_eq!(finished(compiler.compile(template, &answers)), "Result: hahaha");
}

#[test]
fn each_call_is_asked_for_in_order() {
    let mut compiler = TextCompiler::new(None);
    compiler.add_function("f");
    let template = "~fn:f(1)-~fn:f(2)";
    let answers = vec![Answer::Returned(DynamicValue::Bool(true))];
    match needed(compiler.compile(template, &answers)) {
        Request::Call { name, args } => {
            assert_eq!(name, "f");
            assert!(matches!(&args[0], DynamicValue::Number(s) if s == "2"));
        },
        other => panic!("unexpected request {:?}", other),
    }
    let answers = vec![
        Answer::Returned(DynamicValue::Bool(true)),
        Answer::Returned(DynamicValue::Null),
    ];
    assert_eq!(finished(compiler.compile(template, &answers)), "true-");
}

#[test]
fn variables_resolve_in_arguments() {
    let mut compiler = TextCompiler::new(None);
    compiler.add_function("text.upper");
    compiler.set_arg("name", DynamicValue::String(text("Ada")));
    match needed(compiler.compile("~fn:text.upper($name)", &vec![])) {
        Request::Call { args, .. } => {
            assert!(matches!(&args[0], DynamicValue::String(s) if s == "Ada"));
        },
        other => panic!("unexpected request {:?}", other),
    }
}

#[test]
fn unset_variable_is_a_string() {
    let mut compiler = TextCompiler::new(None);
    compiler.add_function("f");
    compiler.set_arg("name", DynamicValue::Bool(false));
    compiler.clear_args();
    match needed(compiler.compile("~fn:f($name)", &vec![])) {
        Request::Call { args, .. } => {
            assert!(matches!(&args[0], DynamicValue::String(s) if s == "$name"));
        },
        other => panic!("unexpected request {:?}", other),
    }
}

#[test]
fn empty_arguments_become_null() {
    let mut compiler = TextCompiler::new(None);
    compiler.add_function("f");
    match needed(compiler.compile("~fn:f(a,,b, )", &vec![])) {
        Request::Call { args, .. } => {
            assert_eq!(
                describe_values(&args),
                vec!["String(\"a\")", "Null", "String(\"b\")"]
            );
        },
        other => panic!("unexpected request {:?}", other),
    }
}

#[test]
fn lists_dicts_booleans_and_quotes() {
    let mut compiler = TextCompiler::new(None);
    compiler.add_function("f");
    match needed(compiler.compile("~fn:f([1, 'x', ], {\"k\": true, b: , k: 2}, \"q, r\", false)", &vec![])) {
        Request::Call { args, .. } => {
            assert_eq!(
                describe_values(&args),
                vec![
                    "List([Number(\"1\"), String(\"x\"), Null])",
                    "Dict([(\"k\", Number(\"2\")), (\"b\", Null)])",
                    "String(\"q, r\")",
                    "Bool(false)",
                ]
            );
        },
        other => panic!("unexpected request {:?}", other),
    }
}

#[test]
fn include_is_resolved_read_and_rendered() {
    let mut compiler = TextCompiler::new(None);
    compiler.add_function("g");
    let template = "[~include:\"footer.txt\"]";
    match needed(compiler.compile(template, &vec![])) {
        Request::Resolve { target, relative_to } => {
            assert_eq!(target, "footer.txt");
            assert_eq!(relative_to, None);
        },
        other => panic!("unexpected request {:?}", other),
    }
    let mut answers = vec![Answer::Resolved { path: text("/t/footer.txt"), key: text("/t/footer.txt") }];
    match needed(compiler.compile(template, &answers)) {
        Request::Read { path } => assert_eq!(path, "/t/footer.txt"),
        other => panic!("unexpected request {:?}", other),
    }
    answers.push(Answer::Loaded(Ok(text("bye ~fn:g()"))));
    match needed(compiler.compile(template, &answers)) {
        Request::Call { name, args } => {
            assert_eq!(name, "g");
            assert!(args.is_empty());
        },
        other => panic!("unexpected request {:?}", other),
    }
    answers.push(Answer::Returned(DynamicValue::Number(text("7"))));
    assert_eq!(finished(compiler.compile(template, &answers)), "[bye 7]");
}

#[test]
fn failed_include_is_left_unless_debugging() {
    let mut compiler = TextCompiler::new(None);
    let template = "x\n  ~include:missing.txt";
    let answers = vec![
        Answer::Resolved { path: text("missing.txt"), key: text("/t/missing.txt") },
        Answer::Loaded(Err(text("not found"))),
    ];
    assert_eq!(finished(compiler.compile(template, &answers)), template);
    compiler.set_debug_mode(true);
    let error = failed(compiler.compile(template, &answers));
    assert_eq!(error.file_name, "<input>");
    assert_eq!(error.line, 2);
    assert_eq!(error.column, 3);
    assert_eq!(error.message, "Include failed for 'missing.txt': not found");
    assert_eq!(error.describe(), "<input>:2:3: Include failed for 'missing.txt': not found");
}

#[test]
fn circular_include_is_detected() {
    let mut compiler = TextCompiler::new(None);
    let template = "~include:a.txt";
    let answers = vec![Answer::Resolved { path: text("a.txt"), key: text("/k/a.txt") }];
    assert_eq!(
        finished(compiler.compile_with_file(template, "a.txt", "/k/a.txt", &answers)),
        template
    );
    compiler.set_debug_mode(true);
    let error = failed(compiler.compile_with_file(template, "a.txt", "/k/a.txt", &answers));
    assert_eq!(error.message, "Circular include detected for 'a.txt'");
    assert_eq!((error.line, error.column), (1, 1));
}

#[test]
fn argument_syntax_error_position() {
    let mut compiler = TextCompiler::new(None);
    compiler.add_function("f");
    let template = "ab\ncd ~fn:f([1, 2)";
    assert_eq!(finished(compiler.compile(template, &vec![])), template);
    compiler.set_debug_mode(true);
    let error = failed(compiler.compile(template, &vec![]));
    assert_eq!(error.message, "Unclosed bracket in function arguments");
    assert_eq!((error.line, error.column), (2, 15));
}

#[test]
fn lone_quote_argument_is_a_fault() {
    let mut compiler = TextCompiler::new(None);
    compiler.add_function("f");
    match compiler.compile("~fn:f(\")", &vec![]) {
        Outcome::Fault(Fault::LoneQuote { token }) => assert_eq!(token, "\""),
        other => panic!("unexpected outcome {:?}", other),
    }
}

#[test]
fn invalid_function_pattern_is_a_fault() {
    let syntax = CompilerSyntax::from_options(None, None, None, Some(text("(")), None);
    let compiler = TextCompiler::new(Some(syntax));
    match compiler.compile("x", &vec![]) {
        Outcome::Fault(Fault::InvalidPattern { role, .. }) => assert_eq!(role, PatternRole::Function),
        other => panic!("unexpected outcome {:?}", other),
    }
}

#[test]
fn wrong_answer_is_a_protocol_fault() {
    let mut compiler = TextCompiler::new(None);
    compiler.add_function("f");
    let answers = vec![Answer::Loaded(Ok(text("x")))];
    assert!(matches!(compiler.compile("~fn:f()", &answers), Outcome::Fault(Fault::Protocol)));
}

#[test]
fn custom_syntax_prefixes() {
    let syntax = CompilerSyntax::from_options(Some(text("@@")), Some(text("@@include:")), Some(text("@")), None, None);
    let mut compiler = TextCompiler::new(Some(syntax));
    compiler.add_function("f");
    compiler.set_arg("v", DynamicValue::Number(text("1.5")));
    match needed(compiler.compile("@@f(@v)", &vec![])) {
        Request::Call { args, .. } => assert!(matches!(&args[0], DynamicValue::Number(s) if s == "1.5")),
        other => panic!("unexpected request {:?}", other),
    }
    let _ = Halt::Fault(Fault::Protocol);
}
