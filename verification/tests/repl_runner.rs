use liakos::environment::Environment;
use liakos::lexer::Lexer;
use liakos::parser::Parser;
use liakos::repl::{error_report, prompt, respond, trim_line_breaks};
use liakos::runner::{file_error_report, run_program, run_source};

#[test]
fn repl_prompt_and_trimming() {
    assert_eq!(prompt(), ">> ");
    assert_eq!(trim_line_breaks("let a = 1;\r\n"), "let a = 1;");
    assert_eq!(trim_line_breaks("x\n\n\r"), "x");
    assert_eq!(trim_line_breaks("\n x"), "\n x");
    assert_eq!(trim_line_breaks(""), "");
}

#[test]
fn repl_session_keeps_bindings() {
    let mut env = Environment::new();
    assert!(respond("let add = fn(a, b) { return a + b; };\n", &mut env).is_empty());
    assert_eq!(respond("add(2, 3);\n", &mut env), vec!["5".to_string()]);
    assert!(respond("let fib = fn(n) { if (n < 2) { n } else { fib(n-1) + fib(n-2) } };\n", &mut env).is_empty());
    assert_eq!(respond("fib(10);\n", &mut env), vec!["55".to_string()]);
}

#[test]
fn repl_reports_parse_errors_and_keeps_env() {
    let mut env = Environment::new();
    respond("let a = 1;", &mut env);
    let out = respond("let = 2;", &mut env);
    assert_eq!(
        out,
        vec![
            "Error".to_string(),
            " parser errors:".to_string(),
            "\texpected next token to be IDENT, got = instead".to_string(),
            "\tno prefix parse functions for = found".to_string(),
        ]
    );
    assert_eq!(respond("a", &mut env), vec!["1".to_string()]);
}

#[test]
fn repl_print_lines_stay_in_env() {
    let mut env = Environment::new();
    assert_eq!(respond("print(\"hi\")", &mut env), vec!["null".to_string()]);
    assert_eq!(env.take_output(), vec!["hi".to_string()]);
}

#[test]
fn error_reports() {
    let errs = vec!["one".to_string(), "two".to_string()];
    assert_eq!(
        error_report(&errs),
        vec!["Error".to_string(), " parser errors:".to_string(), "\tone".to_string(), "\ttwo".to_string()]
    );
    assert_eq!(
        file_error_report(&errs),
        vec!["Parser errors:".to_string(), "\tone".to_string(), "\ttwo".to_string()]
    );
}

#[test]
fn running_a_file_shows_non_null_values() {
    let src = "let a = 5;\nprint(\"start\");\na * 2;\nlet b = fn(x) { x };\nb(a);\n";
    assert_eq!(
        run_source(src),
        Ok(vec!["start".to_string(), "10".to_string(), "5".to_string()])
    );
}

#[test]
fn running_a_file_keeps_going_after_return_and_errors() {
    let src = "return 1; 2; -true; 3";
    assert_eq!(
        run_source(src),
        Ok(vec![
            "1".to_string(),
            "2".to_string(),
            "ERROR: unknown operator: -BOOLEAN".to_string(),
            "3".to_string(),
        ])
    );
}

#[test]
fn running_a_file_with_parse_errors() {
    assert_eq!(
        run_source("let = 1;"),
        Err(vec![
            "Parser errors:".to_string(),
            "\texpected next token to be IDENT, got = instead".to_string(),
            "\tno prefix parse functions for = found".to_string(),
        ])
    );
}

#[test]
fn run_program_on_parsed_program() {
    let mut parser = Parser::new(Lexer::new("1; 2"));
    let program = parser.parse_program();
    assert_eq!(run_program(&program), vec!["1".to_string(), "2".to_string()]);
}

#[test]
fn repl_shows_null_except_after_a_let() {
    let mut env = Environment::new();
    assert!(respond("let a = 1;", &mut env).is_empty());
    assert!(respond("let f = fn() { a }", &mut env).is_empty());
    assert_eq!(respond("if (false) { 10 }", &mut env), vec!["null".to_string()]);
    assert_eq!(respond("", &mut env), vec!["null".to_string()]);
    assert_eq!(respond("let b = 2; b", &mut env), vec!["2".to_string()]);
    assert_eq!(respond("f()", &mut env), vec!["1".to_string()]);
    assert_eq!(respond("let c = -true;", &mut env), vec!["ERROR: unknown operator: -BOOLEAN".to_string()]);
}
