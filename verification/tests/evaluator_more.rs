use liakos::ast::{Expression, Statement};
use liakos::environment::Environment;
use liakos::evaluator::{eval_expression, eval_program, eval_statement, new_error};
use liakos::lexer::Lexer;
use liakos::object::Object;
use liakos::parser::Parser;

fn eval_in(input: &str, env: &mut Environment) -> Object {
    let mut parser = Parser::new(Lexer::new(input));
    let program = parser.parse_program();
    assert!(parser.errors.is_empty(), "parser errors: {:?}", parser.errors);
    eval_program(&program, env)
}

fn show(input: &str) -> String {
    let mut env = Environment::new();
    eval_in(input, &mut env).inspect()
}

#[test]
fn division_truncates_toward_zero() {
    assert_eq!(show("7 / 2"), "3");
    assert_eq!(show("-7 / 2"), "-3");
    assert_eq!(show("7 / -2"), "-3");
    assert_eq!(show("-7 / -2"), "3");
}

#[test]
fn more_errors() {
    let cases = [
        (r#""a" - "b""#, "ERROR: unknown operator: STRING - STRING"),
        (r#""a" == 1"#, "ERROR: type mismatch: STRING == INTEGER"),
        ("1(2)", "ERROR: not a function INTEGER"),
        ("1[0]", "ERROR: index operator not supported: INTEGER"),
        ("{[1]: 2}", "ERROR: unusable as hash key: ARRAY"),
        ("true < false", "ERROR: unknown operator: BOOLEAN < BOOLEAN"),
        ("-[1]", "ERROR: unknown operator: -ARRAY"),
        ("len(1, 2)", "ERROR: wrong number of arguments. got=2, want=1"),
        ("let f = fn(x) { x }; f(y)", "ERROR: identifier not found: y"),
    ];
    for (input, want) in cases {
        assert_eq!(show(input), want, "input: {}", input);
    }
}

#[test]
fn errors_stop_a_program() {
    assert_eq!(show("let a = -true; 5"), "ERROR: unknown operator: -BOOLEAN");
    assert_eq!(show("if (10 > 1) { true + false; 10 }"), "ERROR: unknown operator: BOOLEAN + BOOLEAN");
}

#[test]
fn truthiness() {
    assert_eq!(show("if (0) { 1 } else { 2 }"), "1");
    assert_eq!(show(r#"if ("") { 1 } else { 2 }"#), "1");
    assert_eq!(show("if (!1) { 1 } else { 2 }"), "2");
    assert_eq!(show("!!0"), "true");
}

#[test]
fn recursion_and_closures() {
    assert_eq!(
        show("let fib = fn(n) { if (n < 2) { n } else { fib(n - 1) + fib(n - 2) } }; fib(10);"),
        "55"
    );
    assert_eq!(
        show("let add = fn(a, b) { return a + b; }; add(2, 3);"),
        "5"
    );
    assert_eq!(
        show("let x = 1; let f = fn() { x }; let g = fn(x) { f() }; g(5);"),
        "1"
    );
    assert_eq!(
        show("let map = fn(arr, f) { if (len(arr) == 0) { [] } else { push(map(rest(arr), f), f(first(arr))) } }; map([1, 2, 3], fn(x) { x * 2 });"),
        "[6, 4, 2]"
    );
}

#[test]
fn values_are_shown() {
    assert_eq!(show("[1, true, \"s\", [2]]"), "[1, true, s, [2]]");
    assert_eq!(show("{\"a\": 1}"), "{a: 1}");
    assert_eq!(show("fn(x, y) { x + y }"), "fn(x, y) {\n(x + y)\n}");
    assert_eq!(show("len"), "builtin function");
    assert_eq!(show("let a = 1;"), "null");
    assert_eq!(show("{1: 1, 1: 2}[1]"), "2");
}

#[test]
fn let_binding_is_visible_afterwards() {
    let mut env = Environment::new();
    assert_eq!(eval_in("let n = 2 * 21; n", &mut env).inspect(), "42");
    assert_eq!(eval_in("n + 1", &mut env).inspect(), "43");
}

#[test]
fn statements_and_expressions_one_at_a_time() {
    let mut parser = Parser::new(Lexer::new("let a = 3; return a * 2; a"));
    let program = parser.parse_program();
    let mut env = Environment::new();
    let r0 = eval_statement(&program.statements[0], &mut env, 0);
    assert!(matches!(r0, Object::Null));
    let r1 = eval_statement(&program.statements[1], &mut env, 0);
    match r1 {
        Object::ReturnValue(v) => assert!(matches!(*v, Object::Integer(6))),
        other => panic!("expected a return value, got {:?}", other),
    }
    match &program.statements[2] {
        Statement::Expression(e) => {
            assert!(matches!(e, Expression::Identifier(_)));
            assert!(matches!(eval_expression(e, &mut env, 0), Object::Integer(3)));
        },
        other => panic!("expected an expression statement, got {:?}", other),
    }
}

#[test]
fn new_error_builds_an_error() {
    match new_error("boom".to_string()) {
        Object::Error(m) => assert_eq!(m, "boom"),
        other => panic!("got {:?}", other),
    }
}

#[test]
fn print_output_goes_to_the_environment() {
    let mut env = Environment::new();
    let r = eval_in("print(1 + 1, \"x\"); 3", &mut env);
    assert_eq!(r.inspect(), "3");
    assert_eq!(env.take_output(), vec!["2".to_string(), "x".to_string()]);
}

#[test]
fn evaluation_is_repeatable() {
    let src = "let f = fn(n) { if (n < 1) { 0 } else { n + f(n - 1) } }; [f(10), {1: f(3)}]";
    let first = show(src);
    assert_eq!(first, "[55, {1: 6}]");
    assert_eq!(show(src), first);
}

#[test]
fn hash_keys_are_stored_once() {
    assert_eq!(show("{1: 1, 2: 3, 1: 2}"), "{1: 2, 2: 3}");
    assert_eq!(show("{1: 1, 2: 3, 1: 2}[2]"), "3");
    assert_eq!(show("{\"a\": 1, true: 2, 3: 4}[true]"), "2");
    assert_eq!(show("{1: 2}[3]"), "null");
}

#[test]
fn calls_keep_the_global_scope() {
    let mut env = Environment::new();
    eval_in("let g = 7; let f = fn(x) { let y = x; y };", &mut env);
    assert_eq!(eval_in("f(1)", &mut env).inspect(), "1");
    assert_eq!(eval_in("g", &mut env).inspect(), "7");
    assert_eq!(eval_in("y", &mut env).inspect(), "ERROR: identifier not found: y");
}

#[test]
fn lists_stop_at_the_first_error() {
    assert_eq!(show("[1, -true, foo]"), "ERROR: unknown operator: -BOOLEAN");
    assert_eq!(show("len(1, -true)"), "ERROR: unknown operator: -BOOLEAN");
    assert_eq!(show("foo + -true"), "ERROR: identifier not found: foo");
    assert_eq!(show("{-true: foo}"), "ERROR: unknown operator: -BOOLEAN");
}

#[test]
fn programs_stop_at_the_first_return_or_error() {
    assert_eq!(show("1; return 2; -true"), "2");
    assert_eq!(show("1; -true; return 2"), "ERROR: unknown operator: -BOOLEAN");
    assert_eq!(show("let a = 1;"), "null");
    assert_eq!(show(""), "null");
}

#[test]
fn blocks_stop_at_return_and_keep_it_wrapped() {
    assert_eq!(show("if (true) { 1; 2 }"), "2");
    assert_eq!(show("if (true) { }"), "null");
    assert_eq!(show("let f = fn() { if (true) { if (true) { return 3; } 4 } 5 }; f()"), "3");
}

#[test]
fn calls_use_the_scope_the_function_was_made_in() {
    assert_eq!(show("let x = 1; let f = fn(y) { x + y }; let g = fn(x) { f(10) }; g(100)"), "11");
    assert_eq!(show("let f = fn(a, b) { a }; f(1, 2, 3)"), "1");
    assert_eq!(show("let x = 7; let f = fn(x, x) { x }; f(1, 2)"), "2");
    assert_eq!(show("let x = 7; let f = fn(a, x) { x }; f(1)"), "7");
    assert_eq!(show("let x = 7; let f = fn(x) { x }; f(1); x"), "7");
}

#[test]
fn later_hash_keys_win() {
    assert_eq!(show("{1: \"a\", 2: \"b\", 1: \"c\"}[1]"), "c");
    assert_eq!(show("{1: \"a\", 2: \"b\", 1: \"c\"}[2]"), "b");
    assert_eq!(show("{1: \"a\", fn() {1}: 2}"), "ERROR: unusable as hash key: FUNCTION");
}
