use liakos::lexer::Lexer;
use liakos::parser::Parser;

fn parse(input: &str) -> (String, Vec<String>) {
    let mut parser = Parser::new(Lexer::new(input));
    let program = parser.parse_program();
    (program.to_text(), parser.errors.clone())
}

fn assert_parses_to(input: &str, want: &str) {
    let (text, errors) = parse(input);
    assert!(errors.is_empty(), "errors for {}: {:?}", input, errors);
    assert_eq!(text, want, "input: {}", input);
}

#[test]
fn operator_precedence() {
    let cases = [
        ("-a * b", "((-a) * b)"),
        ("!-a", "(!(-a))"),
        ("a + b + c", "((a + b) + c)"),
        ("a + b - c", "((a + b) - c)"),
        ("a * b * c", "((a * b) * c)"),
        ("a * b / c", "((a * b) / c)"),
        ("a + b / c", "(a + (b / c))"),
        ("a + b * c + d / e - f", "(((a + (b * c)) + (d / e)) - f)"),
        ("3 + 4; -5 * 5", "(3 + 4)((-5) * 5)"),
        ("5 > 4 == 3 < 4", "((5 > 4) == (3 < 4))"),
        ("5 < 4 != 3 > 4", "((5 < 4) != (3 > 4))"),
        ("3 + 4 * 5 == 3 * 1 + 4 * 5", "((3 + (4 * 5)) == ((3 * 1) + (4 * 5)))"),
        ("3 > 5 == false", "((3 > 5) == false)"),
        ("1 + (2 + 3) + 4", "((1 + (2 + 3)) + 4)"),
        ("(5 + 5) * 2", "((5 + 5) * 2)"),
        ("-(5 + 5)", "(-(5 + 5))"),
        ("!(true == true)", "(!(true == true))"),
        ("a + add(b * c) + d", "((a + add((b * c))) + d)"),
        ("add(a, b, 1, 2 * 3, 4 + 5, add(6, 7 * 8))", "add(a, b, 1, (2 * 3), (4 + 5), add(6, (7 * 8)))"),
        ("a * [1, 2, 3, 4][b * c] * d", "((a * ([1, 2, 3, 4][(b * c)])) * d)"),
        ("add(a * b[2], b[1], 2 * [1, 2][1])", "add((a * (b[2])), (b[1]), (2 * ([1, 2][1])))"),
    ];
    for (input, want) in cases {
        assert_parses_to(input, want);
    }
}

#[test]
fn statements_print_back() {
    assert_parses_to("let x = 5;", "let x = 5;");
    assert_parses_to("let y = true; return y;", "let y = true;return y;");
    assert_parses_to("if (x < y) { x } else { y }", "if(x < y) xelse y");
    assert_parses_to("fn(x, y) { x + y; }", "fn(x,y) (x + y)");
    assert_parses_to("fn() { 1 }()", "fn() 1()");
    assert_parses_to(r#"{"one": 1, "two": 2}"#, "{one:1, two:2}");
    assert_parses_to("{}", "{}");
    assert_parses_to("[]", "[]");
    assert_parses_to(r#""hello world""#, "hello world");
}

#[test]
fn let_without_name_reports_errors() {
    let (text, errors) = parse("let = 5;");
    assert_eq!(
        errors,
        vec![
            "expected next token to be IDENT, got = instead".to_string(),
            "no prefix parse functions for = found".to_string(),
        ]
    );
    assert_eq!(text, "5");
}

#[test]
fn let_without_assign_reports_error() {
    let (_, errors) = parse("let x 5;");
    assert_eq!(errors[0], "expected next token to be =, got INT instead");
}

#[test]
fn return_without_value_reports_error() {
    let (_, errors) = parse("return;");
    assert_eq!(errors, vec!["no prefix parse functions for ; found".to_string()]);
}

#[test]
fn integer_literal_out_of_range() {
    let (_, errors) = parse("9223372036854775808");
    assert_eq!(errors, vec!["could not parse \"9223372036854775808\" as integer".to_string()]);
    assert_parses_to("9223372036854775807", "9223372036854775807");
}

#[test]
fn illegal_character_reports_error() {
    let (_, errors) = parse("@");
    assert_eq!(errors, vec!["no prefix parse functions for ILLEGAL found".to_string()]);
}

#[test]
fn unclosed_group_reports_error() {
    let (_, errors) = parse("(1 + 2");
    assert_eq!(errors, vec!["expected next token to be ), got EOF instead".to_string()]);
}

#[test]
fn unclosed_hash_reports_error() {
    let (_, errors) = parse("{1: 2");
    assert_eq!(errors, vec!["expected next token to be ,, got EOF instead".to_string()]);
}

#[test]
fn empty_input_parses_to_nothing() {
    assert_parses_to("", "");
    assert_parses_to("   \n\t ", "");
}

#[test]
fn errors_are_kept_in_order() {
    let (_, errors) = parse("let = 1; let y 2;");
    assert_eq!(errors.len(), 3);
    assert_eq!(errors[0], "expected next token to be IDENT, got = instead");
    assert_eq!(errors[1], "no prefix parse functions for = found");
    assert_eq!(errors[2], "expected next token to be =, got INT instead");
}
