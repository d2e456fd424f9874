use pratt::parser::{expr, parse, ParseError};
use pratt::tree::S;

fn text_of(input: &str) -> String {
    expr(input).unwrap().to_text()
}

#[test]
fn pratt_text_my() {
    let s = expr("1 * 2 + 3").unwrap();
    assert_eq!(s.to_text(), "(+ (* 1 2) 3)");
}

#[test]
fn text_all() {
    let s = expr("1").unwrap();
    assert_eq!(s.to_text(), "1");
    let s = expr("1 + 2 * 3").unwrap();
    assert_eq!(s.to_text(), "(+ 1 (* 2 3))");
    let s = expr("1 * 2 + 3").unwrap();
    assert_eq!(s.to_text(), "(+ (* 1 2) 3)");
    let s = expr("a + b * c * d + e").unwrap();
    assert_eq!(s.to_text(), "(+ (+ a (* (* b c) d)) e)");
    let s = expr("f . g . h").unwrap();
    assert_eq!(s.to_text(), "(. f (. g h))");
    let s = expr(" 1 + 2 + f . g . h * 3 * 4").unwrap();
    assert_eq!(s.to_text(), "(+ (+ 1 2) (* (* (. f (. g h)) 3) 4))",);
    let s = expr("--1 * 2").unwrap();
    assert_eq!(s.to_text(), "(* (- (- 1)) 2)");
    let s = expr("--f . g").unwrap();
    assert_eq!(s.to_text(), "(- (- (. f g)))");
    let s = expr("-9!").unwrap();
    assert_eq!(s.to_text(), "(- (! 9))");
    let s = expr("f . g !").unwrap();
    assert_eq!(s.to_text(), "(! (. f g))");
    let s = expr("(((0)))").unwrap();
    assert_eq!(s.to_text(), "0");
    let s = expr("x[0][1]").unwrap();
    assert_eq!(s.to_text(), "([ ([ x 0) 1)");
    let s = expr(
        "a ? b :
            c ? d
            : e",
    )
    .unwrap();
    assert_eq!(s.to_text(), "(? a b (? c d e))");
    let s = expr("a = 0 ? b : c = d").unwrap();
    assert_eq!(s.to_text(), "(= a (= (? 0 b c) d))")
}

#[test]
fn evaluating_text_my() {
    let s = expr("(+ 1 (* 2 3))");
    println!("{:?}", s);
}

#[test]
fn precedence_multiplication_binds_tighter() {
    assert_eq!(text_of("1 + 2 * 3"), "(+ 1 (* 2 3))");
    assert_eq!(text_of("1 * 2 + 3"), "(+ (* 1 2) 3)");
}

#[test]
fn left_associativity_of_plus_and_times() {
    assert_eq!(text_of("a + b * c * d + e"), "(+ (+ a (* (* b c) d)) e)");
}

#[test]
fn right_associativity_of_dot() {
    assert_eq!(text_of("f . g . h"), "(. f (. g h))");
}

#[test]
fn prefix_chaining() {
    assert_eq!(text_of("--1 * 2"), "(* (- (- 1)) 2)");
}

#[test]
fn postfix_binds_tighter_than_prefix() {
    assert_eq!(text_of("-9!"), "(- (! 9))");
}

#[test]
fn grouping_is_transparent() {
    assert_eq!(text_of("(((0)))"), "0");
}

#[test]
fn indexing_chains_left_to_right() {
    assert_eq!(text_of("x[0][1]"), "([ ([ x 0) 1)");
}

#[test]
fn ternary_nests_to_the_right() {
    assert_eq!(text_of("a ? b : c ? d : e"), "(? a b (? c d e))");
}

#[test]
fn assignment_and_ternary_mix() {
    assert_eq!(text_of("a = 0 ? b : c = d"), "(= a (= (? 0 b c) d))");
}

#[test]
fn missing_closing_parenthesis_is_mismatched_delimiter() {
    assert!(matches!(parse("(1 + 2"), Err(ParseError::MismatchedDelimiter)));
}

#[test]
fn two_expressions_are_trailing_input() {
    assert!(matches!(parse("1 2"), Err(ParseError::TrailingInput)));
}

#[test]
fn unknown_symbol_is_unexpected_token() {
    assert!(matches!(parse("$"), Err(ParseError::UnexpectedToken)));
}

#[test]
fn empty_input_is_unexpected_token() {
    assert!(matches!(parse(""), Err(ParseError::UnexpectedToken)));
    assert!(matches!(parse("   "), Err(ParseError::UnexpectedToken)));
}

#[test]
fn bare_closing_bracket_is_unexpected_token() {
    assert!(matches!(parse(")"), Err(ParseError::UnexpectedToken)));
    assert!(matches!(parse("]"), Err(ParseError::UnexpectedToken)));
}

#[test]
fn missing_closing_square_bracket_is_mismatched_delimiter() {
    assert!(matches!(parse("x[0"), Err(ParseError::MismatchedDelimiter)));
}

#[test]
fn missing_ternary_colon_is_mismatched_delimiter() {
    assert!(matches!(parse("a ? b"), Err(ParseError::MismatchedDelimiter)));
    assert!(matches!(parse("a ? b ] c"), Err(ParseError::MismatchedDelimiter)));
}

#[test]
fn unknown_operator_after_operand_is_unexpected_token() {
    assert!(matches!(parse("1 $ 2"), Err(ParseError::UnexpectedToken)));
}

#[test]
fn trailing_closer_is_trailing_input() {
    assert!(matches!(parse("1)"), Err(ParseError::TrailingInput)));
}

#[test]
fn rendering_a_prefix_chain_reparses_to_the_same_text() {
    let t = parse("--1").unwrap();
    let first = t.to_text();
    assert_eq!(first, "(- (- 1))");
    let again = parse(&first).unwrap().to_text();
    assert_eq!(again, first);

    let leaf = parse("7").unwrap();
    let leaf_text = leaf.to_text();
    let leaf_again = parse(&leaf_text).unwrap().to_text();
    assert_eq!(leaf_again, leaf_text);
}

#[test]
fn a_rendered_binary_application_does_not_reparse() {
    let t = parse("1 + 2").unwrap();
    let text = t.to_text();
    assert_eq!(text, "(+ 1 2)");
    assert!(matches!(parse(&text), Err(ParseError::MismatchedDelimiter)));
}

fn check_arity(t: &S) {
    match t {
        S::Atom(c) => {
            assert!(c.is_ascii_alphanumeric());
        }
        S::Cons(op, children) => {
            match *op {
                '?' => assert_eq!(children.len(), 3),
                '[' => assert_eq!(children.len(), 2),
                '!' => assert_eq!(children.len(), 1),
                '=' | '*' | '/' | '.' => assert_eq!(children.len(), 2),
                '+' | '-' => assert!(children.len() == 1 || children.len() == 2),
                other => panic!("unexpected operator {}", other),
            }
            for child in children {
                check_arity(child);
            }
        }
    }
}

#[test]
fn application_nodes_have_their_operators_arity() {
    for input in [
        "a = 0 ? b : c = d",
        "x[0][1] + --y! * (z . w)",
        "-1",
        "1 + 2 * 3 . 4",
    ] {
        let t = parse(input).unwrap();
        check_arity(&t);
    }
}

#[test]
fn unary_versus_binary_minus() {
    assert_eq!(text_of("-1 - -2"), "(- (- 1) (- 2))");
    assert_eq!(text_of("+1 + +2"), "(+ (+ 1) (+ 2))");
}

#[test]
fn division_and_factorial() {
    assert_eq!(text_of("8 / 2 / 2"), "(/ (/ 8 2) 2)");
    assert_eq!(text_of("3!!"), "(! (! 3))");
}

#[test]
fn index_body_resets_binding_power() {
    assert_eq!(text_of("x[a + b]"), "([ x (+ a b))");
}
