use pratt::lexer::{Lexer, Token};
use pratt::power::{infix_binding_power, postfix_binding_power, prefix_binding_power};

#[test]
fn tokenizer_classifies_and_skips_whitespace() {
    let mut lexer = Lexer::new(" 1 +x\t(\n$");
    assert_eq!(lexer.next(), Token::Atom('1'));
    assert_eq!(lexer.next(), Token::Op('+'));
    assert_eq!(lexer.next(), Token::Atom('x'));
    assert_eq!(lexer.next(), Token::Op('('));
    assert_eq!(lexer.next(), Token::Op('$'));
    assert_eq!(lexer.next(), Token::Eof);
    assert_eq!(lexer.next(), Token::Eof);
}

#[test]
fn peek_does_not_consume() {
    let mut lexer = Lexer::new("a*b");
    assert_eq!(lexer.peek(), Token::Atom('a'));
    assert_eq!(lexer.peek(), Token::Atom('a'));
    assert_eq!(lexer.next(), Token::Atom('a'));
    assert_eq!(lexer.peek(), Token::Op('*'));
    assert_eq!(lexer.next(), Token::Op('*'));
    assert_eq!(lexer.next(), Token::Atom('b'));
    assert_eq!(lexer.peek(), Token::Eof);
    assert_eq!(lexer.peek(), Token::Eof);
}

#[test]
fn empty_input_is_immediately_exhausted() {
    let mut lexer = Lexer::new("");
    assert_eq!(lexer.peek(), Token::Eof);
    assert_eq!(lexer.next(), Token::Eof);
}

#[test]
fn prefix_powers() {
    assert_eq!(prefix_binding_power('+'), ((), 9));
    assert_eq!(prefix_binding_power('-'), ((), 9));
}

#[test]
fn postfix_powers() {
    assert_eq!(postfix_binding_power('!'), Some((11, ())));
    assert_eq!(postfix_binding_power('['), Some((11, ())));
    assert_eq!(postfix_binding_power('+'), None);
    assert_eq!(postfix_binding_power(']'), None);
}

#[test]
fn infix_powers_encode_associativity() {
    assert_eq!(infix_binding_power('='), Some((2, 1)));
    assert_eq!(infix_binding_power('?'), Some((4, 3)));
    assert_eq!(infix_binding_power('+'), Some((5, 6)));
    assert_eq!(infix_binding_power('-'), Some((5, 6)));
    assert_eq!(infix_binding_power('*'), Some((7, 8)));
    assert_eq!(infix_binding_power('/'), Some((7, 8)));
    assert_eq!(infix_binding_power('.'), Some((14, 13)));
    assert_eq!(infix_binding_power('!'), None);
    assert_eq!(infix_binding_power('('), None);
}
