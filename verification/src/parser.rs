//! The precedence-climbing parser.
//!
//! `spec_expr_bp` and `spec_extend` state the algorithm mathematically over
//! a token sequence and a cursor, with an explicit fuel bound that makes the
//! recursion visibly well-founded; since every step consumes at least one
//! token, any fuel beyond the number of remaining tokens is enough, and the
//! result no longer depends on it.  The executable parser mirrors the
//! specification exactly: `parse` returns precisely `spec_parse(input@)`.

use vstd::prelude::*;
use crate::lexer::{Token, Lexer, spec_tokenize, atoms_wf, lemma_tokenize_atoms_wf, lemma_tokenize_add};
use crate::power::{
    spec_prefix_power, spec_postfix_power, spec_infix_power, prefix_binding_power,
    postfix_binding_power, infix_binding_power, has_prefix_power,
};
use crate::tree::{
    S, Sx, wf_tree, view_tree, lemma_view_children1, lemma_view_children2, lemma_view_children3,
    prefix_chain, render, render_children,
};

verus! {

/// Why a parse failed.  The first violated expectation aborts the whole
/// parse; no error is swallowed or defaulted.
#[derive(Debug, Clone, Copy, PartialEq, Eq, Structural)]
pub enum ParseError {
    /// A token with no meaning in its position: a bare closing bracket or a
    /// symbol absent from the prefix table where an operand was expected, or
    /// a symbol absent from both the infix and postfix tables after one.
    UnexpectedToken,
    /// A required closing token (`)`, `]`, or the ternary's `:`) is missing
    /// or replaced by something else.
    MismatchedDelimiter,
    /// Tokens remain after a complete top-level expression.
    TrailingInput,
}

/// Outcome of one specification-level parsing step: a tree together with
/// the cursor just past what it consumed, a failure, or fuel exhaustion
/// (which enough fuel rules out).
pub enum ParseStep {
    Parsed(Sx, int),
    Failed(ParseError),
    Spent,
}

/// Tokens on which the extension loop hands control back to the enclosing
/// call so that it can consume its closing delimiter.
pub open spec fn spec_is_closer(op: char) -> bool {
    op == ')' || op == ']' || op == ':'
}

/// One parse of a whole expression starting at cursor `i`: a primary step
/// (atom, parenthesized group, or prefix operator) seeds the left-hand
/// side, which `spec_extend` then grows.
pub open spec fn spec_expr_bp(toks: Seq<Token>, i: int, min_bp: u8, fuel: nat) -> ParseStep
    decreases fuel,
{
    if fuel == 0 {
        ParseStep::Spent
    } else if !(0 <= i < toks.len()) {
        ParseStep::Failed(ParseError::UnexpectedToken)
    } else {
        match toks[i] {
            Token::Atom(c) => spec_extend(toks, i + 1, min_bp, Sx::Atom(c), (fuel - 1) as nat),
            Token::Op(op) => {
                if op == '(' {
                    match spec_expr_bp(toks, i + 1, 0, (fuel - 1) as nat) {
                        ParseStep::Parsed(inner, j) => {
                            if 0 <= j < toks.len() && toks[j] == Token::Op(')') {
                                spec_extend(toks, j + 1, min_bp, inner, (fuel - 1) as nat)
                            } else {
                                ParseStep::Failed(ParseError::MismatchedDelimiter)
                            }
                        },
                        other => other,
                    }
                } else if spec_prefix_power(op) is Some {
                    let r_bp = spec_prefix_power(op)->0;
                    match spec_expr_bp(toks, i + 1, r_bp, (fuel - 1) as nat) {
                        ParseStep::Parsed(rhs, j) => spec_extend(
                            toks,
                            j,
                            min_bp,
                            Sx::Cons(op, seq![rhs]),
                            (fuel - 1) as nat,
                        ),
                        other => other,
                    }
                } else {
                    ParseStep::Failed(ParseError::UnexpectedToken)
                }
            },
            Token::Eof => ParseStep::Failed(ParseError::UnexpectedToken),
        }
    }
}

/// The extension loop: while the next token is an operator whose left
/// binding power reaches `min_bp`, fold it (and what it requires to its
/// right) into `lhs`; stop at the end of input, before a token that cannot
/// extend an expression, or before an operator too weak for this context.
pub open spec fn spec_extend(toks: Seq<Token>, i: int, min_bp: u8, lhs: Sx, fuel: nat) -> ParseStep
    decreases fuel,
{
    if fuel == 0 {
        ParseStep::Spent
    } else if !(0 <= i < toks.len()) {
        ParseStep::Parsed(lhs, i)
    } else {
        match toks[i] {
            Token::Atom(_) => ParseStep::Parsed(lhs, i),
            Token::Eof => ParseStep::Parsed(lhs, i),
            Token::Op(op) => {
                if spec_postfix_power(op) is Some {
                    let l_bp = spec_postfix_power(op)->0;
                    if l_bp < min_bp {
                        ParseStep::Parsed(lhs, i)
                    } else if op == '[' {
                        match spec_expr_bp(toks, i + 1, 0, (fuel - 1) as nat) {
                            ParseStep::Parsed(body, j) => {
                                if 0 <= j < toks.len() && toks[j] == Token::Op(']') {
                                    spec_extend(
                                        toks,
                                        j + 1,
                                        min_bp,
                                        Sx::Cons('[', seq![lhs, body]),
                                        (fuel - 1) as nat,
                                    )
                                } else {
                                    ParseStep::Failed(ParseError::MismatchedDelimiter)
                                }
                            },
                            other => other,
                        }
                    } else {
                        spec_extend(toks, i + 1, min_bp, Sx::Cons(op, seq![lhs]), (fuel - 1) as nat)
                    }
                } else if spec_infix_power(op) is Some {
                    let powers = spec_infix_power(op)->0;
                    let l_bp = powers.0;
                    let r_bp = powers.1;
                    if l_bp < min_bp {
                        ParseStep::Parsed(lhs, i)
                    } else if op == '?' {
                        match spec_expr_bp(toks, i + 1, 0, (fuel - 1) as nat) {
                            ParseStep::Parsed(mid, j) => {
                                if 0 <= j < toks.len() && toks[j] == Token::Op(':') {
                                    match spec_expr_bp(toks, j + 1, r_bp, (fuel - 1) as nat) {
                                        ParseStep::Parsed(rhs, k) => spec_extend(
                                            toks,
                                            k,
                                            min_bp,
                                            Sx::Cons('?', seq![lhs, mid, rhs]),
                                            (fuel - 1) as nat,
                                        ),
                                        other => other,
                                    }
                                } else {
                                    ParseStep::Failed(ParseError::MismatchedDelimiter)
                                }
                            },
                            other => other,
                        }
                    } else {
                        match spec_expr_bp(toks, i + 1, r_bp, (fuel - 1) as nat) {
                            ParseStep::Parsed(rhs, j) => spec_extend(
                                toks,
                                j,
                                min_bp,
                                Sx::Cons(op, seq![lhs, rhs]),
                                (fuel - 1) as nat,
                            ),
                            other => other,
                        }
                    }
                } else if spec_is_closer(op) {
                    ParseStep::Parsed(lhs, i)
                } else {
                    ParseStep::Failed(ParseError::UnexpectedToken)
                }
            },
        }
    }
}

/// Fuel that is always sufficient, whatever the cursor.
pub open spec fn full_fuel(toks: Seq<Token>) -> nat {
    (toks.len() + 1) as nat
}

/// The canonical parse of an expression at cursor `i`.
pub open spec fn spec_expr_bp_at(toks: Seq<Token>, i: int, min_bp: u8) -> ParseStep {
    spec_expr_bp(toks, i, min_bp, full_fuel(toks))
}

/// The canonical extension of `lhs` at cursor `i`.
pub open spec fn spec_extend_at(toks: Seq<Token>, i: int, min_bp: u8, lhs: Sx) -> ParseStep {
    spec_extend(toks, i, min_bp, lhs, full_fuel(toks))
}

/// A successful parse of an expression consumes at least one token and
/// never runs past the end.
pub proof fn lemma_expr_bp_bounds(toks: Seq<Token>, i: int, min_bp: u8, fuel: nat)
    ensures
        spec_expr_bp(toks, i, min_bp, fuel) matches ParseStep::Parsed(t, j) ==> i + 1 <= j
            <= toks.len(),
    decreases fuel,
{
    if fuel == 0 || !(0 <= i < toks.len()) {
    } else {
        match toks[i] {
            Token::Atom(c) => {
                lemma_extend_bounds(toks, i + 1, min_bp, Sx::Atom(c), (fuel - 1) as nat);
            },
            Token::Op(op) => {
                if op == '(' {
                    lemma_expr_bp_bounds(toks, i + 1, 0, (fuel - 1) as nat);
                    match spec_expr_bp(toks, i + 1, 0, (fuel - 1) as nat) {
                        ParseStep::Parsed(inner, j) => {
                            if 0 <= j < toks.len() && toks[j] == Token::Op(')') {
                                lemma_extend_bounds(toks, j + 1, min_bp, inner, (fuel - 1) as nat);
                            }
                        },
                        _ => {},
                    }
                } else if spec_prefix_power(op) is Some {
                    let r_bp = spec_prefix_power(op)->0;
                    lemma_expr_bp_bounds(toks, i + 1, r_bp, (fuel - 1) as nat);
                    match spec_expr_bp(toks, i + 1, r_bp, (fuel - 1) as nat) {
                        ParseStep::Parsed(rhs, j) => {
                            lemma_extend_bounds(
                                toks,
                                j,
                                min_bp,
                                Sx::Cons(op, seq![rhs]),
                                (fuel - 1) as nat,
                            );
                        },
                        _ => {},
                    }
                }
            },
            Token::Eof => {},
        }
    }
}

/// Extending a left-hand side never moves the cursor backwards, nor past
/// the end.
pub proof fn lemma_extend_bounds(toks: Seq<Token>, i: int, min_bp: u8, lhs: Sx, fuel: nat)
    requires
        0 <= i <= toks.len(),
    ensures
        spec_extend(toks, i, min_bp, lhs, fuel) matches ParseStep::Parsed(t, j) ==> i <= j
            <= toks.len(),
    decreases fuel,
{
    if fuel == 0 || !(0 <= i < toks.len()) {
    } else {
        match toks[i] {
            Token::Op(op) => {
                if spec_postfix_power(op) is Some {
                    let l_bp = spec_postfix_power(op)->0;
                    if l_bp < min_bp {
                    } else if op == '[' {
                        lemma_expr_bp_bounds(toks, i + 1, 0, (fuel - 1) as nat);
                        match spec_expr_bp(toks, i + 1, 0, (fuel - 1) as nat) {
                            ParseStep::Parsed(body, j) => {
                                if 0 <= j < toks.len() && toks[j] == Token::Op(']') {
                                    lemma_extend_bounds(
                                        toks,
                                        j + 1,
                                        min_bp,
                                        Sx::Cons('[', seq![lhs, body]),
                                        (fuel - 1) as nat,
                                    );
                                }
                            },
                            _ => {},
                        }
                    } else {
                        lemma_extend_bounds(
                            toks,
                            i + 1,
                            min_bp,
                            Sx::Cons(op, seq![lhs]),
                            (fuel - 1) as nat,
                        );
                    }
                } else if spec_infix_power(op) is Some {
                    let powers = spec_infix_power(op)->0;
                    if powers.0 < min_bp {
                    } else if op == '?' {
                        lemma_expr_bp_bounds(toks, i + 1, 0, (fuel - 1) as nat);
                        match spec_expr_bp(toks, i + 1, 0, (fuel - 1) as nat) {
                            ParseStep::Parsed(mid, j) => {
                                if 0 <= j < toks.len() && toks[j] == Token::Op(':') {
                                    lemma_expr_bp_bounds(toks, j + 1, powers.1, (fuel - 1) as nat);
                                    match spec_expr_bp(toks, j + 1, powers.1, (fuel - 1) as nat) {
                                        ParseStep::Parsed(rhs, k) => {
                                            lemma_extend_bounds(
                                                toks,
                                                k,
                                                min_bp,
                                                Sx::Cons('?', seq![lhs, mid, rhs]),
                                                (fuel - 1) as nat,
                                            );
                                        },
                                        _ => {},
                                    }
                                }
                            },
                            _ => {},
                        }
                    } else {
                        lemma_expr_bp_bounds(toks, i + 1, powers.1, (fuel - 1) as nat);
                        match spec_expr_bp(toks, i + 1, powers.1, (fuel - 1) as nat) {
                            ParseStep::Parsed(rhs, j) => {
                                lemma_extend_bounds(
                                    toks,
                                    j,
                                    min_bp,
                                    Sx::Cons(op, seq![lhs, rhs]),
                                    (fuel - 1) as nat,
                                );
                            },
                            _ => {},
                        }
                    }
                }
            },
            _ => {},
        }
    }
}

/// Once the outcome is decided, more fuel cannot change it.
pub proof fn lemma_expr_bp_mono(toks: Seq<Token>, i: int, min_bp: u8, f1: nat, f2: nat)
    requires
        f1 <= f2,
        !(spec_expr_bp(toks, i, min_bp, f1) is Spent),
    ensures
        spec_expr_bp(toks, i, min_bp, f2) == spec_expr_bp(toks, i, min_bp, f1),
    decreases f1,
{
    if f1 == 0 || !(0 <= i < toks.len()) {
    } else {
        match toks[i] {
            Token::Atom(c) => {
                lemma_extend_mono(
                    toks,
                    i + 1,
                    min_bp,
                    Sx::Atom(c),
                    (f1 - 1) as nat,
                    (f2 - 1) as nat,
                );
            },
            Token::Op(op) => {
                if op == '(' {
                    lemma_expr_bp_mono(toks, i + 1, 0, (f1 - 1) as nat, (f2 - 1) as nat);
                    match spec_expr_bp(toks, i + 1, 0, (f1 - 1) as nat) {
                        ParseStep::Parsed(inner, j) => {
                            if 0 <= j < toks.len() && toks[j] == Token::Op(')') {
                                lemma_extend_mono(
                                    toks,
                                    j + 1,
                                    min_bp,
                                    inner,
                                    (f1 - 1) as nat,
                                    (f2 - 1) as nat,
                                );
                            }
                        },
                        _ => {},
                    }
                } else if spec_prefix_power(op) is Some {
                    let r_bp = spec_prefix_power(op)->0;
                    lemma_expr_bp_mono(toks, i + 1, r_bp, (f1 - 1) as nat, (f2 - 1) as nat);
                    match spec_expr_bp(toks, i + 1, r_bp, (f1 - 1) as nat) {
                        ParseStep::Parsed(rhs, j) => {
                            lemma_extend_mono(
                                toks,
                                j,
                                min_bp,
                                Sx::Cons(op, seq![rhs]),
                                (f1 - 1) as nat,
                                (f2 - 1) as nat,
                            );
                        },
                        _ => {},
                    }
                }
            },
            Token::Eof => {},
        }
    }
}

/// Once the outcome is decided, more fuel cannot change it.
pub proof fn lemma_extend_mono(toks: Seq<Token>, i: int, min_bp: u8, lhs: Sx, f1: nat, f2: nat)
    requires
        f1 <= f2,
        !(spec_extend(toks, i, min_bp, lhs, f1) is Spent),
    ensures
        spec_extend(toks, i, min_bp, lhs, f2) == spec_extend(toks, i, min_bp, lhs, f1),
    decreases f1,
{
    if f1 == 0 || !(0 <= i < toks.len()) {
    } else {
        match toks[i] {
            Token::Op(op) => {
                if spec_postfix_power(op) is Some {
                    let l_bp = spec_postfix_power(op)->0;
                    if l_bp < min_bp {
                    } else if op == '[' {
                        lemma_expr_bp_mono(toks, i + 1, 0, (f1 - 1) as nat, (f2 - 1) as nat);
                        match spec_expr_bp(toks, i + 1, 0, (f1 - 1) as nat) {
                            ParseStep::Parsed(body, j) => {
                                if 0 <= j < toks.len() && toks[j] == Token::Op(']') {
                                    lemma_extend_mono(
                                        toks,
                                        j + 1,
                                        min_bp,
                                        Sx::Cons('[', seq![lhs, body]),
                                        (f1 - 1) as nat,
                                        (f2 - 1) as nat,
                                    );
                                }
                            },
                            _ => {},
                        }
                    } else {
                        lemma_extend_mono(
                            toks,
                            i + 1,
                            min_bp,
                            Sx::Cons(op, seq![lhs]),
                            (f1 - 1) as nat,
                            (f2 - 1) as nat,
                        );
                    }
                } else if spec_infix_power(op) is Some {
                    let powers = spec_infix_power(op)->0;
                    if powers.0 < min_bp {
                    } else if op == '?' {
                        lemma_expr_bp_mono(toks, i + 1, 0, (f1 - 1) as nat, (f2 - 1) as nat);
                        match spec_expr_bp(toks, i + 1, 0, (f1 - 1) as nat) {
                            ParseStep::Parsed(mid, j) => {
                                if 0 <= j < toks.len() && toks[j] == Token::Op(':') {
                                    lemma_expr_bp_mono(
                                        toks,
                                        j + 1,
                                        powers.1,
                                        (f1 - 1) as nat,
                                        (f2 - 1) as nat,
                                    );
                                    match spec_expr_bp(toks, j + 1, powers.1, (f1 - 1) as nat) {
                                        ParseStep::Parsed(rhs, k) => {
                                            lemma_extend_mono(
                                                toks,
                                                k,
                                                min_bp,
                                                Sx::Cons('?', seq![lhs, mid, rhs]),
                                                (f1 - 1) as nat,
                                                (f2 - 1) as nat,
                                            );
                                        },
                                        _ => {},
                                    }
                                }
                            },
                            _ => {},
                        }
                    } else {
                        lemma_expr_bp_mono(toks, i + 1, powers.1, (f1 - 1) as nat, (f2 - 1) as nat);
                        match spec_expr_bp(toks, i + 1, powers.1, (f1 - 1) as nat) {
                            ParseStep::Parsed(rhs, j) => {
                                lemma_extend_mono(
                                    toks,
                                    j,
                                    min_bp,
                                    Sx::Cons(op, seq![lhs, rhs]),
                                    (f1 - 1) as nat,
                                    (f2 - 1) as nat,
                                );
                            },
                            _ => {},
                        }
                    }
                }
            },
            _ => {},
        }
    }
}

/// Since every step consumes at least one token, one unit of fuel per
/// remaining token (plus one) is always enough.
pub proof fn lemma_expr_bp_enough(toks: Seq<Token>, i: int, min_bp: u8, fuel: nat)
    requires
        0 <= i <= toks.len(),
        fuel >= toks.len() - i + 1,
    ensures
        !(spec_expr_bp(toks, i, min_bp, fuel) is Spent),
    decreases fuel,
{
    if !(0 <= i < toks.len()) {
    } else {
        match toks[i] {
            Token::Atom(c) => {
                lemma_extend_enough(toks, i + 1, min_bp, Sx::Atom(c), (fuel - 1) as nat);
            },
            Token::Op(op) => {
                if op == '(' {
                    lemma_expr_bp_enough(toks, i + 1, 0, (fuel - 1) as nat);
                    lemma_expr_bp_bounds(toks, i + 1, 0, (fuel - 1) as nat);
                    match spec_expr_bp(toks, i + 1, 0, (fuel - 1) as nat) {
                        ParseStep::Parsed(inner, j) => {
                            if 0 <= j < toks.len() && toks[j] == Token::Op(')') {
                                lemma_extend_enough(toks, j + 1, min_bp, inner, (fuel - 1) as nat);
                            }
                        },
                        _ => {},
                    }
                } else if spec_prefix_power(op) is Some {
                    let r_bp = spec_prefix_power(op)->0;
                    lemma_expr_bp_enough(toks, i + 1, r_bp, (fuel - 1) as nat);
                    lemma_expr_bp_bounds(toks, i + 1, r_bp, (fuel - 1) as nat);
                    match spec_expr_bp(toks, i + 1, r_bp, (fuel - 1) as nat) {
                        ParseStep::Parsed(rhs, j) => {
                            lemma_extend_enough(
                                toks,
                                j,
                                min_bp,
                                Sx::Cons(op, seq![rhs]),
                                (fuel - 1) as nat,
                            );
                        },
                        _ => {},
                    }
                }
            },
            Token::Eof => {},
        }
    }
}

/// Since every step consumes at least one token, one unit of fuel per
/// remaining token (plus one) is always enough.
pub proof fn lemma_extend_enough(toks: Seq<Token>, i: int, min_bp: u8, lhs: Sx, fuel: nat)
    requires
        0 <= i <= toks.len(),
        fuel >= toks.len() - i + 1,
    ensures
        !(spec_extend(toks, i, min_bp, lhs, fuel) is Spent),
    decreases fuel,
{
    if !(0 <= i < toks.len()) {
    } else {
        match toks[i] {
            Token::Op(op) => {
                if spec_postfix_power(op) is Some {
                    let l_bp = spec_postfix_power(op)->0;
                    if l_bp < min_bp {
                    } else if op == '[' {
                        lemma_expr_bp_enough(toks, i + 1, 0, (fuel - 1) as nat);
                        lemma_expr_bp_bounds(toks, i + 1, 0, (fuel - 1) as nat);
                        match spec_expr_bp(toks, i + 1, 0, (fuel - 1) as nat) {
                            ParseStep::Parsed(body, j) => {
                                if 0 <= j < toks.len() && toks[j] == Token::Op(']') {
                                    lemma_extend_enough(
                                        toks,
                                        j + 1,
                                        min_bp,
                                        Sx::Cons('[', seq![lhs, body]),
                                        (fuel - 1) as nat,
                                    );
                                }
                            },
                            _ => {},
                        }
                    } else {
                        lemma_extend_enough(
                            toks,
                            i + 1,
                            min_bp,
                            Sx::Cons(op, seq![lhs]),
                            (fuel - 1) as nat,
                        );
                    }
                } else if spec_infix_power(op) is Some {
                    let powers = spec_infix_power(op)->0;
                    if powers.0 < min_bp {
                    } else if op == '?' {
                        lemma_expr_bp_enough(toks, i + 1, 0, (fuel - 1) as nat);
                        lemma_expr_bp_bounds(toks, i + 1, 0, (fuel - 1) as nat);
                        match spec_expr_bp(toks, i + 1, 0, (fuel - 1) as nat) {
                            ParseStep::Parsed(mid, j) => {
                                if 0 <= j < toks.len() && toks[j] == Token::Op(':') {
                                    lemma_expr_bp_enough(toks, j + 1, powers.1, (fuel - 1) as nat);
                                    lemma_expr_bp_bounds(toks, j + 1, powers.1, (fuel - 1) as nat);
                                    match spec_expr_bp(toks, j + 1, powers.1, (fuel - 1) as nat) {
                                        ParseStep::Parsed(rhs, k) => {
                                            lemma_extend_enough(
                                                toks,
                                                k,
                                                min_bp,
                                                Sx::Cons('?', seq![lhs, mid, rhs]),
                                                (fuel - 1) as nat,
                                            );
                                        },
                                        _ => {},
                                    }
                                }
                            },
                            _ => {},
                        }
                    } else {
                        lemma_expr_bp_enough(toks, i + 1, powers.1, (fuel - 1) as nat);
                        lemma_expr_bp_bounds(toks, i + 1, powers.1, (fuel - 1) as nat);
                        match spec_expr_bp(toks, i + 1, powers.1, (fuel - 1) as nat) {
                            ParseStep::Parsed(rhs, j) => {
                                lemma_extend_enough(
                                    toks,
                                    j,
                                    min_bp,
                                    Sx::Cons(op, seq![lhs, rhs]),
                                    (fuel - 1) as nat,
                                );
                            },
                            _ => {},
                        }
                    }
                }
            },
            _ => {},
        }
    }
}

/// Any sufficient fuel gives the canonical outcome.
pub proof fn lemma_expr_bp_at_fuel(toks: Seq<Token>, i: int, min_bp: u8, fuel: nat)
    requires
        0 <= i <= toks.len(),
        fuel >= toks.len() - i + 1,
    ensures
        spec_expr_bp(toks, i, min_bp, fuel) == spec_expr_bp_at(toks, i, min_bp),
{
    if fuel <= full_fuel(toks) {
        lemma_expr_bp_enough(toks, i, min_bp, fuel);
        lemma_expr_bp_mono(toks, i, min_bp, fuel, full_fuel(toks));
    } else {
        lemma_expr_bp_enough(toks, i, min_bp, full_fuel(toks));
        lemma_expr_bp_mono(toks, i, min_bp, full_fuel(toks), fuel);
    }
}

/// Any sufficient fuel gives the canonical outcome.
pub proof fn lemma_extend_at_fuel(toks: Seq<Token>, i: int, min_bp: u8, lhs: Sx, fuel: nat)
    requires
        0 <= i <= toks.len(),
        fuel >= toks.len() - i + 1,
    ensures
        spec_extend(toks, i, min_bp, lhs, fuel) == spec_extend_at(toks, i, min_bp, lhs),
{
    if fuel <= full_fuel(toks) {
        lemma_extend_enough(toks, i, min_bp, lhs, fuel);
        lemma_extend_mono(toks, i, min_bp, lhs, fuel, full_fuel(toks));
    } else {
        lemma_extend_enough(toks, i, min_bp, lhs, full_fuel(toks));
        lemma_extend_mono(toks, i, min_bp, lhs, full_fuel(toks), fuel);
    }
}

/// On a token sequence whose atoms are well-formed, every tree a parse
/// yields is well-formed: leaves hold atomic operand characters, and each
/// application has exactly its operator's declared number of children.
pub proof fn lemma_expr_bp_wf(toks: Seq<Token>, i: int, min_bp: u8, fuel: nat)
    requires
        atoms_wf(toks),
    ensures
        spec_expr_bp(toks, i, min_bp, fuel) matches ParseStep::Parsed(t, j) ==> wf_tree(t),
    decreases fuel,
{
    if fuel == 0 || !(0 <= i < toks.len()) {
    } else {
        match toks[i] {
            Token::Atom(c) => {
                lemma_extend_wf(toks, i + 1, min_bp, Sx::Atom(c), (fuel - 1) as nat);
            },
            Token::Op(op) => {
                if op == '(' {
                    lemma_expr_bp_wf(toks, i + 1, 0, (fuel - 1) as nat);
                    match spec_expr_bp(toks, i + 1, 0, (fuel - 1) as nat) {
                        ParseStep::Parsed(inner, j) => {
                            if 0 <= j < toks.len() && toks[j] == Token::Op(')') {
                                lemma_extend_wf(toks, j + 1, min_bp, inner, (fuel - 1) as nat);
                            }
                        },
                        _ => {},
                    }
                } else if spec_prefix_power(op) is Some {
                    let r_bp = spec_prefix_power(op)->0;
                    lemma_expr_bp_wf(toks, i + 1, r_bp, (fuel - 1) as nat);
                    match spec_expr_bp(toks, i + 1, r_bp, (fuel - 1) as nat) {
                        ParseStep::Parsed(rhs, j) => {
                            assert(wf_tree(rhs) ==> wf_tree(Sx::Cons(op, seq![rhs])));
                            lemma_extend_wf(
                                toks,
                                j,
                                min_bp,
                                Sx::Cons(op, seq![rhs]),
                                (fuel - 1) as nat,
                            );
                        },
                        _ => {},
                    }
                }
            },
            Token::Eof => {},
        }
    }
}

/// Extending a well-formed left-hand side only ever yields a well-formed
/// tree.
pub proof fn lemma_extend_wf(toks: Seq<Token>, i: int, min_bp: u8, lhs: Sx, fuel: nat)
    requires
        atoms_wf(toks),
        wf_tree(lhs),
    ensures
        spec_extend(toks, i, min_bp, lhs, fuel) matches ParseStep::Parsed(t, j) ==> wf_tree(t),
    decreases fuel,
{
    if fuel == 0 || !(0 <= i < toks.len()) {
    } else {
        match toks[i] {
            Token::Op(op) => {
                if spec_postfix_power(op) is Some {
                    let l_bp = spec_postfix_power(op)->0;
                    if l_bp < min_bp {
                    } else if op == '[' {
                        lemma_expr_bp_wf(toks, i + 1, 0, (fuel - 1) as nat);
                        match spec_expr_bp(toks, i + 1, 0, (fuel - 1) as nat) {
                            ParseStep::Parsed(body, j) => {
                                if 0 <= j < toks.len() && toks[j] == Token::Op(']') {
                                    assert(wf_tree(body) ==> wf_tree(
                                        Sx::Cons('[', seq![lhs, body]),
                                    ));
                                    lemma_extend_wf(
                                        toks,
                                        j + 1,
                                        min_bp,
                                        Sx::Cons('[', seq![lhs, body]),
                                        (fuel - 1) as nat,
                                    );
                                }
                            },
                            _ => {},
                        }
                    } else {
                        assert(wf_tree(Sx::Cons(op, seq![lhs])));
                        lemma_extend_wf(
                            toks,
                            i + 1,
                            min_bp,
                            Sx::Cons(op, seq![lhs]),
                            (fuel - 1) as nat,
                        );
                    }
                } else if spec_infix_power(op) is Some {
                    let powers = spec_infix_power(op)->0;
                    if powers.0 < min_bp {
                    } else if op == '?' {
                        lemma_expr_bp_wf(toks, i + 1, 0, (fuel - 1) as nat);
                        match spec_expr_bp(toks, i + 1, 0, (fuel - 1) as nat) {
                            ParseStep::Parsed(mid, j) => {
                                if 0 <= j < toks.len() && toks[j] == Token::Op(':') {
                                    lemma_expr_bp_wf(toks, j + 1, powers.1, (fuel - 1) as nat);
                                    match spec_expr_bp(toks, j + 1, powers.1, (fuel - 1) as nat) {
                                        ParseStep::Parsed(rhs, k) => {
                                            assert(wf_tree(mid) && wf_tree(rhs) ==> wf_tree(
                                                Sx::Cons('?', seq![lhs, mid, rhs]),
                                            ));
                                            lemma_extend_wf(
                                                toks,
                                                k,
                                                min_bp,
                                                Sx::Cons('?', seq![lhs, mid, rhs]),
                                                (fuel - 1) as nat,
                                            );
                                        },
                                        _ => {},
                                    }
                                }
                            },
                            _ => {},
                        }
                    } else {
                        lemma_expr_bp_wf(toks, i + 1, powers.1, (fuel - 1) as nat);
                        match spec_expr_bp(toks, i + 1, powers.1, (fuel - 1) as nat) {
                            ParseStep::Parsed(rhs, j) => {
                                assert(wf_tree(rhs) ==> wf_tree(Sx::Cons(op, seq![lhs, rhs])));
                                lemma_extend_wf(
                                    toks,
                                    j,
                                    min_bp,
                                    Sx::Cons(op, seq![lhs, rhs]),
                                    (fuel - 1) as nat,
                                );
                            },
                            _ => {},
                        }
                    }
                }
            },
            _ => {},
        }
    }
}

/// What parsing a whole character sequence yields: the token sequence must
/// form exactly one expression; leftover tokens are `TrailingInput`.
pub open spec fn spec_parse(s: Seq<char>) -> Result<Sx, ParseError> {
    let toks = spec_tokenize(s);
    match spec_expr_bp_at(toks, 0, 0) {
        ParseStep::Parsed(t, next) => if next == toks.len() {
            Ok(t)
        } else {
            Err(ParseError::TrailingInput)
        },
        ParseStep::Failed(e) => Err(e),
        // Unreachable: full fuel is always enough (lemma_expr_bp_enough).
        ParseStep::Spent => Err(ParseError::UnexpectedToken),
    }
}

/// For every input on which parsing succeeds, the resulting tree is
/// well-formed: every leaf holds an atomic operand character, and every
/// application node's child count equals its operator's declared arity.
pub proof fn lemma_parse_wf(s: Seq<char>)
    ensures
        spec_parse(s) matches Ok(t) ==> wf_tree(t),
{
    lemma_tokenize_atoms_wf(s);
    lemma_expr_bp_wf(spec_tokenize(s), 0, 0, full_fuel(spec_tokenize(s)));
}

/// Parses one expression starting at the lexer's cursor: a primary step
/// seeds the left-hand side, `extend` grows it.  Returns exactly what the
/// specification-level parse at the starting cursor yields.
fn expr_bp(lexer: &mut Lexer, min_bp: u8) -> (r: Result<S, ParseError>)
    requires
        old(lexer).wf(),
    ensures
        final(lexer).wf(),
        final(lexer).toks() == old(lexer).toks(),
        (match r {
            Ok(t) => spec_expr_bp_at(old(lexer).toks(), old(lexer).cursor(), min_bp)
                == ParseStep::Parsed(view_tree(t), final(lexer).cursor()),
            Err(e) => spec_expr_bp_at(old(lexer).toks(), old(lexer).cursor(), min_bp)
                == ParseStep::Failed(e),
        }),
    decreases old(lexer).toks().len() - old(lexer).cursor(),
{
    let ghost toks = lexer.toks();
    let ghost i0 = lexer.cursor();
    let t = lexer.next();
    match t {
        Token::Atom(c) => {
            let r = extend(lexer, min_bp, S::Atom(c));
            proof {
                lemma_extend_at_fuel(toks, i0 + 1, min_bp, Sx::Atom(c), toks.len() as nat);
            }
            r
        },
        Token::Op(op) => {
            if op == '(' {
                let inner = expr_bp(lexer, 0);
                proof {
                    lemma_expr_bp_at_fuel(toks, i0 + 1, 0, toks.len() as nat);
                }
                match inner {
                    Ok(inner_t) => {
                        let ghost j = lexer.cursor();
                        let closing = lexer.next();
                        match closing {
                            Token::Op(')') => {
                                proof {
                                    lemma_expr_bp_bounds(toks, i0 + 1, 0, full_fuel(toks));
                                }
                                let r = extend(lexer, min_bp, inner_t);
                                proof {
                                    lemma_extend_at_fuel(
                                        toks,
                                        j + 1,
                                        min_bp,
                                        view_tree(inner_t),
                                        toks.len() as nat,
                                    );
                                }
                                r
                            },
                            _ => Err(ParseError::MismatchedDelimiter),
                        }
                    },
                    Err(e) => Err(e),
                }
            } else if has_prefix_power(op) {
                let power = prefix_binding_power(op);
                let rhs = expr_bp(lexer, power.1);
                proof {
                    lemma_expr_bp_at_fuel(toks, i0 + 1, power.1, toks.len() as nat);
                }
                match rhs {
                    Ok(rhs_t) => {
                        let ghost j = lexer.cursor();
                        let node = S::Cons(op, vec![rhs_t]);
                        proof {
                            lemma_expr_bp_bounds(toks, i0 + 1, power.1, full_fuel(toks));
                            lemma_view_children1(node->Cons_1@);
                            lemma_extend_at_fuel(toks, j, min_bp, view_tree(node), toks.len() as nat);
                        }
                        extend(lexer, min_bp, node)
                    },
                    Err(e) => Err(e),
                }
            } else {
                Err(ParseError::UnexpectedToken)
            }
        },
        Token::Eof => Err(ParseError::UnexpectedToken),
    }
}

/// The extension loop, as tail recursion: folds every following operator
/// whose left binding power reaches `min_bp` into `lhs`, and stops exactly
/// where the specification-level `spec_extend` stops.
fn extend(lexer: &mut Lexer, min_bp: u8, lhs: S) -> (r: Result<S, ParseError>)
    requires
        old(lexer).wf(),
    ensures
        final(lexer).wf(),
        final(lexer).toks() == old(lexer).toks(),
        (match r {
            Ok(t) => spec_extend_at(old(lexer).toks(), old(lexer).cursor(), min_bp, view_tree(lhs))
                == ParseStep::Parsed(view_tree(t), final(lexer).cursor()),
            Err(e) => spec_extend_at(old(lexer).toks(), old(lexer).cursor(), min_bp, view_tree(lhs))
                == ParseStep::Failed(e),
        }),
    decreases old(lexer).toks().len() - old(lexer).cursor(),
{
    let ghost toks = lexer.toks();
    let ghost i0 = lexer.cursor();
    let t = lexer.peek();
    match t {
        Token::Eof => Ok(lhs),
        Token::Atom(_) => Ok(lhs),
        Token::Op(op) => {
            match postfix_binding_power(op) {
                Some(power) => {
                    if power.0 < min_bp {
                        Ok(lhs)
                    } else {
                        let _consumed = lexer.next();
                        if op == '[' {
                            let body = expr_bp(lexer, 0);
                            proof {
                                lemma_expr_bp_at_fuel(toks, i0 + 1, 0, toks.len() as nat);
                            }
                            match body {
                                Ok(body_t) => {
                                    let ghost j = lexer.cursor();
                                    let closing = lexer.next();
                                    match closing {
                                        Token::Op(']') => {
                                            let node = S::Cons('[', vec![lhs, body_t]);
                                            proof {
                                                lemma_expr_bp_bounds(
                                                    toks,
                                                    i0 + 1,
                                                    0,
                                                    full_fuel(toks),
                                                );
                                                lemma_view_children2(node->Cons_1@);
                                                lemma_extend_at_fuel(
                                                    toks,
                                                    j + 1,
                                                    min_bp,
                                                    view_tree(node),
                                                    toks.len() as nat,
                                                );
                                            }
                                            extend(lexer, min_bp, node)
                                        },
                                        _ => Err(ParseError::MismatchedDelimiter),
                                    }
                                },
                                Err(e) => Err(e),
                            }
                        } else {
                            let node = S::Cons(op, vec![lhs]);
                            proof {
                                lemma_view_children1(node->Cons_1@);
                                lemma_extend_at_fuel(
                                    toks,
                                    i0 + 1,
                                    min_bp,
                                    view_tree(node),
                                    toks.len() as nat,
                                );
                            }
                            extend(lexer, min_bp, node)
                        }
                    }
                },
                None => {
                    match infix_binding_power(op) {
                        Some(powers) => {
                            if powers.0 < min_bp {
                                Ok(lhs)
                            } else {
                                let _consumed = lexer.next();
                                if op == '?' {
                                    let mid = expr_bp(lexer, 0);
                                    proof {
                                        lemma_expr_bp_at_fuel(toks, i0 + 1, 0, toks.len() as nat);
                                    }
                                    match mid {
                                        Ok(mid_t) => {
                                            let ghost j = lexer.cursor();
                                            let colon = lexer.next();
                                            match colon {
                                                Token::Op(':') => {
                                                    proof {
                                                        lemma_expr_bp_bounds(
                                                            toks,
                                                            i0 + 1,
                                                            0,
                                                            full_fuel(toks),
                                                        );
                                                    }
                                                    let rhs = expr_bp(lexer, powers.1);
                                                    proof {
                                                        lemma_expr_bp_at_fuel(
                                                            toks,
                                                            j + 1,
                                                            powers.1,
                                                            toks.len() as nat,
                                                        );
                                                    }
                                                    match rhs {
                                                        Ok(rhs_t) => {
                                                            let ghost k = lexer.cursor();
                                                            let node = S::Cons(
                                                                '?',
                                                                vec![lhs, mid_t, rhs_t],
                                                            );
                                                            proof {
                                                                lemma_expr_bp_bounds(
                                                                    toks,
                                                                    j + 1,
                                                                    powers.1,
                                                                    full_fuel(toks),
                                                                );
                                                                lemma_view_children3(node->Cons_1@);
                                                                lemma_extend_at_fuel(
                                                                    toks,
                                                                    k,
                                                                    min_bp,
                                                                    view_tree(node),
                                                                    toks.len() as nat,
                                                                );
                                                            }
                                                            extend(lexer, min_bp, node)
                                                        },
                                                        Err(e) => Err(e),
                                                    }
                                                },
                                                _ => Err(ParseError::MismatchedDelimiter),
                                            }
                                        },
                                        Err(e) => Err(e),
                                    }
                                } else {
                                    let rhs = expr_bp(lexer, powers.1);
                                    proof {
                                        lemma_expr_bp_at_fuel(toks, i0 + 1, powers.1, toks.len() as nat);
                                    }
                                    match rhs {
                                        Ok(rhs_t) => {
                                            let ghost j = lexer.cursor();
                                            let node = S::Cons(op, vec![lhs, rhs_t]);
                                            proof {
                                                lemma_expr_bp_bounds(
                                                    toks,
                                                    i0 + 1,
                                                    powers.1,
                                                    full_fuel(toks),
                                                );
                                                lemma_view_children2(node->Cons_1@);
                                                lemma_extend_at_fuel(
                                                    toks,
                                                    j,
                                                    min_bp,
                                                    view_tree(node),
                                                    toks.len() as nat,
                                                );
                                            }
                                            extend(lexer, min_bp, node)
                                        },
                                        Err(e) => Err(e),
                                    }
                                }
                            }
                        },
                        None => {
                            if op == ')' || op == ']' || op == ':' {
                                Ok(lhs)
                            } else {
                                Err(ParseError::UnexpectedToken)
                            }
                        },
                    }
                },
            }
        },
    }
}

/// Parses a whole input into one expression tree: tokenize, parse one
/// expression with no lower bound on binding power, and require that
/// nothing is left over.  The result is exactly `spec_parse(input@)`.
pub fn parse(input: &str) -> (r: Result<S, ParseError>)
    ensures
        (match r {
            Ok(t) => spec_parse(input@) == Ok::<Sx, ParseError>(view_tree(t)),
            Err(e) => spec_parse(input@) == Err::<Sx, ParseError>(e),
        }),
        r matches Ok(t) ==> wf_tree(view_tree(t)),
{
    let mut lexer = Lexer::new(input);
    proof {
        crate::lexer::lemma_tokenize_no_eof(input@);
        lemma_parse_wf(input@);
    }
    let res = expr_bp(&mut lexer, 0);
    match res {
        Ok(t) => {
            match lexer.peek() {
                Token::Eof => Ok(t),
                _ => Err(ParseError::TrailingInput),
            }
        },
        Err(e) => Err(e),
    }
}

/// Parsing the rendering of a tree in the re-parseable class gives back
/// exactly that tree, in any surrounding context: the tree's tokens may be
/// preceded by arbitrary already-consumed tokens and followed by a closing
/// parenthesis (or nothing), and the parse starting at the tree's first
/// token consumes exactly the tree's tokens, whatever the binding-power
/// threshold.
pub proof fn lemma_chain_parse(t: Sx, pre: Seq<Token>, rest: Seq<Token>, min_bp: u8)
    requires
        prefix_chain(t),
        rest.len() == 0 || rest[0] == Token::Op(')'),
    ensures
        ({
            let ct = spec_tokenize(render(t));
            let toks = pre + ct + rest;
            spec_expr_bp_at(toks, pre.len() as int, min_bp) == ParseStep::Parsed(
                t,
                pre.len() + ct.len() as int,
            )
        }),
    decreases t,
{
    let ct = spec_tokenize(render(t));
    let toks = pre + ct + rest;
    let i = pre.len() as int;
    match t {
        Sx::Atom(c) => {
            crate::lexer::lemma_tokenize_single(c);
            assert(ct == seq![Token::Atom(c)]);
            assert(toks[i] == Token::Atom(c));
            lemma_extend_at_fuel(toks, i + 1, min_bp, Sx::Atom(c), toks.len() as nat);
            if rest.len() == 0 {
                assert(i + 1 == toks.len());
            } else {
                assert(toks[i + 1] == Token::Op(')'));
            }
            assert(spec_extend_at(toks, i + 1, min_bp, Sx::Atom(c)) == ParseStep::Parsed(
                Sx::Atom(c),
                i + 1,
            ));
        },
        Sx::Cons(op, children) => {
            let child = children[0];
            let ctc = spec_tokenize(render(child));
            let r_bp = spec_prefix_power(op)->0;
            // The rendering splits into the opening "(", the operator, a
            // space, the child's rendering, and the closing ")".
            assert(children.drop_first() =~= Seq::<Sx>::empty());
            assert(render_children(Seq::<Sx>::empty()) == Seq::<char>::empty());
            assert(render_children(children) =~= seq![' '] + render(child));
            let s3: Seq<char> = seq!['(', op, ' '];
            assert(render(t) =~= (s3 + render(child)) + seq![')']);
            lemma_tokenize_add(s3 + render(child), seq![')']);
            lemma_tokenize_add(s3, render(child));
            assert(s3.drop_first() =~= seq![op, ' ']);
            assert(seq![op, ' '].drop_first() =~= seq![' ']);
            assert(seq![' '].drop_first() =~= Seq::<char>::empty());
            assert(spec_tokenize(Seq::<char>::empty()) == Seq::<Token>::empty());
            assert(spec_tokenize(seq![' ']) == Seq::<Token>::empty());
            assert(spec_tokenize(seq![op, ' ']) =~= seq![Token::Op(op)]);
            assert(spec_tokenize(s3) =~= seq![Token::Op('('), Token::Op(op)]);
            crate::lexer::lemma_tokenize_single(')');
            assert(ct =~= seq![Token::Op('('), Token::Op(op)] + ctc + seq![Token::Op(')')]);
            // The child parses in the extended context, between the two
            // opening tokens and the closing parenthesis.
            let pre2 = pre + seq![Token::Op('('), Token::Op(op)];
            let rest2 = seq![Token::Op(')')] + rest;
            lemma_chain_parse(child, pre2, rest2, r_bp);
            assert(pre2 + ctc + rest2 =~= toks);
            let j = i + 2 + ctc.len();
            assert(spec_expr_bp_at(toks, i + 2, r_bp) == ParseStep::Parsed(child, j));
            // The primary step sees "(", recursively parses "op child", and
            // consumes the ")".
            assert(toks[i] == Token::Op('('));
            assert(toks[i + 1] == Token::Op(op));
            assert(toks[j] == Token::Op(')'));
            lemma_expr_bp_at_fuel(toks, i + 2, r_bp, toks.len() as nat);
            assert(children =~= seq![child]);
            lemma_extend_at_fuel(toks, j, 0, t, toks.len() as nat);
            if rest.len() == 0 {
                assert(j + 1 == toks.len());
            } else {
                assert(toks[j + 1] == Token::Op(')'));
            }
            assert(spec_extend_at(toks, j, 0, t) == ParseStep::Parsed(t, j));
            assert(spec_expr_bp_at(toks, i + 1, 0) == ParseStep::Parsed(t, j));
            lemma_expr_bp_at_fuel(toks, i + 1, 0, toks.len() as nat);
            lemma_extend_at_fuel(toks, j + 1, min_bp, t, toks.len() as nat);
            assert(spec_extend_at(toks, j + 1, min_bp, t) == ParseStep::Parsed(t, j + 1));
            assert(spec_expr_bp_at(toks, i, min_bp) == ParseStep::Parsed(t, j + 1));
            assert(j + 1 == i + ct.len());
        },
    }
}

/// Idempotence of rendering on the re-parseable class: parsing the textual
/// rendering of a leaf or of a chain of unary prefix applications yields
/// exactly that tree again, so re-rendering it yields the same text.
pub proof fn lemma_render_parse_round_trip(t: Sx)
    requires
        prefix_chain(t),
    ensures
        spec_parse(render(t)) == Ok::<Sx, ParseError>(t),
{
    lemma_chain_parse(t, Seq::empty(), Seq::empty(), 0);
    let ct = spec_tokenize(render(t));
    assert(Seq::empty() + ct + Seq::empty() =~= ct);
}

/// The historical name of the entry point: parses one expression from a
/// raw input line, exactly as `parse` does.
pub fn expr(input: &str) -> (r: Result<S, ParseError>)
    ensures
        (match r {
            Ok(t) => spec_parse(input@) == Ok::<Sx, ParseError>(view_tree(t)),
            Err(e) => spec_parse(input@) == Err::<Sx, ParseError>(e),
        }),
        r matches Ok(t) ==> wf_tree(view_tree(t)),
{
    parse(input)
}

} // verus!
