//! Binding-power tables: the single source of truth for precedence and
//! associativity.
//!
//! Each operator has an unsigned power per role.  For an infix operator the
//! left and right powers differ by exactly one: `(p, p + 1)` makes a chain
//! left-associative, `(p + 1, p)` right-associative.  Prefix operators carry
//! only a right power, postfix operators only a left power.  The tables are
//! partial: a symbol outside a table has no power in that role, and the
//! parser rejects it rather than defaulting.

use vstd::prelude::*;

verus! {

/// Right binding power of the prefix (unary) operators `+` and `-`.
pub open spec fn spec_prefix_power(op: char) -> Option<u8> {
    if op == '+' || op == '-' {
        Some(9u8)
    } else {
        None
    }
}

/// Left binding power of the postfix operators `!` and the indexing
/// bracket `[`.
pub open spec fn spec_postfix_power(op: char) -> Option<u8> {
    if op == '!' || op == '[' {
        Some(11u8)
    } else {
        None
    }
}

/// Left and right binding powers of the infix operators.  `=` and the
/// ternary `?` bind right-associatively (left power above right); the
/// arithmetic operators bind left-associatively; `.` is right-associative
/// with the highest powers.
pub open spec fn spec_infix_power(op: char) -> Option<(u8, u8)> {
    if op == '=' {
        Some((2u8, 1u8))
    } else if op == '?' {
        Some((4u8, 3u8))
    } else if op == '+' || op == '-' {
        Some((5u8, 6u8))
    } else if op == '*' || op == '/' {
        Some((7u8, 8u8))
    } else if op == '.' {
        Some((14u8, 13u8))
    } else {
        None
    }
}

/// The left and right binding powers of one infix operator always differ
/// by exactly one: the side with the lower power is the side towards which
/// a chain of that operator leans.
pub proof fn lemma_infix_powers_differ_by_one()
    ensures
        forall|op: char|
            #[trigger] spec_infix_power(op) matches Some(p) ==> (p.0 + 1 == p.1 || p.1 + 1 == p.0),
{
}

/// Whether a symbol has a prefix role at all.
pub fn has_prefix_power(op: char) -> (b: bool)
    ensures
        b == (spec_prefix_power(op) is Some),
{
    op == '+' || op == '-'
}

/// Prefix table lookup, defined for unary `+` and `-` only.
pub fn prefix_binding_power(op: char) -> (r: ((), u8))
    requires
        spec_prefix_power(op) is Some,
    ensures
        spec_prefix_power(op) == Some(r.1),
{
    match op {
        '+' | '-' => ((), 9),
        _ => {
            proof {
                assert(false);
            }
            ((), 0)
        },
    }
}

/// Postfix table lookup: `None` for a symbol with no postfix role.
pub fn postfix_binding_power(op: char) -> (r: Option<(u8, ())>)
    ensures
        match r {
            Some(p) => spec_postfix_power(op) == Some(p.0),
            None => spec_postfix_power(op) is None,
        },
{
    match op {
        '!' | '[' => Some((11, ())),
        _ => None,
    }
}

/// Infix table lookup: `None` for a symbol with no infix role.
pub fn infix_binding_power(op: char) -> (r: Option<(u8, u8)>)
    ensures
        r == spec_infix_power(op),
{
    match op {
        '=' => Some((2, 1)),
        '?' => Some((4, 3)),
        '+' | '-' => Some((5, 6)),
        '*' | '/' => Some((7, 8)),
        '.' => Some((14, 13)),
        _ => None,
    }
}

} // verus!
