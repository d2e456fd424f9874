//! The expression tree: an S-expression built bottom-up by the parser and
//! never mutated afterwards, together with its mathematical model and its
//! textual rendering.

use vstd::prelude::*;
use crate::lexer::spec_is_atom_char;
use crate::power::{spec_prefix_power, spec_postfix_power, spec_infix_power};

verus! {

/// One node of the parsed expression: a leaf holding an atomic operand, or
/// an application of an operator symbol to its ordered children.
#[derive(Debug)]
pub enum S {
    Atom(char),
    Cons(char, Vec<S>),
}

/// The mathematical model of a tree node: the same shape as `S`, with the
/// children as a sequence.  Contracts and the specification-level parser
/// speak of this type; `S` is viewed into it.
pub enum Sx {
    Atom(char),
    Cons(char, Seq<Sx>),
}

/// The model of a tree: each `Cons` child list becomes a sequence.
pub open spec fn view_tree(t: S) -> Sx
    decreases t,
{
    match t {
        S::Atom(c) => Sx::Atom(c),
        S::Cons(op, children) => Sx::Cons(op, view_children(children@)),
    }
}

/// The model of a child list, element by element, in order.
pub open spec fn view_children(ts: Seq<S>) -> Seq<Sx>
    decreases ts,
{
    if ts.len() == 0 {
        Seq::empty()
    } else {
        seq![view_tree(ts[0])] + view_children(ts.drop_first())
    }
}

/// A one-element child list models as the one modelled child.
pub proof fn lemma_view_children1(ts: Seq<S>)
    requires
        ts.len() == 1,
    ensures
        view_children(ts) == seq![view_tree(ts[0])],
{
    assert(ts.drop_first() =~= Seq::<S>::empty());
    assert(view_children(Seq::<S>::empty()) == Seq::<Sx>::empty());
    assert(view_children(ts) =~= seq![view_tree(ts[0])]);
}

/// A two-element child list models element by element.
pub proof fn lemma_view_children2(ts: Seq<S>)
    requires
        ts.len() == 2,
    ensures
        view_children(ts) == seq![view_tree(ts[0]), view_tree(ts[1])],
{
    lemma_view_children1(ts.drop_first());
    assert(view_children(ts) =~= seq![view_tree(ts[0]), view_tree(ts[1])]);
}

/// A three-element child list models element by element.
pub proof fn lemma_view_children3(ts: Seq<S>)
    requires
        ts.len() == 3,
    ensures
        view_children(ts) == seq![view_tree(ts[0]), view_tree(ts[1]), view_tree(ts[2])],
{
    lemma_view_children2(ts.drop_first());
    assert(view_children(ts) =~= seq![view_tree(ts[0]), view_tree(ts[1]), view_tree(ts[2])]);
}

/// The textual rendering of a tree: a leaf renders as its symbol, an
/// application as `(op child1 child2 ...)` with single spaces.
pub open spec fn render(t: Sx) -> Seq<char>
    decreases t,
{
    match t {
        Sx::Atom(c) => seq![c],
        Sx::Cons(op, children) => seq!['('] + seq![op] + render_children(children) + seq![')'],
    }
}

/// The rendering of a child list: one space before each rendered child.
pub open spec fn render_children(ts: Seq<Sx>) -> Seq<char>
    decreases ts,
{
    if ts.len() == 0 {
        Seq::empty()
    } else {
        seq![' '] + render(ts[0]) + render_children(ts.drop_first())
    }
}

/// Appending a child appends one space and that child's rendering.
pub proof fn lemma_render_children_push(ts: Seq<Sx>, t: Sx)
    ensures
        render_children(ts.push(t)) == render_children(ts) + seq![' '] + render(t),
    decreases ts.len(),
{
    if ts.len() == 0 {
        assert(ts.push(t).drop_first() =~= Seq::<Sx>::empty());
        assert(render_children(Seq::<Sx>::empty()) == Seq::<char>::empty());
        assert(ts.push(t)[0] == t);
        assert(render_children(ts.push(t)) =~= seq![' '] + render(t));
        assert(render_children(ts) + seq![' '] + render(t) =~= seq![' '] + render(t));
    } else {
        assert(ts.push(t).drop_first() =~= ts.drop_first().push(t));
        lemma_render_children_push(ts.drop_first(), t);
        assert(render_children(ts.push(t)) =~= render_children(ts) + seq![' '] + render(t));
    }
}

/// The number of children an operator takes in a given role: one for a
/// prefix or plain postfix operator, two for a binary infix operator or the
/// indexing bracket, three for the ternary `?`.
pub open spec fn valid_arity(op: char, n: nat) -> bool {
    ||| (spec_prefix_power(op) is Some && n == 1)
    ||| (spec_postfix_power(op) is Some && n == (if op == '[' {
        2nat
    } else {
        1nat
    }))
    ||| (spec_infix_power(op) is Some && n == (if op == '?' {
        3nat
    } else {
        2nat
    }))
}

/// Structural well-formedness of a parsed tree: every leaf holds an atomic
/// operand character, and every application's child count matches its
/// operator's declared arity.
pub open spec fn wf_tree(t: Sx) -> bool
    decreases t,
{
    match t {
        Sx::Atom(c) => spec_is_atom_char(c),
        Sx::Cons(op, children) => valid_arity(op, children.len()) && (forall|k: int|
            0 <= k < children.len() ==> wf_tree(#[trigger] children[k])),
    }
}

/// Trees whose rendering is itself parseable input: a leaf, or a chain of
/// unary prefix applications over one.  A rendered binary or larger
/// application is not in this class: directly after its opening `(` the
/// parser reads the operator symbol as a prefix operator, so the rendering
/// of, say, a binary `+` node does not parse back.
pub open spec fn prefix_chain(t: Sx) -> bool
    decreases t,
{
    match t {
        Sx::Atom(c) => spec_is_atom_char(c),
        Sx::Cons(op, children) => spec_prefix_power(op) is Some && children.len() == 1
            && prefix_chain(children[0]),
    }
}

/// Relies on String::push: appends exactly the given character to the end
/// of the string.
#[verifier::external_body]
fn push_char(s: &mut String, c: char)
    ensures
        final(s)@ == old(s)@.push(c),
{
    s.push(c)
}

impl S {
    /// Renders this tree as text, exactly as `render` states.
    pub fn to_text(&self) -> (r: String)
        ensures
            r@ == render(view_tree(*self)),
        decreases *self,
    {
        match self {
            S::Atom(c) => {
                let mut out = String::new();
                push_char(&mut out, *c);
                proof {
                    assert(out@ =~= render(view_tree(*self)));
                }
                out
            },
            S::Cons(op, children) => {
                let mut out = String::new();
                push_char(&mut out, '(');
                push_char(&mut out, *op);
                let ghost head: Seq<char> = out@;
                let ghost model: Seq<Sx> = view_children(children@);
                proof {
                    lemma_view_children_len(children@);
                }
                let mut i: usize = 0;
                while i < children.len()
                    invariant
                        *self == S::Cons(*op, *children),
                        i <= children@.len(),
                        model == view_children(children@),
                        model.len() == children@.len(),
                        head == seq!['('].push(*op),
                        out@ == head + render_children(model.take(i as int)),
                    decreases children@.len() - i,
                {
                    proof {
                        assert(self->Cons_1 == *children);
                        assert(decreases_to!(*self => self->Cons_1));
                        assert(decreases_to!(*children => children[i as int]));
                        lemma_view_children_index(children@, i as int);
                    }
                    push_char(&mut out, ' ');
                    let part = children[i].to_text();
                    out.append(part.as_str());
                    proof {
                        assert(model.take(i as int).push(model[i as int]) =~= model.take(
                            i + 1 as int,
                        ));
                        lemma_render_children_push(model.take(i as int), model[i as int]);
                        assert(out@ =~= head + render_children(model.take(i + 1 as int)));
                    }
                    i = i + 1;
                }
                push_char(&mut out, ')');
                proof {
                    assert(model.take(model.len() as int) =~= model);
                    assert(out@ =~= render(view_tree(*self)));
                }
                out
            },
        }
    }
}

/// A child list and its model have the same length.
pub proof fn lemma_view_children_len(ts: Seq<S>)
    ensures
        view_children(ts).len() == ts.len(),
    decreases ts.len(),
{
    if ts.len() > 0 {
        lemma_view_children_len(ts.drop_first());
    }
}

/// A child list models element by element.
pub proof fn lemma_view_children_index(ts: Seq<S>, k: int)
    requires
        0 <= k < ts.len(),
    ensures
        view_children(ts).len() == ts.len(),
        view_children(ts)[k] == view_tree(ts[k]),
    decreases ts.len(),
{
    lemma_view_children_len(ts);
    if k > 0 {
        lemma_view_children_index(ts.drop_first(), k - 1);
    } else {
        lemma_view_children_len(ts.drop_first());
    }
}

} // verus!
