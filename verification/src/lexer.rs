//! Tokenizer: turns a raw character sequence into an ordered token queue.
//!
//! Every non-whitespace character becomes its own token: alphanumeric
//! characters are atomic operands, everything else is an operator (or
//! structural bracket) symbol.  Multi-character identifiers and numbers are
//! a documented limitation of this layer, not an error.

use vstd::prelude::*;

verus! {

/// One unit of input for the parser: an atomic operand, an operator or
/// bracket symbol, or the end-of-input sentinel.
#[derive(Debug, Clone, Copy, PartialEq, Eq, Structural)]
pub enum Token {
    Atom(char),
    Op(char),
    Eof,
}

/// Errors reserved for a richer tokenizer front-end (keywords, multi-digit
/// number literals, strings).  The character-level tokenizer in this module
/// never fails: unrecognized characters become opaque operator symbols that
/// the parser later rejects.
#[derive(Debug, Clone, PartialEq, Eq, Structural, Default)]
pub enum LexingError {
    NumberParseError,
    #[default]
    Other,
}

/// The ASCII whitespace characters, which the tokenizer elides.
pub open spec fn spec_is_whitespace(c: char) -> bool {
    c == ' ' || c == '\t' || c == '\n' || c == '\r' || c == '\x0c'
}

/// Characters that form atomic operands: ASCII digits and letters.
pub open spec fn spec_is_atom_char(c: char) -> bool {
    ('0' <= c && c <= '9') || ('a' <= c && c <= 'z') || ('A' <= c && c <= 'Z')
}

/// How one non-whitespace character is classified.
pub open spec fn spec_classify(c: char) -> Token {
    if spec_is_atom_char(c) {
        Token::Atom(c)
    } else {
        Token::Op(c)
    }
}

/// The token sequence of a character sequence: whitespace elided, every
/// other character classified on its own.
pub open spec fn spec_tokenize(s: Seq<char>) -> Seq<Token>
    decreases s.len(),
{
    if s.len() == 0 {
        Seq::empty()
    } else if spec_is_whitespace(s[0]) {
        spec_tokenize(s.drop_first())
    } else {
        seq![spec_classify(s[0])] + spec_tokenize(s.drop_first())
    }
}

/// Tokenizing a concatenation tokenizes the parts independently.
pub proof fn lemma_tokenize_add(s1: Seq<char>, s2: Seq<char>)
    ensures
        spec_tokenize(s1 + s2) == spec_tokenize(s1) + spec_tokenize(s2),
    decreases s1.len(),
{
    if s1.len() == 0 {
        assert(s1 + s2 =~= s2);
        assert(spec_tokenize(s1) + spec_tokenize(s2) =~= spec_tokenize(s2));
    } else {
        assert((s1 + s2).drop_first() =~= s1.drop_first() + s2);
        lemma_tokenize_add(s1.drop_first(), s2);
        if spec_is_whitespace(s1[0]) {
        } else {
            assert(seq![spec_classify(s1[0])] + (spec_tokenize(s1.drop_first())
                + spec_tokenize(s2)) =~= (seq![spec_classify(s1[0])]
                + spec_tokenize(s1.drop_first())) + spec_tokenize(s2));
        }
    }
}

/// The tokenizer never emits the end-of-input sentinel: `Eof` only ever
/// comes from reading past the end of the queue.
pub proof fn lemma_tokenize_no_eof(s: Seq<char>)
    ensures
        forall|k: int|
            0 <= k < spec_tokenize(s).len() ==> #[trigger] spec_tokenize(s)[k] != Token::Eof,
    decreases s.len(),
{
    if s.len() == 0 {
    } else {
        lemma_tokenize_no_eof(s.drop_first());
        if spec_is_whitespace(s[0]) {
        } else {
            assert(forall|k: int|
                1 <= k < spec_tokenize(s).len() ==> #[trigger] spec_tokenize(s)[k]
                    == spec_tokenize(s.drop_first())[k - 1]);
        }
    }
}

/// Every atom token in a sequence holds an atomic operand character.
pub open spec fn atoms_wf(toks: Seq<Token>) -> bool {
    forall|k: int|
        0 <= k < toks.len() ==> (#[trigger] toks[k] matches Token::Atom(c) ==> spec_is_atom_char(
            c,
        ))
}

/// The tokenizer only makes atom tokens out of atomic operand characters.
pub proof fn lemma_tokenize_atoms_wf(s: Seq<char>)
    ensures
        atoms_wf(spec_tokenize(s)),
    decreases s.len(),
{
    if s.len() == 0 {
    } else {
        lemma_tokenize_atoms_wf(s.drop_first());
        if spec_is_whitespace(s[0]) {
        } else {
            assert(forall|k: int|
                1 <= k < spec_tokenize(s).len() ==> #[trigger] spec_tokenize(s)[k]
                    == spec_tokenize(s.drop_first())[k - 1]);
        }
    }
}

/// Appending one character extends the token sequence by at most one token.
pub proof fn lemma_tokenize_push(s: Seq<char>, c: char)
    ensures
        spec_tokenize(s.push(c)) == spec_tokenize(s) + (if spec_is_whitespace(c) {
            Seq::<Token>::empty()
        } else {
            seq![spec_classify(c)]
        }),
{
    assert(s.push(c) =~= s + seq![c]);
    lemma_tokenize_add(s, seq![c]);
    assert(spec_tokenize(Seq::<char>::empty()) == Seq::<Token>::empty());
    assert(seq![c].len() == 1 && seq![c][0] == c);
    assert(seq![c].drop_first() =~= Seq::<char>::empty());
    if spec_is_whitespace(c) {
        assert(spec_tokenize(s) + Seq::<Token>::empty() =~= spec_tokenize(s));
    } else {
        assert(seq![spec_classify(c)] + Seq::<Token>::empty() =~= seq![spec_classify(c)]);
    }
}

/// One character tokenizes to its classification, or to nothing if it is
/// whitespace.
pub proof fn lemma_tokenize_single(c: char)
    ensures
        spec_tokenize(seq![c]) == (if spec_is_whitespace(c) {
            Seq::<Token>::empty()
        } else {
            seq![spec_classify(c)]
        }),
{
    assert(Seq::<char>::empty().push(c) =~= seq![c]);
    lemma_tokenize_push(Seq::<char>::empty(), c);
    assert(spec_tokenize(Seq::<char>::empty()) == Seq::<Token>::empty());
    if spec_is_whitespace(c) {
        assert(Seq::<Token>::empty() + Seq::<Token>::empty() =~= Seq::<Token>::empty());
    } else {
        assert(Seq::<Token>::empty() + seq![spec_classify(c)] =~= seq![spec_classify(c)]);
    }
}

fn is_whitespace_char(c: char) -> (b: bool)
    ensures
        b == spec_is_whitespace(c),
{
    c == ' ' || c == '\t' || c == '\n' || c == '\r' || c == '\x0c'
}

fn classify_char(c: char) -> (t: Token)
    ensures
        t == spec_classify(c),
{
    if ('0' <= c && c <= '9') || ('a' <= c && c <= 'z') || ('A' <= c && c <= 'Z') {
        Token::Atom(c)
    } else {
        Token::Op(c)
    }
}

/// A FIFO cursor over the token sequence of one input: `next` consumes the
/// front token, `peek` inspects it without consuming.  Both return
/// `Token::Eof` once the queue is exhausted, as often as they are called.
pub struct Lexer {
    tokens: Vec<Token>,
    pos: usize,
}

impl Lexer {
    /// The full token sequence this cursor walks over.
    pub closed spec fn toks(&self) -> Seq<Token> {
        self.tokens@
    }

    /// How many tokens have been consumed so far.
    pub closed spec fn cursor(&self) -> int {
        self.pos as int
    }

    /// The cursor never runs past the end of the token sequence.
    pub open spec fn wf(&self) -> bool {
        0 <= self.cursor() <= self.toks().len()
    }

    /// The token `peek` and `next` yield at a given state.
    pub open spec fn spec_peek(&self) -> Token {
        if self.cursor() < self.toks().len() {
            self.toks()[self.cursor()]
        } else {
            Token::Eof
        }
    }

    pub fn new(input: &str) -> (l: Lexer)
        ensures
            l.wf(),
            l.toks() == spec_tokenize(input@),
            l.cursor() == 0,
    {
        let n = input.unicode_len();
        let mut tokens: Vec<Token> = Vec::new();
        let mut i: usize = 0;
        while i < n
            invariant
                n == input@.len(),
                i <= n,
                tokens@ == spec_tokenize(input@.take(i as int)),
            decreases n - i,
        {
            let c = input.get_char(i);
            proof {
                assert(input@.take(i as int).push(c) =~= input@.take(i + 1 as int));
                lemma_tokenize_push(input@.take(i as int), c);
            }
            if !is_whitespace_char(c) {
                tokens.push(classify_char(c));
            }
            i = i + 1;
        }
        proof {
            assert(input@.take(n as int) =~= input@);
        }
        Lexer { tokens, pos: 0 }
    }

    /// Removes and returns the next token; idempotently `Eof` at the end.
    pub fn next(&mut self) -> (t: Token)
        requires
            old(self).wf(),
        ensures
            final(self).wf(),
            final(self).toks() == old(self).toks(),
            t == old(self).spec_peek(),
            old(self).cursor() < old(self).toks().len() ==> final(self).cursor() == old(self).cursor()
                + 1,
            old(self).cursor() == old(self).toks().len() ==> final(self).cursor() == old(
                self,
            ).cursor(),
    {
        if self.pos < self.tokens.len() {
            let t = self.tokens[self.pos];
            self.pos = self.pos + 1;
            t
        } else {
            Token::Eof
        }
    }

    /// Returns the next token without consuming it; `Eof` at the end.
    pub fn peek(&self) -> (t: Token)
        requires
            self.wf(),
        ensures
            t == self.spec_peek(),
    {
        if self.pos < self.tokens.len() {
            self.tokens[self.pos]
        } else {
            Token::Eof
        }
    }
}

} // verus!
