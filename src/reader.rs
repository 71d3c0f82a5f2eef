use vstd::prelude::*;
use crate::lexer::{tokenize, tokens_of, Position, Token};

verus! {

/// A read head over a fixed token list.
#[derive(Debug)]
pub struct Reader {
    pub doc: Vec<(Token, Position)>,
    pub off: usize,
}

/// The first index from `i` on whose token does not satisfy `p` (or the end).
pub open spec fn run_end(toks: Seq<(Token, Position)>, i: int, p: spec_fn(Token) -> bool) -> int
    recommends
        0 <= i <= toks.len(),
    decreases toks.len() - i,
{
    if i < 0 || i >= toks.len() || !p(toks[i].0) {
        i
    } else {
        run_end(toks, i + 1, p)
    }
}

/// A run that stops where `p` first fails is the run that `run_end` names.
pub proof fn lemma_run_end(toks: Seq<(Token, Position)>, i: int, j: int, p: spec_fn(Token) -> bool)
    requires
        0 <= i <= j <= toks.len(),
        forall|k: int| i <= k < j ==> p(#[trigger] toks[k].0),
        j == toks.len() || !p(toks[j].0),
    ensures
        run_end(toks, i, p) == j,
    decreases j - i,
{
    if i < j {
        lemma_run_end(toks, i + 1, j, p);
    }
}

pub proof fn lemma_run_end_bounds(toks: Seq<(Token, Position)>, i: int, p: spec_fn(Token) -> bool)
    requires
        0 <= i <= toks.len(),
    ensures
        i <= run_end(toks, i, p) <= toks.len(),
        forall|k: int| i <= k < run_end(toks, i, p) ==> p(#[trigger] toks[k].0),
        run_end(toks, i, p) == toks.len() || !p(toks[run_end(toks, i, p)].0),
    decreases toks.len() - i,
{
    if i < toks.len() && p(toks[i].0) {
        lemma_run_end_bounds(toks, i + 1, p);
    }
}

/// A run stops at the first token that fails `p`.
pub proof fn lemma_run_end_stops(toks: Seq<(Token, Position)>, i: int, j: int, p: spec_fn(Token) -> bool)
    requires
        0 <= i <= j < toks.len(),
        !p(toks[j].0),
    ensures
        run_end(toks, i, p) <= j,
    decreases j - i,
{
    if i < j && p(toks[i].0) {
        lemma_run_end_stops(toks, i + 1, j, p);
    }
}

/// An index brought back to the end of `toks` where it lies past it.
pub open spec fn clamped(toks: Seq<(Token, Position)>, i: int) -> int {
    if i > toks.len() {
        toks.len() as int
    } else {
        i
    }
}

/// The token at index `i`, or end of input past the end.
pub open spec fn token_at(toks: Seq<(Token, Position)>, i: int) -> Token {
    if 0 <= i < toks.len() {
        toks[i].0
    } else {
        Token::Eof
    }
}

/// The position at index `i`, or the sentinel `{0, 0}` past the end.
pub open spec fn position_at(toks: Seq<(Token, Position)>, i: int) -> Position {
    if 0 <= i < toks.len() {
        toks[i].1
    } else {
        Position { line: 0, column: 0 }
    }
}

impl Reader {
    /// The token list read by this reader.
    pub open spec fn tokens(&self) -> Seq<(Token, Position)> {
        self.doc@
    }

    /// The index of the current token.
    pub open spec fn offset(&self) -> int {
        self.off as int
    }

    pub fn new(doc: Vec<(Token, Position)>) -> (r: Reader)
        ensures
            r.tokens() == doc@,
            r.offset() == 0,
    {
        Reader { doc, off: 0 }
    }

    /// A reader at the start of the tokens of `s`.
    pub fn from_text(s: &String) -> (r: Reader)
        requires
            s@.len() < u32::MAX,
        ensures
            tokens_of(s@, r.tokens()),
            r.offset() == 0,
    {
        Reader::new(tokenize(s))
    }

    /// The token after the current one.
    pub fn peek(&self) -> (t: Token)
        ensures
            t == token_at(self.tokens(), self.offset() + 1),
    {
        if self.doc.len() > 0 && self.off < self.doc.len() - 1 {
            self.doc[self.off + 1].0
        } else {
            Token::Eof
        }
    }

    /// The token `n` places after the current one.
    pub fn peek_by(&self, n: usize) -> (t: Token)
        ensures
            t == token_at(self.tokens(), self.offset() + n),
    {
        if self.off < self.doc.len() && n < self.doc.len() - self.off {
            self.doc[self.off + n].0
        } else {
            Token::Eof
        }
    }

    /// The token at index `k`, or end of input past the end.
    pub fn nth_token(&self, k: usize) -> (t: Token)
        ensures
            t == token_at(self.tokens(), k as int),
    {
        if k < self.doc.len() {
            self.doc[k].0
        } else {
            Token::Eof
        }
    }

    /// The position of the token at index `k`, or `{0, 0}` past the end.
    pub fn nth_position(&self, k: usize) -> (p: Position)
        ensures
            p == position_at(self.tokens(), k as int),
    {
        if k < self.doc.len() {
            self.doc[k].1
        } else {
            Position { line: 0, column: 0 }
        }
    }

    /// The current token.
    pub fn token(&self) -> (t: Token)
        ensures
            t == token_at(self.tokens(), self.offset()),
    {
        if self.off < self.doc.len() {
            self.doc[self.off].0
        } else {
            Token::Eof
        }
    }

    /// The position of the current token.
    pub fn position(&self) -> (p: Position)
        ensures
            p == position_at(self.tokens(), self.offset()),
    {
        if self.off < self.doc.len() {
            self.doc[self.off].1
        } else {
            Position { line: 0, column: 0 }
        }
    }

    /// Moves the read head forward by `amount`, stopping at the end; a head
    /// that lies past the end is brought back to it.
    pub fn advance_by(&mut self, amount: usize)
        ensures
            final(self).tokens() == old(self).tokens(),
            final(self).offset() == if amount <= old(self).tokens().len() - old(self).offset() {
                old(self).offset() + amount
            } else {
                old(self).tokens().len() as int
            },
            final(self).offset() <= final(self).tokens().len(),
    {
        if self.off < self.doc.len() && amount <= self.doc.len() - self.off {
            self.off = self.off + amount;
        } else {
            self.off = self.doc.len();
        }
    }

    /// Consumes tokens while `cond` holds and returns them.
    pub(crate) fn get_while<F: Fn(&Token) -> bool>(&mut self, cond: F, Ghost(p): Ghost<
        spec_fn(Token) -> bool,
    >) -> (r: Vec<(Token, Position)>)
        requires
            forall|t: Token| cond.requires((&t,)),
            forall|t: Token, b: bool| cond.ensures((&t,), b) ==> b == p(t),
        ensures
            final(self).tokens() == old(self).tokens(),
            final(self).offset() == run_end(
                old(self).tokens(),
                clamped(old(self).tokens(), old(self).offset()),
                p,
            ),
            final(self).offset() <= final(self).tokens().len(),
            r@ == old(self).tokens().subrange(
                clamped(old(self).tokens(), old(self).offset()),
                final(self).offset(),
            ),
    {
        if self.off > self.doc.len() {
            self.off = self.doc.len();
        }
        let start = self.off;
        let mut r: Vec<(Token, Position)> = Vec::new();
        while self.off < self.doc.len() && cond(&self.doc[self.off].0)
            invariant
                start <= self.off <= self.doc.len(),
                self.doc@ == old(self).doc@,
                start == clamped(old(self).doc@, old(self).off as int),
                forall|t: Token| cond.requires((&t,)),
                forall|t: Token, b: bool| cond.ensures((&t,), b) ==> b == p(t),
                forall|k: int| start <= k < self.off ==> p(#[trigger] self.doc@[k].0),
                r@ == self.doc@.subrange(start as int, self.off as int),
            decreases self.doc.len() - self.off,
        {
            r.push(self.doc[self.off]);
            self.off = self.off + 1;
            assert(r@ =~= self.doc@.subrange(start as int, self.off as int));
        }
        proof {
            lemma_run_end(self.doc@, start as int, self.off as int, p);
        }
        r
    }
}

} // verus!
