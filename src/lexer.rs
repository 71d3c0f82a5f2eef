use vstd::prelude::*;
use vstd::string::StrSliceExecFns;

verus! {

/// Relies on String::push: appends one character.
#[verifier::external_body]
pub(crate) fn push_char(s: &mut String, c: char)
    ensures
        final(s)@ == old(s)@.push(c),
{
    s.push(c)
}

/// One lexical unit of a document: a structural symbol, whitespace,
/// the end of input, or any other character.
#[derive(Debug, Clone, Copy, PartialEq, Eq, Structural)]
pub enum Token {
    NumberSign,
    Equal,
    Star,
    LSquareBracket,
    RSquareBracket,
    LCurlyBracket,
    RCurlyBracket,
    Pipe,
    Dash,
    Colon,
    Slash,
    Underscore,
    Exclamation,
    Backtick,
    Newline,
    Eof,
    Whitespace(char),
    Char(char),
}

/// The token that a single character stands for.
pub open spec fn token_of(c: char) -> Token {
    if c == '#' {
        Token::NumberSign
    } else if c == '*' {
        Token::Star
    } else if c == '=' {
        Token::Equal
    } else if c == '[' {
        Token::LSquareBracket
    } else if c == ']' {
        Token::RSquareBracket
    } else if c == '{' {
        Token::LCurlyBracket
    } else if c == '}' {
        Token::RCurlyBracket
    } else if c == '|' {
        Token::Pipe
    } else if c == '-' {
        Token::Dash
    } else if c == ':' {
        Token::Colon
    } else if c == '/' {
        Token::Slash
    } else if c == '_' {
        Token::Underscore
    } else if c == '`' {
        Token::Backtick
    } else if c == '\n' {
        Token::Newline
    } else if c == '!' {
        Token::Exclamation
    } else if c == '\r' || c == '\t' || c == ' ' {
        Token::Whitespace(c)
    } else {
        Token::Char(c)
    }
}

/// The character that a token was read from; end of input reads as no
/// character and is given a NUL here.
pub open spec fn char_of(t: Token) -> char {
    match t {
        Token::NumberSign => '#',
        Token::Equal => '=',
        Token::Star => '*',
        Token::LSquareBracket => '[',
        Token::RSquareBracket => ']',
        Token::LCurlyBracket => '{',
        Token::RCurlyBracket => '}',
        Token::Pipe => '|',
        Token::Dash => '-',
        Token::Colon => ':',
        Token::Slash => '/',
        Token::Underscore => '_',
        Token::Exclamation => '!',
        Token::Backtick => '`',
        Token::Newline => '\n',
        Token::Eof => '\0',
        Token::Whitespace(c) => c,
        Token::Char(c) => c,
    }
}

/// Reading a character back from its token gives the character.
pub proof fn lemma_char_of_token_of(c: char)
    ensures
        char_of(token_of(c)) == c,
        token_of(c) != Token::Eof,
{
}

impl Token {
    /// Classifies one character.
    pub fn from_char(c: char) -> (t: Token)
        ensures
            t == token_of(c),
    {
        match c {
            '#' => Token::NumberSign,
            '*' => Token::Star,
            '=' => Token::Equal,
            '[' => Token::LSquareBracket,
            ']' => Token::RSquareBracket,
            '{' => Token::LCurlyBracket,
            '}' => Token::RCurlyBracket,
            '|' => Token::Pipe,
            '-' => Token::Dash,
            ':' => Token::Colon,
            '/' => Token::Slash,
            '_' => Token::Underscore,
            '`' => Token::Backtick,
            '\n' => Token::Newline,
            '!' => Token::Exclamation,
            '\r' | '\t' | ' ' => Token::Whitespace(c),
            _ => Token::Char(c),
        }
    }

    /// The character this token was read from (NUL for end of input).
    pub fn to_char(&self) -> (c: char)
        ensures
            c == char_of(*self),
    {
        match self {
            Token::NumberSign => '#',
            Token::Equal => '=',
            Token::Star => '*',
            Token::LSquareBracket => '[',
            Token::RSquareBracket => ']',
            Token::LCurlyBracket => '{',
            Token::RCurlyBracket => '}',
            Token::Pipe => '|',
            Token::Dash => '-',
            Token::Colon => ':',
            Token::Slash => '/',
            Token::Underscore => '_',
            Token::Exclamation => '!',
            Token::Backtick => '`',
            Token::Newline => '\n',
            Token::Eof => '\0',
            Token::Whitespace(c) => *c,
            Token::Char(c) => *c,
        }
    }
}

/// A place in the source text, 1-indexed by line and by column.
#[derive(Debug, Clone, Copy, PartialEq, Eq, Structural)]
pub struct Position {
    pub line: u32,
    pub column: u32,
}

impl Position {
    pub fn new(line: u32, column: u32) -> (p: Position)
        ensures
            p.line == line,
            p.column == column,
    {
        Position { line, column }
    }
}

/// Line and column of the character at index `n` of `s` (or of the place
/// just past the end when `n == s.len()`).
pub open spec fn line_col(s: Seq<char>, n: nat) -> (int, int)
    decreases n,
{
    if n == 0 {
        (1, 1)
    } else {
        let p = line_col(s, (n - 1) as nat);
        if s[n - 1] == '\n' {
            (p.0 + 1, 1)
        } else {
            (p.0, p.1 + 1)
        }
    }
}

pub proof fn lemma_line_col_bounds(s: Seq<char>, n: nat)
    ensures
        1 <= line_col(s, n).0 <= n + 1,
        1 <= line_col(s, n).1 <= n + 1,
    decreases n,
{
    if n > 0 {
        lemma_line_col_bounds(s, (n - 1) as nat);
    }
}

/// Lines never go back: along the text the line number does not decrease.
pub proof fn lemma_lines_monotonic(s: Seq<char>, i: nat, j: nat)
    requires
        i <= j,
    ensures
        line_col(s, i).0 <= line_col(s, j).0,
    decreases j - i,
{
    if i < j {
        lemma_lines_monotonic(s, i, (j - 1) as nat);
    }
}

/// Along a token list the line numbers never decrease.
pub proof fn lemma_token_lines_monotonic(s: Seq<char>, toks: Seq<(Token, Position)>, i: int, j: int)
    requires
        tokens_of(s, toks),
        0 <= i <= j < toks.len(),
    ensures
        toks[i].1.line <= toks[j].1.line,
{
    assert(toks[i].1.line == line_col(s, i as nat).0);
    assert(toks[j].1.line == line_col(s, j as nat).0);
    lemma_lines_monotonic(s, i as nat, j as nat);
}

/// Whether `toks` is the token list of the text `s`: one token per
/// character, each with the place of its character, then end of input.
pub open spec fn tokens_of(s: Seq<char>, toks: Seq<(Token, Position)>) -> bool {
    &&& toks.len() == s.len() + 1
    &&& forall|i: int|
        0 <= i < s.len() ==> #[trigger] toks[i].0 == token_of(s[i])
    &&& toks[s.len() as int].0 == Token::Eof
    &&& forall|i: int|
        0 <= i <= s.len() ==> #[trigger] toks[i].1.line == line_col(s, i as nat).0
            && toks[i].1.column == line_col(s, i as nat).1
}

/// Splits `s` into tokens, each tagged with the line and column of its first
/// character, and ends the list with a single end-of-input token placed one
/// past the last character.
pub fn tokenize(s: &String) -> (toks: Vec<(Token, Position)>)
    requires
        s@.len() < u32::MAX,
    ensures
        tokens_of(s@, toks@),
        toks@.last().0 == Token::Eof,
        forall|i: int| 0 <= i < toks@.len() - 1 ==> #[trigger] toks@[i].0 != Token::Eof,
        forall|i: int|
            0 < i < toks@.len() ==> (#[trigger] toks@[i].1.column == 1 <==> toks@[i - 1].0
                == Token::Newline),
        forall|i: int|
            0 < i < toks@.len() ==> #[trigger] toks@[i].1.line == toks@[i - 1].1.line + (if toks@[i
                - 1].0 == Token::Newline {
                1int
            } else {
                0int
            }),
{
    let text = s.as_str();
    let n = text.unicode_len();
    let mut toks: Vec<(Token, Position)> = Vec::new();
    let mut line: u32 = 1;
    let mut column: u32 = 1;
    let mut i: usize = 0;
    while i < n
        invariant
            n == s@.len(),
            text@ == s@,
            n < u32::MAX,
            i <= n,
            toks@.len() == i,
            line == line_col(s@, i as nat).0,
            column == line_col(s@, i as nat).1,
            forall|k: int| 0 <= k < i ==> #[trigger] toks@[k].0 == token_of(s@[k]),
            forall|k: int|
                0 <= k < i ==> #[trigger] toks@[k].1.line == line_col(s@, k as nat).0
                    && toks@[k].1.column == line_col(s@, k as nat).1,
        decreases n - i,
    {
        let c = text.get_char(i);
        let tok = Token::from_char(c);
        proof {
            lemma_line_col_bounds(s@, i as nat);
        }
        toks.push((tok, Position::new(line, column)));
        assert(toks@[i as int].1.line == line_col(s@, i as nat).0);
        assert(toks@[i as int].1.column == line_col(s@, i as nat).1);
        if c == '\n' {
            line = line + 1;
            column = 1;
        } else {
            column = column + 1;
        }
        i = i + 1;
    }
    toks.push((Token::Eof, Position::new(line, column)));
    proof {
        assert(toks@[n as int].1.line == line_col(s@, n as nat).0);
        assert(toks@[n as int].1.column == line_col(s@, n as nat).1);
        assert forall|k: int| 0 <= k <= n implies #[trigger] toks@[k].1.line == line_col(
            s@,
            k as nat,
        ).0 && toks@[k].1.column == line_col(s@, k as nat).1 by {}
        assert forall|k: int| 0 < k < toks@.len() implies (#[trigger] toks@[k].1.column == 1
            <==> toks@[k - 1].0 == Token::Newline) by {
            lemma_line_col_bounds(s@, (k - 1) as nat);
            lemma_char_of_token_of(s@[k - 1]);
            assert(toks@[k].1.line == line_col(s@, k as nat).0);
            assert(toks@[k].1.column == line_col(s@, k as nat).1);
            assert(toks@[k - 1].0 == token_of(s@[k - 1]));
            if s@[k - 1] != '\n' {
                assert(char_of(toks@[k - 1].0) != '\n');
            }
        }
        assert forall|k: int| 0 <= k < toks@.len() - 1 implies #[trigger] toks@[k].0
            != Token::Eof by {
            lemma_char_of_token_of(s@[k]);
        }
        assert forall|k: int| 0 < k < toks@.len() implies #[trigger] toks@[k].1.line == toks@[k
            - 1].1.line + (if toks@[k - 1].0 == Token::Newline {
            1int
        } else {
            0int
        }) by {
            lemma_char_of_token_of(s@[k - 1]);
            if s@[k - 1] != '\n' {
                assert(char_of(toks@[k - 1].0) != '\n');
            }
        }
    }
    toks
}

} // verus!
