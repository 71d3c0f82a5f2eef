use vstd::prelude::*;
use crate::lexer::{char_of, push_char, Position, Token};
use crate::spans::{spans, unclosed_at, unterminated_span, Lexer};
use crate::syntax::{Kind, KindView};
use crate::reader::{lemma_run_end_bounds, lemma_run_end_stops, position_at, run_end, token_at, Reader};

verus! {

/// Inline or structured payload of a block.
#[derive(Debug, PartialEq, Eq)]
pub enum Content {
    Text(String),
    Span(Box<Content>),
    Table(Vec<Vec<String>>),
    List(Vec<String>),
    LinkRef(Option<Box<Content>>, String),
}

/// The payload of one tree node.
#[derive(Debug, PartialEq, Eq)]
pub enum Block {
    H1(Content),
    H2(Content),
    H3(Content),
    H4(Content),
    H5(Content),
    H6(Content),
    Title(Content),
    Code(String, String),
    InlineCode(String),
    UnorderedList(Content),
    OrderedList(Content),
    Quote(Content),
    Italic(Content),
    Bold(Content),
    Image(Content),
    Link(Content),
    Embed(Content),
    Text(Content),
    Root,
}

/// The mathematical value of a `Content`.
pub enum ContentView {
    Text(Seq<char>),
    Span(Box<ContentView>),
    Table(Seq<Seq<Seq<char>>>),
    List(Seq<Seq<char>>),
    LinkRef(Option<Box<ContentView>>, Seq<char>),
}

/// The mathematical value of a `Block`; headers carry their level.
pub enum BlockView {
    Header(nat, ContentView),
    Title(ContentView),
    Code(Seq<char>, Seq<char>),
    InlineCode(Seq<char>),
    UnorderedList(ContentView),
    OrderedList(ContentView),
    Quote(ContentView),
    Italic(ContentView),
    Bold(ContentView),
    Image(ContentView),
    Link(ContentView),
    Embed(ContentView),
    Text(ContentView),
    Root,
}

impl View for Content {
    type V = ContentView;

    open spec fn view(&self) -> ContentView
        decreases self,
    {
        match self {
            Content::Text(s) => ContentView::Text(s@),
            Content::Span(c) => ContentView::Span(Box::new((**c).view())),
            Content::Table(rows) => ContentView::Table(rows.deep_view()),
            Content::List(items) => ContentView::List(items.deep_view()),
            Content::LinkRef(label, target) => ContentView::LinkRef(
                match label {
                    Some(l) => Some(Box::new((**l).view())),
                    None => None,
                },
                target@,
            ),
        }
    }
}

impl View for Block {
    type V = BlockView;

    open spec fn view(&self) -> BlockView {
        match self {
            Block::H1(c) => BlockView::Header(1, c@),
            Block::H2(c) => BlockView::Header(2, c@),
            Block::H3(c) => BlockView::Header(3, c@),
            Block::H4(c) => BlockView::Header(4, c@),
            Block::H5(c) => BlockView::Header(5, c@),
            Block::H6(c) => BlockView::Header(6, c@),
            Block::Title(c) => BlockView::Title(c@),
            Block::Code(l, b) => BlockView::Code(l@, b@),
            Block::InlineCode(s) => BlockView::InlineCode(s@),
            Block::UnorderedList(c) => BlockView::UnorderedList(c@),
            Block::OrderedList(c) => BlockView::OrderedList(c@),
            Block::Quote(c) => BlockView::Quote(c@),
            Block::Italic(c) => BlockView::Italic(c@),
            Block::Bold(c) => BlockView::Bold(c@),
            Block::Image(c) => BlockView::Image(c@),
            Block::Link(c) => BlockView::Link(c@),
            Block::Embed(c) => BlockView::Embed(c@),
            Block::Text(c) => BlockView::Text(c@),
            Block::Root => BlockView::Root,
        }
    }
}

/// A diagnostic: what went wrong and where.
#[derive(Debug, PartialEq, Eq)]
pub struct ParseError {
    pub message: String,
    pub location: Position,
}

impl View for ParseError {
    type V = (Seq<char>, Position);

    open spec fn view(&self) -> (Seq<char>, Position) {
        (self.message@, self.location)
    }
}

impl ParseError {
    pub fn new(message: String, location: Position) -> (e: ParseError)
        ensures
            e.message@ == message@,
            e.location == location,
    {
        ParseError { message, location }
    }

    /// The message, as text.
    pub fn message(&self) -> (s: String)
        ensures
            s@ == self.message@,
    {
        self.message.clone()
    }
}

/// A node of the document tree.
#[derive(Debug, PartialEq, Eq)]
pub struct Node {
    pub node: Vec<Node>,
    pub block: Block,
}

impl Node {
    pub fn new(b: Block) -> (n: Node)
        ensures
            n.block == b,
            n.node@.len() == 0,
    {
        Node { node: Vec::new(), block: b }
    }
}

/// The mathematical value of a `Node`: its block and its children.
pub struct NodeView {
    pub block: BlockView,
    pub children: Seq<NodeView>,
}

pub open spec fn node_view(n: Node) -> NodeView
    decreases n,
{
    NodeView {
        block: n.block@,
        children: Seq::new(
            n.node@.len(),
            |i: int|
                if 0 <= i < n.node@.len() {
                    node_view(n.node@[i])
                } else {
                    arbitrary()
                },
        ),
    }
}

/// The views of a list of nodes.
pub open spec fn nodes_view(ns: Seq<Node>) -> Seq<NodeView> {
    Seq::new(ns.len(), |i: int| node_view(ns[i]))
}

pub open spec fn leaf(b: BlockView) -> NodeView {
    NodeView { block: b, children: Seq::empty() }
}

/// The text of a markup tree without its delimiters.
pub open spec fn plain(k: KindView) -> Seq<char>
    decreases k,
{
    match k {
        KindView::Str(x) => x,
        KindView::Bold(i) => plain(*i),
        KindView::Italic(i) => plain(*i),
        KindView::Concat(a, b) => plain(*a) + plain(*b),
        _ => Seq::empty(),
    }
}

/// The nodes that a markup tree becomes: plain text gives a text node, a
/// bold or italic span a node that holds its text and, unless that is plain
/// text, the nodes of what it wraps.
pub open spec fn span_nodes(k: KindView) -> Seq<NodeView>
    decreases k,
{
    match k {
        KindView::Str(x) => seq![leaf(BlockView::Text(ContentView::Text(x)))],
        KindView::Bold(i) => seq![
            NodeView {
                block: BlockView::Bold(ContentView::Text(plain(*i))),
                children: if *i is Str {
                    Seq::empty()
                } else {
                    span_nodes(*i)
                },
            },
        ],
        KindView::Italic(i) => seq![
            NodeView {
                block: BlockView::Italic(ContentView::Text(plain(*i))),
                children: if *i is Str {
                    Seq::empty()
                } else {
                    span_nodes(*i)
                },
            },
        ],
        KindView::Concat(a, b) => span_nodes(*a) + span_nodes(*b),
        _ => Seq::empty(),
    }
}

/// The nodes under a block whose text reads as `k`.
pub open spec fn inner_nodes(k: KindView) -> Seq<NodeView> {
    if k is Str {
        Seq::empty()
    } else {
        span_nodes(k)
    }
}

/// The errors for the unclosed delimiters of the text `raw` that ends at
/// token `end`, each at its delimiter's position.
pub open spec fn span_errors(toks: Seq<(Token, Position)>, raw: Seq<char>, end: int) -> Seq<
    (Seq<char>, Position),
> {
    unclosed_at(raw).map_values(
        |x: int| (unterminated_span(), position_at(toks, end - raw.len() + x)),
    )
}

/// A line block whose text is read for bold and italic spans.
pub open spec fn spanned(b: BlockView, k: KindView) -> NodeView {
    NodeView { block: b, children: inner_nodes(k) }
}

/// The nodes and errors that the block `b`, ending at token `end`, gives
/// once the text of text lines, quotes, titles and headers is read for
/// spans: a text line becomes the nodes of its spans, the others keep their
/// block with the text without delimiters and hold the span nodes.
pub open spec fn inline_at(toks: Seq<(Token, Position)>, b: BlockView, end: int) -> (
    Seq<NodeView>,
    Seq<(Seq<char>, Position)>,
) {
    match b {
        BlockView::Text(ContentView::Text(raw)) => (
            span_nodes(spans(raw)),
            span_errors(toks, raw, end),
        ),
        BlockView::Quote(ContentView::Text(raw)) => (
            seq![spanned(BlockView::Quote(ContentView::Text(plain(spans(raw)))), spans(raw))],
            span_errors(toks, raw, end),
        ),
        BlockView::Title(ContentView::Text(raw)) => (
            seq![spanned(BlockView::Title(ContentView::Text(plain(spans(raw)))), spans(raw))],
            span_errors(toks, raw, end),
        ),
        BlockView::Header(n, ContentView::Text(raw)) => (
            seq![spanned(BlockView::Header(n, ContentView::Text(plain(spans(raw)))), spans(raw))],
            span_errors(toks, raw, end),
        ),
        _ => (seq![leaf(b)], Seq::empty()),
    }
}

pub open spec fn is_ws(t: Token) -> bool {
    t is Whitespace
}

pub open spec fn ws_pred() -> spec_fn(Token) -> bool {
    |t: Token| is_ws(t)
}

/// Tokens that do not end a line.
pub open spec fn line_pred() -> spec_fn(Token) -> bool {
    |t: Token| t != Token::Newline && t != Token::Eof
}

pub open spec fn hash_pred() -> spec_fn(Token) -> bool {
    |t: Token| t == Token::NumberSign
}

pub open spec fn skip_ws(toks: Seq<(Token, Position)>, i: int) -> int {
    run_end(toks, i, ws_pred())
}

pub open spec fn line_end(toks: Seq<(Token, Position)>, i: int) -> int {
    run_end(toks, i, line_pred())
}

/// The characters that the tokens in `[a, b)` were read from.
pub open spec fn text(toks: Seq<(Token, Position)>, a: int, b: int) -> Seq<char>
    decreases b - a,
{
    if b <= a {
        Seq::empty()
    } else {
        text(toks, a, b - 1).push(char_of(toks[b - 1].0))
    }
}

/// The characters of a text's tokens are the text.
pub proof fn lemma_tokens_spell_text(s: Seq<char>, toks: Seq<(Token, Position)>, n: int)
    requires
        crate::lexer::tokens_of(s, toks),
        0 <= n <= s.len(),
    ensures
        text(toks, 0, n) == s.subrange(0, n),
    decreases n,
{
    if n > 0 {
        lemma_tokens_spell_text(s, toks, n - 1);
        crate::lexer::lemma_char_of_token_of(s[n - 1]);
        assert(toks[n - 1].0 == crate::lexer::token_of(s[n - 1]));
        assert(s.subrange(0, n) =~= s.subrange(0, n - 1).push(s[n - 1]));
    } else {
        assert(s.subrange(0, 0) =~= Seq::<char>::empty());
    }
}

/// Text from the first non-blank token at `i` to the end of the line.
pub open spec fn rest_of_line(toks: Seq<(Token, Position)>, i: int) -> Seq<char> {
    text(toks, skip_ws(toks, i), line_end(toks, skip_ws(toks, i)))
}

pub open spec fn invalid_header() -> Seq<char> {
    "invalid header format"@
}

/// A header at `i`: the level, the text, where it ends, and an error for a
/// run of more than six `#`.
pub open spec fn header_at(toks: Seq<(Token, Position)>, i: int) -> (
    BlockView,
    Option<(Seq<char>, Position)>,
    int,
) {
    let k = run_end(toks, i, hash_pred());
    let n = k - i;
    let body = ContentView::Text(rest_of_line(toks, k));
    let end = line_end(toks, skip_ws(toks, k));
    if 1 <= n <= 6 {
        (BlockView::Header(n as nat, body), None, end)
    } else {
        (BlockView::Header(6, body), Some((invalid_header(), toks[k - 1].1)), end)
    }
}

/// A title `=#` at `i`.
pub open spec fn title_at(toks: Seq<(Token, Position)>, i: int) -> (BlockView, int) {
    (
        BlockView::Title(ContentView::Text(rest_of_line(toks, i + 2))),
        line_end(toks, skip_ws(toks, i + 2)),
    )
}

/// A quote `|` at `i`.
pub open spec fn quote_at(toks: Seq<(Token, Position)>, i: int) -> (BlockView, int) {
    (
        BlockView::Quote(ContentView::Text(rest_of_line(toks, i + 1))),
        line_end(toks, skip_ws(toks, i + 1)),
    )
}

fn is_whitespace_token(t: &Token) -> (r: bool)
    ensures
        r == is_ws(*t),
{
    matches!(t, Token::Whitespace(_))
}

fn is_line_token(t: &Token) -> (r: bool)
    ensures
        r == (*t != Token::Newline && *t != Token::Eof),
{
    !matches!(t, Token::Newline | Token::Eof)
}

fn is_number_sign(t: &Token) -> (r: bool)
    ensures
        r == (*t == Token::NumberSign),
{
    matches!(t, Token::NumberSign)
}

impl Reader {
    /// Text of the tokens in `[a, b)`.
    fn text_between(&self, a: usize, b: usize) -> (s: String)
        requires
            a <= b <= self.tokens().len(),
        ensures
            s@ == text(self.tokens(), a as int, b as int),
    {
        let mut s = String::new();
        let mut k: usize = a;
        while k < b
            invariant
                a <= k <= b <= self.doc@.len(),
                s@ == text(self.doc@, a as int, k as int),
            decreases b - k,
        {
            let c = self.doc[k].0.to_char();
            push_char(&mut s, c);
            k = k + 1;
        }
        s
    }

    /// Skips whitespace tokens.
    fn skip_whitespace(&mut self)
        requires
            old(self).offset() <= old(self).tokens().len(),
        ensures
            final(self).tokens() == old(self).tokens(),
            final(self).offset() == skip_ws(old(self).tokens(), old(self).offset()),
            final(self).offset() <= final(self).tokens().len(),
    {
        proof {
            lemma_run_end_bounds(self.doc@, self.off as int, ws_pred());
        }
        let _ = self.get_while(
            is_whitespace_token,
            Ghost(ws_pred()),
        );
    }

    /// Text from the current token to the end of its line, which it consumes.
    fn get_same_line_text(&mut self) -> (s: String)
        requires
            old(self).offset() <= old(self).tokens().len(),
        ensures
            final(self).tokens() == old(self).tokens(),
            final(self).offset() == line_end(old(self).tokens(), old(self).offset()),
            final(self).offset() <= final(self).tokens().len(),
            s@ == text(old(self).tokens(), old(self).offset(), final(self).offset()),
    {
        proof {
            lemma_run_end_bounds(self.doc@, self.off as int, line_pred());
        }
        let start = self.off;
        let _ = self.get_while(
            is_line_token,
            Ghost(line_pred()),
        );
        self.text_between(start, self.off)
    }

    /// Skips blanks, then reads the rest of the line.
    fn rest_of_line(&mut self) -> (s: String)
        requires
            old(self).offset() <= old(self).tokens().len(),
        ensures
            final(self).tokens() == old(self).tokens(),
            final(self).offset() == line_end(
                old(self).tokens(),
                skip_ws(old(self).tokens(), old(self).offset()),
            ),
            final(self).offset() <= final(self).tokens().len(),
            s@ == rest_of_line(old(self).tokens(), old(self).offset()),
    {
        self.skip_whitespace();
        self.get_same_line_text()
    }

    /// Reads a header: a run of `#` and the text after it. A run longer than
    /// six gives a level-six header and an error at the run's last `#`.
    pub fn header(&mut self) -> (r: (Block, Option<ParseError>))
        requires
            old(self).offset() < old(self).tokens().len(),
            old(self).tokens()[old(self).offset()].0 == Token::NumberSign,
        ensures
            final(self).tokens() == old(self).tokens(),
            final(self).offset() == header_at(old(self).tokens(), old(self).offset()).2,
            r.0@ == header_at(old(self).tokens(), old(self).offset()).0,
            r.1 is Some == header_at(old(self).tokens(), old(self).offset()).1 is Some,
            r.1 matches Some(e) ==> Some(e@) == header_at(old(self).tokens(), old(self).offset()).1,
    {
        proof {
            lemma_run_end_bounds(self.doc@, self.off as int, hash_pred());
        }
        let run = self.get_while(
            is_number_sign,
            Ghost(hash_pred()),
        );
        let n = run.len();
        let last = self.doc[self.off - 1].1;
        let text = self.rest_of_line();
        let body = Content::Text(text);
        if n == 1 {
            (Block::H1(body), None)
        } else if n == 2 {
            (Block::H2(body), None)
        } else if n == 3 {
            (Block::H3(body), None)
        } else if n == 4 {
            (Block::H4(body), None)
        } else if n == 5 {
            (Block::H5(body), None)
        } else if n == 6 {
            (Block::H6(body), None)
        } else {
            let e = ParseError::new("invalid header format".to_owned(), last);
            (Block::H6(body), Some(e))
        }
    }

    /// Reads a title: `=#` and the text after it.
    pub fn title(&mut self) -> (b: Block)
        requires
            token_at(old(self).tokens(), old(self).offset()) == Token::Equal,
            token_at(old(self).tokens(), old(self).offset() + 1) == Token::NumberSign,
        ensures
            final(self).tokens() == old(self).tokens(),
            final(self).offset() == title_at(old(self).tokens(), old(self).offset()).1,
            b@ == title_at(old(self).tokens(), old(self).offset()).0,
    {
        self.advance_by(2);
        Block::Title(Content::Text(self.rest_of_line()))
    }

    /// Reads a quote: `|` and the text after it.
    pub fn quote(&mut self) -> (b: Block)
        requires
            token_at(old(self).tokens(), old(self).offset()) == Token::Pipe,
        ensures
            final(self).tokens() == old(self).tokens(),
            final(self).offset() == quote_at(old(self).tokens(), old(self).offset()).1,
            b@ == quote_at(old(self).tokens(), old(self).offset()).0,
    {
        self.advance_by(1);
        Block::Quote(Content::Text(self.rest_of_line()))
    }
}


pub open spec fn link_pred() -> spec_fn(Token) -> bool {
    |t: Token| t != Token::RSquareBracket && t != Token::Newline && t != Token::Eof
}

pub open spec fn word_pred() -> spec_fn(Token) -> bool {
    |t: Token| !is_ws(t) && t != Token::RSquareBracket && t != Token::Newline && t != Token::Eof
}

pub open spec fn backtick_pred() -> spec_fn(Token) -> bool {
    |t: Token| t == Token::Backtick
}

/// The end of `[a, b)` once trailing whitespace is dropped.
pub open spec fn trim_end(toks: Seq<(Token, Position)>, a: int, b: int) -> int
    decreases b - a,
{
    if b > a && is_ws(toks[b - 1].0) {
        trim_end(toks, a, b - 1)
    } else {
        b
    }
}

pub open spec fn unterminated_link() -> Seq<char> {
    "unterminated link"@
}

pub open spec fn unterminated_code() -> Seq<char> {
    "unterminated code block"@
}

/// A line read as plain text from `i`.
pub open spec fn text_at(toks: Seq<(Token, Position)>, i: int) -> (BlockView, int) {
    (BlockView::Text(ContentView::Text(text(toks, i, line_end(toks, i)))), line_end(toks, i))
}

/// A link `[target label]` at `i`; without a closing `]` on the line the line
/// is kept as text and an error is given at `i`.
pub open spec fn link_at(toks: Seq<(Token, Position)>, i: int) -> (
    BlockView,
    Option<(Seq<char>, Position)>,
    int,
) {
    let r = run_end(toks, i + 1, link_pred());
    if token_at(toks, i) == Token::LSquareBracket && token_at(toks, r) == Token::RSquareBracket {
        let a = skip_ws(toks, i + 1);
        let b = run_end(toks, a, word_pred());
        let c = skip_ws(toks, b);
        let label = if c < r {
            Some(Box::new(ContentView::Text(text(toks, c, trim_end(toks, c, r)))))
        } else {
            None
        };
        (BlockView::Link(ContentView::LinkRef(label, text(toks, a, b))), None, r + 1)
    } else {
        (text_at(toks, i).0, Some((unterminated_link(), position_at(toks, i))), text_at(toks, i).1)
    }
}

/// The first index from `j` that holds end of input or a backtick that
/// starts a line (`at_start` tells whether `j` starts one).
pub open spec fn fence_close(toks: Seq<(Token, Position)>, j: int, at_start: bool) -> int
    decreases toks.len() - j,
{
    if j < 0 || j >= toks.len() || toks[j].0 == Token::Eof {
        j
    } else if at_start && toks[j].0 == Token::Backtick {
        j
    } else {
        fence_close(toks, j + 1, toks[j].0 == Token::Newline)
    }
}

/// A fenced code block at `i`: the language after the opening backticks, and
/// the lines up to a line that starts with a backtick.
pub open spec fn code_at(toks: Seq<(Token, Position)>, i: int) -> (
    BlockView,
    Option<(Seq<char>, Position)>,
    int,
) {
    let r = run_end(toks, i, backtick_pred());
    let ls = skip_ws(toks, r);
    let le = line_end(toks, ls);
    let lang = text(toks, ls, le);
    if token_at(toks, le) == Token::Newline {
        let c = fence_close(toks, le + 1, true);
        if token_at(toks, c) == Token::Backtick {
            let body_end = if c > le + 1 {
                c - 1
            } else {
                le + 1
            };
            (BlockView::Code(lang, text(toks, le + 1, body_end)), None, line_end(toks, c))
        } else {
            (
                BlockView::Code(lang, text(toks, le + 1, c)),
                Some((unterminated_code(), position_at(toks, c))),
                c,
            )
        }
    } else {
        (BlockView::Code(lang, Seq::empty()), Some((unterminated_code(), position_at(toks, le))), le)
    }
}

pub open spec fn is_digit(c: char) -> bool {
    '0' <= c <= '9'
}

/// A digit and then `.` at `j`.
pub open spec fn starts_number(toks: Seq<(Token, Position)>, j: int) -> bool {
    &&& token_at(toks, j) matches Token::Char(d)
    &&& is_digit(d)
    &&& token_at(toks, j + 1) == Token::Char('.')
}

/// Length of the list marker at `j`: `-` for unordered lists, a digit and
/// `.` for ordered ones; 0 where there is none.
pub open spec fn marker_len(toks: Seq<(Token, Position)>, j: int, ordered: bool) -> int {
    if !ordered && token_at(toks, j) == Token::Dash {
        1
    } else if ordered && starts_number(toks, j) {
        2
    } else {
        0
    }
}

/// The items of a list whose first marker is at `j`, and where it ends.
pub open spec fn list_items(toks: Seq<(Token, Position)>, j: int, ordered: bool) -> (
    Seq<Seq<char>>,
    int,
)
    decreases toks.len() - j,
{
    let c = j + marker_len(toks, j, ordered);
    let item = rest_of_line(toks, c);
    let e = line_end(toks, skip_ws(toks, c));
    if j < e + 1 <= toks.len() && token_at(toks, e) == Token::Newline && marker_len(
        toks,
        e + 1,
        ordered,
    ) > 0 {
        (seq![item] + list_items(toks, e + 1, ordered).0, list_items(toks, e + 1, ordered).1)
    } else {
        (seq![item], e)
    }
}

pub open spec fn list_at(toks: Seq<(Token, Position)>, j: int, ordered: bool) -> (BlockView, int) {
    let items = list_items(toks, j, ordered);
    if ordered {
        (BlockView::OrderedList(ContentView::List(items.0)), items.1)
    } else {
        (BlockView::UnorderedList(ContentView::List(items.0)), items.1)
    }
}

fn is_link_token(t: &Token) -> (r: bool)
    ensures
        r == (*t != Token::RSquareBracket && *t != Token::Newline && *t != Token::Eof),
{
    !matches!(t, Token::RSquareBracket | Token::Newline | Token::Eof)
}

fn is_word_token(t: &Token) -> (r: bool)
    ensures
        r == (!is_ws(*t) && *t != Token::RSquareBracket && *t != Token::Newline && *t
            != Token::Eof),
{
    !matches!(t, Token::Whitespace(_) | Token::RSquareBracket | Token::Newline | Token::Eof)
}

fn is_backtick(t: &Token) -> (r: bool)
    ensures
        r == (*t == Token::Backtick),
{
    matches!(t, Token::Backtick)
}

impl Reader {
    /// The end of `[a, b)` without its trailing whitespace.
    fn trim_end(&self, a: usize, b: usize) -> (e: usize)
        requires
            a <= b <= self.tokens().len(),
        ensures
            e == trim_end(self.tokens(), a as int, b as int),
            a <= e <= b,
    {
        let mut k = b;
        while k > a && matches!(self.doc[k - 1].0, Token::Whitespace(_))
            invariant
                a <= k <= b <= self.doc@.len(),
                trim_end(self.doc@, a as int, k as int) == trim_end(
                    self.doc@,
                    a as int,
                    b as int,
                ),
            decreases k,
        {
            k = k - 1;
        }
        k
    }

    /// Reads the current line as plain text.
    pub fn text_line(&mut self) -> (b: Block)
        requires
            old(self).offset() <= old(self).tokens().len(),
        ensures
            final(self).tokens() == old(self).tokens(),
            final(self).offset() == text_at(old(self).tokens(), old(self).offset()).1,
            b@ == text_at(old(self).tokens(), old(self).offset()).0,
    {
        Block::Text(Content::Text(self.get_same_line_text()))
    }

    /// Reads a link `[target label]`: the target is the first word between
    /// the brackets and the label, if any, the rest without surrounding
    /// whitespace. Without both brackets on the line, the line is kept as
    /// text and an error is given.
    pub fn link(&mut self) -> (r: (Block, Option<ParseError>))
        requires
            old(self).offset() < old(self).tokens().len(),
        ensures
            final(self).tokens() == old(self).tokens(),
            final(self).offset() == link_at(old(self).tokens(), old(self).offset()).2,
            r.0@ == link_at(old(self).tokens(), old(self).offset()).0,
            r.1 is Some == link_at(old(self).tokens(), old(self).offset()).1 is Some,
            r.1 matches Some(e) ==> Some(e@) == link_at(old(self).tokens(), old(self).offset()).1,
    {
        let ghost toks = self.doc@;
        let start = self.off;
        let pos = self.position();
        if self.token() == Token::LSquareBracket {
            self.advance_by(1);
            proof {
                lemma_run_end_bounds(toks, start + 1, link_pred());
            }
            let _ = self.get_while(is_link_token, Ghost(link_pred()));
            let r = self.off;
            if self.token() == Token::RSquareBracket {
                self.off = start + 1;
                proof {
                    lemma_run_end_stops(toks, start + 1, r as int, ws_pred());
                }
                self.skip_whitespace();
                let a = self.off;
                proof {
                    lemma_run_end_stops(toks, a as int, r as int, word_pred());
                    lemma_run_end_bounds(toks, a as int, word_pred());
                }
                let _ = self.get_while(is_word_token, Ghost(word_pred()));
                let b = self.off;
                proof {
                    lemma_run_end_stops(toks, b as int, r as int, ws_pred());
                }
                self.skip_whitespace();
                let c = self.off;
                let target = self.text_between(a, b);
                let label = if c < r {
                    let te = self.trim_end(c, r);
                    let l = Content::Text(self.text_between(c, te));
                    assert(l@ == ContentView::Text(text(toks, c as int, trim_end(toks, c as int, r as int))));
                    Some(Box::new(l))
                } else {
                    None
                };
                let ghost lv: Option<Box<ContentView>> = if c < r {
                    Some(Box::new(ContentView::Text(text(toks, c as int, trim_end(toks, c as int, r as int)))))
                } else {
                    None
                };
                let content = Content::LinkRef(label, target);
                assert(content@ == ContentView::LinkRef(lv, text(toks, a as int, b as int)));
                self.off = r;
                self.advance_by(1);
                return (Block::Link(content), None);
            }
        }
        self.off = start;
        let line = self.text_line();
        (line, Some(ParseError::new("unterminated link".to_owned(), pos)))
    }
}


fn is_digit_token(t: Token) -> (r: bool)
    ensures
        r == (t matches Token::Char(d) && is_digit(d)),
{
    match t {
        Token::Char(d) => '0' <= d && d <= '9',
        _ => false,
    }
}

impl Reader {
    /// Reads a fenced code block: the opening backticks, the language named
    /// after them, and the lines up to one that starts with a backtick, which
    /// closes it; the line break just before that line is not part of the
    /// body. Without that line the body runs to the end of input and an error
    /// is given there.
    pub fn code_block(&mut self) -> (r: (Block, Option<ParseError>))
        requires
            old(self).offset() <= old(self).tokens().len(),
        ensures
            final(self).tokens() == old(self).tokens(),
            final(self).offset() == code_at(old(self).tokens(), old(self).offset()).2,
            r.0@ == code_at(old(self).tokens(), old(self).offset()).0,
            r.1 is Some == code_at(old(self).tokens(), old(self).offset()).1 is Some,
            r.1 matches Some(e) ==> Some(e@) == code_at(old(self).tokens(), old(self).offset()).1,
    {
        let ghost toks = self.doc@;
        proof {
            lemma_run_end_bounds(toks, self.off as int, backtick_pred());
        }
        let _ = self.get_while(is_backtick, Ghost(backtick_pred()));
        let lang = self.rest_of_line();
        let le = self.off;
        if self.token() != Token::Newline {
            let e = ParseError::new("unterminated code block".to_owned(), self.position());
            return (Block::Code(lang, String::new()), Some(e));
        }
        self.advance_by(1);
        let start = self.off;
        let mut at_start = true;
        while self.off < self.doc.len() && !matches!(self.doc[self.off].0, Token::Eof) && !(
        at_start && matches!(self.doc[self.off].0, Token::Backtick))
            invariant
                self.doc@ == toks,
                start <= self.off <= self.doc@.len(),
                fence_close(toks, start as int, true) == fence_close(
                    toks,
                    self.off as int,
                    at_start,
                ),
            decreases self.doc@.len() - self.off,
        {
            at_start = matches!(self.doc[self.off].0, Token::Newline);
            self.off = self.off + 1;
        }
        let c = self.off;
        if self.token() == Token::Backtick {
            let body_end = if c > start {
                c - 1
            } else {
                start
            };
            let body = self.text_between(start, body_end);
            proof {
                lemma_run_end_bounds(toks, c as int, line_pred());
            }
            let _ = self.get_same_line_text();
            (Block::Code(lang, body), None)
        } else {
            let body = self.text_between(start, c);
            let e = ParseError::new("unterminated code block".to_owned(), self.position());
            (Block::Code(lang, body), Some(e))
        }
    }

    /// Whether a list marker starts at the current token.
    fn at_marker(&self, ordered: bool) -> (r: bool)
        ensures
            r == (marker_len(self.tokens(), self.offset(), ordered) > 0),
    {
        if ordered {
            is_digit_token(self.token()) && self.peek() == Token::Char('.')
        } else {
            self.token() == Token::Dash
        }
    }

    /// Reads a list: one item per line while lines start with the same kind
    /// of marker (`-`, or a digit and `.`); each item is the text after its
    /// marker.
    pub fn list(&mut self, ordered: bool) -> (b: Block)
        requires
            old(self).offset() <= old(self).tokens().len(),
            marker_len(old(self).tokens(), old(self).offset(), ordered) > 0,
        ensures
            final(self).tokens() == old(self).tokens(),
            final(self).offset() == list_at(old(self).tokens(), old(self).offset(), ordered).1,
            b@ == list_at(old(self).tokens(), old(self).offset(), ordered).0,
    {
        let ghost toks = self.doc@;
        let ghost j0 = self.off as int;
        let mut items: Vec<String> = Vec::new();
        loop
            invariant_except_break
                marker_len(toks, self.off as int, ordered) > 0,
                list_items(toks, j0, ordered) == (
                    items.deep_view() + list_items(toks, self.off as int, ordered).0,
                    list_items(toks, self.off as int, ordered).1,
                ),
            invariant
                self.doc@ == toks,
                self.off <= self.doc@.len(),
            ensures
                items.deep_view() == list_items(toks, j0, ordered).0,
                self.off == list_items(toks, j0, ordered).1,
            decreases self.doc@.len() - self.off,
        {
            let j = self.off;
            let m: usize = if ordered {
                2
            } else {
                1
            };
            self.advance_by(m);
            let item = self.rest_of_line();
            let e = self.off;
            let ghost rest = list_items(toks, j as int, ordered);
            let ghost iv = item@;
            let ghost before = items.deep_view();
            items.push(item);
            assert(items.deep_view() =~= before.push(iv));
            if e < self.doc.len() && self.token() == Token::Newline && j < e + 1 {
                self.advance_by(1);
                if self.at_marker(ordered) {
                    assert(list_items(toks, j0, ordered).0 =~= items.deep_view() + list_items(
                        toks,
                        self.off as int,
                        ordered,
                    ).0);
                    continue ;
                }
                self.off = e;
            }
            assert(list_items(toks, j0, ordered).0 =~= items.deep_view());
            break ;
        }
        if ordered {
            Block::OrderedList(Content::List(items))
        } else {
            Block::UnorderedList(Content::List(items))
        }
    }
}


/// Tokens inside a table's braces.
pub open spec fn body_pred() -> spec_fn(Token) -> bool {
    |t: Token| t != Token::RCurlyBracket && t != Token::Eof
}

/// Tokens of one table row.
pub open spec fn row_pred() -> spec_fn(Token) -> bool {
    |t: Token| t != Token::Newline && t != Token::RCurlyBracket && t != Token::Eof
}

/// Length of the table opening after the `#` at `i`: `,{` or `||{`; 0 where
/// there is none.
pub open spec fn table_open(toks: Seq<(Token, Position)>, i: int) -> int {
    if token_at(toks, i + 1) == Token::Char(',') && token_at(toks, i + 2) == Token::LCurlyBracket {
        3
    } else if token_at(toks, i + 1) == Token::Pipe && token_at(toks, i + 2) == Token::Pipe
        && token_at(toks, i + 3) == Token::LCurlyBracket {
        4
    } else {
        0
    }
}

/// Length of the cell delimiter at `k`: `,`, or `||` when `pipes`.
pub open spec fn delim_len(toks: Seq<(Token, Position)>, k: int, pipes: bool) -> int {
    if !pipes && token_at(toks, k) == Token::Char(',') {
        1
    } else if pipes && token_at(toks, k) == Token::Pipe && token_at(toks, k + 1) == Token::Pipe {
        2
    } else {
        0
    }
}

/// Text of `[s, e)` without surrounding whitespace.
pub open spec fn trimmed(toks: Seq<(Token, Position)>, s: int, e: int) -> Seq<char> {
    let a = skip_ws(toks, s);
    if a >= e {
        Seq::empty()
    } else {
        text(toks, a, trim_end(toks, a, e))
    }
}

/// The cells of the row `[s, e)` from the cell that starts at `s`, scanning
/// from `k`.
pub open spec fn cells(toks: Seq<(Token, Position)>, s: int, k: int, e: int, pipes: bool) -> Seq<
    Seq<char>,
>
    decreases e - k,
{
    if k >= e {
        seq![trimmed(toks, s, e)]
    } else if delim_len(toks, k, pipes) > 0 && k + delim_len(toks, k, pipes) <= e {
        seq![trimmed(toks, s, k)] + cells(
            toks,
            k + delim_len(toks, k, pipes),
            k + delim_len(toks, k, pipes),
            e,
            pipes,
        )
    } else {
        cells(toks, s, k + 1, e, pipes)
    }
}

/// The rows of a table body from `s` up to `cl`; blank lines give no row.
pub open spec fn rows(toks: Seq<(Token, Position)>, s: int, cl: int, pipes: bool) -> Seq<
    Seq<Seq<char>>,
>
    decreases cl - s,
{
    let re = run_end(toks, s, row_pred());
    let here = if skip_ws(toks, s) >= re {
        Seq::empty()
    } else {
        seq![cells(toks, s, s, re, pipes)]
    };
    if s <= re < cl {
        here + rows(toks, re + 1, cl, pipes)
    } else {
        here
    }
}

/// Every row has as many cells as the first.
pub open spec fn uniform(rs: Seq<Seq<Seq<char>>>) -> bool {
    forall|k: int| 0 <= k < rs.len() ==> #[trigger] rs[k].len() == rs[0].len()
}

pub open spec fn unterminated_table() -> Seq<char> {
    "unterminated table"@
}

pub open spec fn ragged_table() -> Seq<char> {
    "table rows differ in length"@
}

/// The number of cells in the longest row.
pub open spec fn width(rs: Seq<Seq<Seq<char>>>) -> nat
    decreases rs.len(),
{
    if rs.len() == 0 {
        0
    } else if rs.last().len() > width(rs.drop_last()) {
        rs.last().len()
    } else {
        width(rs.drop_last())
    }
}

/// A row filled up with empty cells to `w` cells.
pub open spec fn pad(row: Seq<Seq<char>>, w: nat) -> Seq<Seq<char>> {
    if row.len() >= w {
        row
    } else {
        row + Seq::new((w - row.len()) as nat, |_k: int| Seq::<char>::empty())
    }
}

/// Every row filled up to the width of the longest.
pub open spec fn padded(rs: Seq<Seq<Seq<char>>>) -> Seq<Seq<Seq<char>>> {
    rs.map_values(|r: Seq<Seq<char>>| pad(r, width(rs)))
}

proof fn lemma_width_bounds(rs: Seq<Seq<Seq<char>>>)
    ensures
        forall|k: int| 0 <= k < rs.len() ==> #[trigger] rs[k].len() <= width(rs),
    decreases rs.len(),
{
    if rs.len() > 0 {
        lemma_width_bounds(rs.drop_last());
        assert forall|k: int| 0 <= k < rs.len() implies #[trigger] rs[k].len() <= width(rs) by {
            if k < rs.len() - 1 {
                assert(rs[k] == rs.drop_last()[k]);
            }
        }
    }
}

/// Once filled up, all rows of a table have the same number of cells.
pub proof fn lemma_padded_uniform(rs: Seq<Seq<Seq<char>>>)
    ensures
        uniform(padded(rs)),
        forall|k: int| 0 <= k < rs.len() ==> #[trigger] padded(rs)[k].len() == width(rs),
{
    lemma_width_bounds(rs);
    assert forall|k: int| 0 <= k < rs.len() implies #[trigger] padded(rs)[k].len() == width(rs) by {
        assert(rs[k].len() <= width(rs));
    }
}

/// A table at `i`: `#,{` or `#||{`, rows up to `}`; short rows are filled up
/// with empty cells.
pub open spec fn table_at(toks: Seq<(Token, Position)>, i: int) -> (
    BlockView,
    Option<(Seq<char>, Position)>,
    int,
) {
    let pipes = table_open(toks, i) == 4;
    let b = i + table_open(toks, i);
    let cl = run_end(toks, b, body_pred());
    let rs = rows(toks, b, cl, pipes);
    let block = BlockView::Text(ContentView::Table(padded(rs)));
    if token_at(toks, cl) != Token::RCurlyBracket {
        (block, Some((unterminated_table(), position_at(toks, cl))), cl)
    } else if !uniform(rs) {
        (block, Some((ragged_table(), position_at(toks, i))), cl + 1)
    } else {
        (block, None, cl + 1)
    }
}

/// Fills each row up with empty cells to the length of the longest.
fn pad_rows(rs: Vec<Vec<String>>) -> (r: Vec<Vec<String>>)
    ensures
        r.deep_view() == padded(rs.deep_view()),
{
    let ghost rv = rs.deep_view();
    let n = rs.len();
    let mut w: usize = 0;
    let mut k: usize = 0;
    while k < n
        invariant
            n == rs.len(),
            rv == rs.deep_view(),
            k <= n,
            w == width(rv.subrange(0, k as int)),
        decreases n - k,
    {
        assert(rv.subrange(0, k + 1).drop_last() =~= rv.subrange(0, k as int));
        assert(rv[k as int].len() == rs@[k as int].len());
        if rs[k].len() > w {
            w = rs[k].len();
        }
        k = k + 1;
    }
    assert(rv.subrange(0, n as int) =~= rv);
    let mut src = rs;
    let mut out: Vec<Vec<String>> = Vec::new();
    while out.len() < n
        invariant
            n == rv.len(),
            w == width(rv),
            out.len() <= n,
            src.deep_view() == rv.subrange(out.len() as int, n as int),
            out.deep_view() == rv.subrange(0, out.len() as int).map_values(
                |r: Seq<Seq<char>>| pad(r, width(rv)),
            ),
        decreases n - out.len(),
    {
        let ghost k0 = out.len() as int;
        let ghost sv = src.deep_view();
        let ghost sold = src@;
        assert(sv.len() == sold.len());
        let mut row = src.remove(0);
        assert(row == sold[0]);
        assert(sv[0] == sold[0].deep_view());
        assert(src.deep_view() =~= sv.subrange(1, sv.len() as int));
        let ghost orig = row.deep_view();
        assert(orig == rv[k0]);
        while row.len() < w
            invariant
                orig.len() <= row.len() <= if orig.len() >= w {
                    orig.len()
                } else {
                    w as nat
                },
                row.deep_view() == orig + Seq::new(
                    (row.len() - orig.len()) as nat,
                    |_k: int| Seq::<char>::empty(),
                ),
            decreases w - row.len(),
        {
            let ghost before = row.deep_view();
            let e = String::new();
            row.push(e);
            assert(row.deep_view() =~= before.push(Seq::<char>::empty()));
            assert(row.deep_view() =~= orig + Seq::new(
                (row.len() - orig.len()) as nat,
                |_k: int| Seq::<char>::empty(),
            ));
        }
        assert(row.deep_view() =~= pad(orig, w as nat));
        let ghost ov = out.deep_view();
        let ghost padded_row = row.deep_view();
        out.push(row);
        assert(out.deep_view() =~= ov.push(padded_row));
        assert(padded_row == pad(rv[k0], width(rv)));
        assert(out.deep_view() =~= rv.subrange(0, k0 + 1).map_values(
            |r: Seq<Seq<char>>| pad(r, width(rv)),
        ));
    }
    assert(rv.subrange(0, n as int) =~= rv);
    out
}

fn is_body_token(t: &Token) -> (r: bool)
    ensures
        r == (*t != Token::RCurlyBracket && *t != Token::Eof),
{
    !matches!(t, Token::RCurlyBracket | Token::Eof)
}

fn is_row_token(t: &Token) -> (r: bool)
    ensures
        r == (*t != Token::Newline && *t != Token::RCurlyBracket && *t != Token::Eof),
{
    !matches!(t, Token::Newline | Token::RCurlyBracket | Token::Eof)
}

impl Reader {
    fn delim_len(&self, k: usize, pipes: bool) -> (n: usize)
        ensures
            n == delim_len(self.tokens(), k as int, pipes),
    {
        if !pipes && self.nth_token(k) == Token::Char(',') {
            1
        } else if pipes && k < self.doc.len() && self.nth_token(k) == Token::Pipe
            && self.nth_token(k + 1) == Token::Pipe {
            2
        } else {
            0
        }
    }

    fn trimmed(&mut self, s: usize, e: usize) -> (r: String)
        requires
            s <= e <= old(self).tokens().len(),
        ensures
            final(self).tokens() == old(self).tokens(),
            r@ == trimmed(old(self).tokens(), s as int, e as int),
    {
        let saved = self.off;
        self.off = s;
        proof {
            lemma_run_end_bounds(self.doc@, s as int, ws_pred());
        }
        self.skip_whitespace();
        let a = self.off;
        self.off = saved;
        if a >= e {
            String::new()
        } else {
            let te = self.trim_end(a, e);
            self.text_between(a, te)
        }
    }

    /// The cells of the row `[s, e)`.
    fn cells(&mut self, s: usize, e: usize, pipes: bool) -> (r: Vec<String>)
        requires
            s <= e <= old(self).tokens().len(),
        ensures
            final(self).tokens() == old(self).tokens(),
            r.deep_view() == cells(old(self).tokens(), s as int, s as int, e as int, pipes),
    {
        let ghost toks = self.doc@;
        let mut acc: Vec<String> = Vec::new();
        let mut start = s;
        let mut k = s;
        while k < e
            invariant
                self.doc@ == toks,
                s <= start <= k <= e <= toks.len(),
                cells(toks, s as int, s as int, e as int, pipes) == acc.deep_view() + cells(
                    toks,
                    start as int,
                    k as int,
                    e as int,
                    pipes,
                ),
            decreases e - k,
        {
            let dl = self.delim_len(k, pipes);
            if dl > 0 && dl <= e - k {
                let cell = self.trimmed(start, k);
                let ghost before = acc.deep_view();
                acc.push(cell);
                assert(acc.deep_view() =~= before.push(cell@));
                k = k + dl;
                start = k;
                assert(cells(toks, s as int, s as int, e as int, pipes) =~= acc.deep_view() + cells(
                    toks,
                    start as int,
                    k as int,
                    e as int,
                    pipes,
                ));
            } else {
                k = k + 1;
            }
        }
        let cell = self.trimmed(start, e);
        let ghost before = acc.deep_view();
        acc.push(cell);
        assert(acc.deep_view() =~= before.push(cell@));
        assert(cells(toks, s as int, s as int, e as int, pipes) =~= acc.deep_view());
        acc
    }

    /// Reads a table: `#,{` with cells split by `,`, or `#||{` with cells
    /// split by `||`; one row per non-blank line up to `}`, each cell without
    /// surrounding whitespace. A missing `}` or rows of different lengths
    /// give an error; the table is kept either way.
    pub fn table(&mut self) -> (r: (Block, Option<ParseError>))
        requires
            old(self).offset() <= old(self).tokens().len(),
            table_open(old(self).tokens(), old(self).offset()) > 0,
        ensures
            final(self).tokens() == old(self).tokens(),
            final(self).offset() == table_at(old(self).tokens(), old(self).offset()).2,
            r.0@ == table_at(old(self).tokens(), old(self).offset()).0,
            r.1 is Some == table_at(old(self).tokens(), old(self).offset()).1 is Some,
            r.1 matches Some(e) ==> Some(e@) == table_at(old(self).tokens(), old(self).offset()).1,
    {
        let ghost toks = self.doc@;
        let i = self.off;
        let open_pos = self.position();
        let pipes = self.peek() == Token::Pipe;
        let n: usize = if pipes {
            4
        } else {
            3
        };
        self.advance_by(n);
        let b = self.off;
        proof {
            lemma_run_end_bounds(toks, b as int, body_pred());
        }
        let _ = self.get_while(is_body_token, Ghost(body_pred()));
        let cl = self.off;
        let mut rs: Vec<Vec<String>> = Vec::new();
        let mut s = b;
        loop
            invariant_except_break
                b <= s <= cl,
                rows(toks, b as int, cl as int, pipes) == rs.deep_view() + rows(
                    toks,
                    s as int,
                    cl as int,
                    pipes,
                ),
            invariant
                self.doc@ == toks,
                cl <= toks.len(),
                cl == run_end(toks, b as int, body_pred()),
            ensures
                rows(toks, b as int, cl as int, pipes) == rs.deep_view(),
            decreases cl - s,
        {
            self.off = s;
            proof {
                lemma_run_end_bounds(toks, s as int, row_pred());
                lemma_run_end_bounds(toks, s as int, ws_pred());
            }
            let _ = self.get_while(is_row_token, Ghost(row_pred()));
            let re = self.off;
            self.off = s;
            self.skip_whitespace();
            let blank = self.off >= re;
            let ghost before = rs.deep_view();
            if !blank {
                let row = self.cells(s, re, pipes);
                let ghost rv = row.deep_view();
                rs.push(row);
                assert(rs.deep_view() =~= before.push(rv));
            }
            if s <= re && re < cl {
                s = re + 1;
                assert(rows(toks, b as int, cl as int, pipes) =~= rs.deep_view() + rows(
                    toks,
                    s as int,
                    cl as int,
                    pipes,
                ));
            } else {
                assert(rows(toks, b as int, cl as int, pipes) =~= rs.deep_view());
                break ;
            }
        }
        self.off = cl;
        let ghost rv = rs.deep_view();
        let closed = self.token() == Token::RCurlyBracket;
        let mut same = true;
        if rs.len() > 0 {
            let width = rs[0].len();
            let mut k: usize = 0;
            while k < rs.len()
                invariant
                    0 <= k <= rs.len(),
                    rs.len() > 0,
                    rv == rs.deep_view(),
                    width == rs@[0].len(),
                    same == forall|q: int| 0 <= q < k ==> #[trigger] rv[q].len() == rv[0].len(),
                decreases rs.len() - k,
            {
                assert(rv[k as int].len() == rs@[k as int].len());
                if rs[k].len() != width {
                    same = false;
                }
                k = k + 1;
            }
        }
        let rs = pad_rows(rs);
        let table = Block::Text(Content::Table(rs));
        if !closed {
            (table, Some(ParseError::new("unterminated table".to_owned(), self.position())))
        } else {
            self.advance_by(1);
            if !same {
                (table, Some(ParseError::new("table rows differ in length".to_owned(), open_pos)))
            } else {
                (table, None)
            }
        }
    }
}


/// The view of an optional error.
pub open spec fn err_view(e: Option<ParseError>) -> Option<(Seq<char>, Position)> {
    match e {
        Some(x) => Some(x@),
        None => None,
    }
}

pub open spec fn opt_seq(e: Option<(Seq<char>, Position)>) -> Seq<(Seq<char>, Position)> {
    match e {
        Some(x) => seq![x],
        None => Seq::empty(),
    }
}

/// The block that starts at `w`, chosen by its first token.
pub open spec fn block_at(toks: Seq<(Token, Position)>, w: int) -> (
    BlockView,
    Option<(Seq<char>, Position)>,
    int,
) {
    let t = token_at(toks, w);
    if t == Token::NumberSign {
        if table_open(toks, w) > 0 {
            table_at(toks, w)
        } else {
            header_at(toks, w)
        }
    } else if t == Token::Equal && token_at(toks, w + 1) == Token::NumberSign {
        (title_at(toks, w).0, None, title_at(toks, w).1)
    } else if t == Token::Backtick {
        code_at(toks, w)
    } else if t == Token::Pipe {
        (quote_at(toks, w).0, None, quote_at(toks, w).1)
    } else if t == Token::Dash {
        (list_at(toks, w, false).0, None, list_at(toks, w, false).1)
    } else if starts_number(toks, w) {
        (list_at(toks, w, true).0, None, list_at(toks, w, true).1)
    } else if t == Token::LSquareBracket {
        link_at(toks, w)
    } else {
        (text_at(toks, w).0, None, text_at(toks, w).1)
    }
}

/// Where the line read from `i` starts: past a line break at `i`, then past
/// blanks.
pub open spec fn line_start(toks: Seq<(Token, Position)>, i: int) -> int {
    skip_ws(
        toks,
        if token_at(toks, i) == Token::Newline {
            i + 1
        } else {
            i
        },
    )
}

/// The block of the line read from `i`; a blank line gives empty text.
pub open spec fn newline_block_at(toks: Seq<(Token, Position)>, i: int) -> (
    BlockView,
    Option<(Seq<char>, Position)>,
    int,
) {
    let w = line_start(toks, i);
    let t = token_at(toks, w);
    if t == Token::Newline || t == Token::Eof {
        (BlockView::Text(ContentView::Text(Seq::empty())), None, w)
    } else {
        block_at(toks, w)
    }
}

/// The nodes and errors of the document from `i` on: blank lines give
/// nothing, and each other line starts a block at its first non-blank token,
/// whose text is then read for spans.
pub open spec fn doc_at(toks: Seq<(Token, Position)>, i: int) -> (
    Seq<NodeView>,
    Seq<(Seq<char>, Position)>,
)
    decreases toks.len() - i
    via doc_at_decreases
{
    if i < 0 || i >= toks.len() || toks[i].0 == Token::Eof {
        (Seq::empty(), Seq::empty())
    } else if toks[i].0 == Token::Newline {
        doc_at(toks, i + 1)
    } else {
        let w = skip_ws(toks, i);
        let t = token_at(toks, w);
        if t == Token::Newline || t == Token::Eof {
            doc_at(toks, w)
        } else {
            let r = block_at(toks, w);
            let il = inline_at(toks, r.0, r.2);
            (il.0 + doc_at(toks, r.2).0, opt_seq(r.1) + il.1 + doc_at(toks, r.2).1)
        }
    }
}

#[via_fn]
proof fn doc_at_decreases(toks: Seq<(Token, Position)>, i: int) {
    if !(i < 0 || i >= toks.len() || toks[i].0 == Token::Eof) && toks[i].0 != Token::Newline {
        lemma_run_end_bounds(toks, i, ws_pred());
        let w = skip_ws(toks, i);
        let t = token_at(toks, w);
        if !(t == Token::Newline || t == Token::Eof) {
            lemma_block_progress(toks, w);
        }
    }
}

pub open spec fn errors_of(es: Seq<ParseError>) -> Seq<(Seq<char>, Position)> {
    es.map_values(|e: ParseError| e@)
}

impl Reader {
    /// Reads the block that begins at the current token, which is the first
    /// non-blank token of a line.
    fn block_start(&mut self) -> (r: (Block, Option<ParseError>))
        requires
            old(self).offset() <= old(self).tokens().len(),
        ensures
            final(self).tokens() == old(self).tokens(),
            final(self).offset() == block_at(old(self).tokens(), old(self).offset()).2,
            r.0@ == block_at(old(self).tokens(), old(self).offset()).0,
            err_view(r.1) == block_at(old(self).tokens(), old(self).offset()).1,
    {
        let t = self.token();
        if t == Token::NumberSign {
            let pipes = self.peek() == Token::Pipe;
            if (self.peek() == Token::Char(',') && self.peek_by(2) == Token::LCurlyBracket) || (
            pipes && self.peek_by(2) == Token::Pipe && self.peek_by(3) == Token::LCurlyBracket) {
                self.table()
            } else {
                self.header()
            }
        } else if t == Token::Equal && self.peek() == Token::NumberSign {
            (self.title(), None)
        } else if t == Token::Backtick {
            self.code_block()
        } else if t == Token::Pipe {
            (self.quote(), None)
        } else if t == Token::Dash {
            (self.list(false), None)
        } else if self.at_marker(true) {
            (self.list(true), None)
        } else if t == Token::LSquareBracket {
            self.link()
        } else {
            (self.text_line(), None)
        }
    }

    /// Reads the line that the cursor starts: a line break under the cursor is
    /// stepped over, then the line's leading blanks, and the block is chosen
    /// by the first token after them. A blank line gives an empty text block.
    pub fn block_on_newline(&mut self) -> (r: (Block, Option<ParseError>))
        requires
            old(self).offset() <= old(self).tokens().len(),
        ensures
            final(self).tokens() == old(self).tokens(),
            final(self).offset() == newline_block_at(old(self).tokens(), old(self).offset()).2,
            r.0@ == newline_block_at(old(self).tokens(), old(self).offset()).0,
            err_view(r.1) == newline_block_at(old(self).tokens(), old(self).offset()).1,
    {
        if self.token() == Token::Newline {
            self.advance_by(1);
        }
        self.skip_whitespace();
        let t = self.token();
        if t == Token::Newline || t == Token::Eof {
            return (Block::Text(Content::Text(String::new())), None);
        }
        self.block_start()
    }

    /// Parses the document from the current token to the end of input: the
    /// root node holds one child per block, in order, and the errors come in
    /// the order they were found. Parsing always completes.
    pub fn parse(&mut self) -> (r: (Node, Vec<ParseError>))
        requires
            old(self).offset() <= old(self).tokens().len(),
        ensures
            final(self).tokens() == old(self).tokens(),
            r.0.block is Root,
            nodes_view(r.0.node@) == doc_at(old(self).tokens(), old(self).offset()).0,
            errors_of(r.1@) == doc_at(old(self).tokens(), old(self).offset()).1,
            token_at(final(self).tokens(), final(self).offset()) == Token::Eof,
    {
        let ghost toks = self.doc@;
        let ghost i0 = self.off as int;
        let mut nodes: Vec<Node> = Vec::new();
        let mut errors: Vec<ParseError> = Vec::new();
        loop
            invariant_except_break
                doc_at(toks, i0) == (
                    nodes_view(nodes@) + doc_at(toks, self.off as int).0,
                    errors_of(errors@) + doc_at(toks, self.off as int).1,
                ),
            invariant
                self.doc@ == toks,
                self.off <= toks.len(),
            ensures
                doc_at(toks, i0) == (nodes_view(nodes@), errors_of(errors@)),
                token_at(toks, self.off as int) == Token::Eof,
            decreases toks.len() - self.off,
        {
            let i = self.off;
            let t = self.token();
            if t == Token::Eof {
                assert(nodes_view(nodes@) + doc_at(toks, i as int).0 =~= nodes_view(nodes@));
                assert(errors_of(errors@) + doc_at(toks, i as int).1 =~= errors_of(errors@));
                break ;
            }
            if t == Token::Newline {
                self.advance_by(1);
                continue ;
            }
            proof {
                lemma_run_end_bounds(toks, i as int, ws_pred());
            }
            self.skip_whitespace();
            let w = self.off;
            let tw = self.token();
            if tw == Token::Newline || tw == Token::Eof {
                continue ;
            }
            proof {
                lemma_block_progress(toks, w as int);
            }
            let (b, e) = self.block_start();
            let j = self.off;
            let ghost ev = err_view(e);
            let ghost nb = nodes_view(nodes@);
            let ghost eb = errors_of(errors@);
            let (mut more, mut span_errs) = self.inline_block(b, j);
            let ghost mv = nodes_view(more@);
            let ghost sv = errors_of(span_errs@);
            nodes.append(&mut more);
            assert(nodes_view(nodes@) =~= nb + mv);
            match e {
                Some(x) => {
                    errors.push(x);
                    assert(errors_of(errors@) =~= eb.push(ev->0));
                },
                None => {},
            }
            assert(errors_of(errors@) =~= eb + opt_seq(ev));
            let ghost eb2 = errors_of(errors@);
            errors.append(&mut span_errs);
            assert(errors_of(errors@) =~= eb2 + sv);
            assert(doc_at(toks, i0).0 =~= nodes_view(nodes@) + doc_at(toks, j as int).0);
            assert(doc_at(toks, i0).1 =~= errors_of(errors@) + doc_at(toks, j as int).1);
        }
        let root = Node { node: nodes, block: Block::Root };
        (root, errors)
    }
}


proof fn lemma_fence_close_bounds(toks: Seq<(Token, Position)>, j: int, at_start: bool)
    requires
        0 <= j <= toks.len(),
    ensures
        j <= fence_close(toks, j, at_start) <= toks.len(),
    decreases toks.len() - j,
{
    if j < toks.len() && toks[j].0 != Token::Eof && !(at_start && toks[j].0 == Token::Backtick) {
        lemma_fence_close_bounds(toks, j + 1, toks[j].0 == Token::Newline);
    }
}

proof fn lemma_rest_bounds(toks: Seq<(Token, Position)>, i: int)
    requires
        0 <= i <= toks.len(),
    ensures
        i <= skip_ws(toks, i) <= line_end(toks, skip_ws(toks, i)) <= toks.len(),
{
    lemma_run_end_bounds(toks, i, ws_pred());
    lemma_run_end_bounds(toks, skip_ws(toks, i), line_pred());
}

proof fn lemma_list_progress(toks: Seq<(Token, Position)>, j: int, ordered: bool)
    requires
        0 <= j < toks.len(),
        marker_len(toks, j, ordered) > 0,
    ensures
        j < list_items(toks, j, ordered).1 <= toks.len(),
    decreases toks.len() - j,
{
    let c = j + marker_len(toks, j, ordered);
    lemma_rest_bounds(toks, c);
    let e = line_end(toks, skip_ws(toks, c));
    if j < e + 1 <= toks.len() && token_at(toks, e) == Token::Newline && marker_len(
        toks,
        e + 1,
        ordered,
    ) > 0 {
        lemma_list_progress(toks, e + 1, ordered);
    }
}

/// Every block reads at least its first token and stays within the tokens.
proof fn lemma_block_progress(toks: Seq<(Token, Position)>, w: int)
    requires
        0 <= w < toks.len(),
        toks[w].0 != Token::Newline,
        toks[w].0 != Token::Eof,
    ensures
        w < block_at(toks, w).2 <= toks.len(),
{
    let t = toks[w].0;
    lemma_run_end_bounds(toks, w, line_pred());
    if t == Token::NumberSign {
        if table_open(toks, w) > 0 {
            lemma_run_end_bounds(toks, w + table_open(toks, w), body_pred());
        } else {
            lemma_run_end_bounds(toks, w, hash_pred());
            lemma_rest_bounds(toks, run_end(toks, w, hash_pred()));
        }
    } else if t == Token::Equal && token_at(toks, w + 1) == Token::NumberSign {
        lemma_rest_bounds(toks, w + 2);
    } else if t == Token::Backtick {
        lemma_run_end_bounds(toks, w, backtick_pred());
        let r = run_end(toks, w, backtick_pred());
        lemma_rest_bounds(toks, r);
        let le = line_end(toks, skip_ws(toks, r));
        if token_at(toks, le) == Token::Newline {
            lemma_fence_close_bounds(toks, le + 1, true);
            lemma_run_end_bounds(toks, fence_close(toks, le + 1, true), line_pred());
        }
    } else if t == Token::Pipe {
        lemma_rest_bounds(toks, w + 1);
    } else if t == Token::Dash {
        lemma_list_progress(toks, w, false);
    } else if starts_number(toks, w) {
        lemma_list_progress(toks, w, true);
    } else if t == Token::LSquareBracket {
        lemma_run_end_bounds(toks, w + 1, link_pred());
    }
}


/// Appends the characters of `s` to `out`.
fn append_str(out: &mut String, s: &String)
    ensures
        final(out)@ == old(out)@ + s@,
{
    let ghost o = out@;
    let text = s.as_str();
    let n = text.unicode_len();
    let mut i: usize = 0;
    while i < n
        invariant
            n == s@.len(),
            text@ == s@,
            i <= n,
            out@ == o + s@.subrange(0, i as int),
        decreases n - i,
    {
        push_char(out, text.get_char(i));
        i = i + 1;
        assert(out@ =~= o + s@.subrange(0, i as int));
    }
    assert(s@.subrange(0, n as int) =~= s@);
}

/// Appends the text of a markup tree, without delimiters, to `out`.
fn push_plain(k: &Kind, out: &mut String)
    ensures
        final(out)@ == old(out)@ + plain(k@),
    decreases k,
{
    let ghost o = out@;
    match k {
        Kind::Str(x) => append_str(out, x),
        Kind::Bold(i) => push_plain(i, out),
        Kind::Italic(i) => push_plain(i, out),
        Kind::Concat(a, b) => {
            push_plain(a, out);
            push_plain(b, out);
            assert(out@ =~= o + plain(k@));
        },
        _ => {
            assert(out@ =~= o + plain(k@));
        },
    }
}

/// A node with the given children and block.
fn node_with(kids: Vec<Node>, b: Block) -> (n: Node)
    ensures
        node_view(n) == (NodeView { block: b@, children: nodes_view(kids@) }),
{
    let n = Node { node: kids, block: b };
    assert(node_view(n).children =~= nodes_view(kids@));
    n
}

/// A node without children.
fn leaf_node(b: Block) -> (n: Node)
    ensures
        node_view(n) == leaf(b@),
{
    let kids: Vec<Node> = Vec::new();
    assert(nodes_view(kids@) =~= Seq::<NodeView>::empty());
    node_with(kids, b)
}

/// A list of one node.
fn single(n: Node) -> (v: Vec<Node>)
    ensures
        nodes_view(v@) == seq![node_view(n)],
{
    let mut v: Vec<Node> = Vec::new();
    let ghost nv = node_view(n);
    v.push(n);
    assert(nodes_view(v@) =~= seq![nv]);
    v
}

/// Appends the nodes of a markup tree to `out`.
fn push_span_nodes(k: Kind, out: &mut Vec<Node>)
    ensures
        nodes_view(final(out)@) == nodes_view(old(out)@) + span_nodes(k@),
    decreases k,
{
    let ghost o = nodes_view(out@);
    let ghost kv = k@;
    match k {
        Kind::Str(x) => {
            let n = leaf_node(Block::Text(Content::Text(x)));
            let ghost nv = node_view(n);
            out.push(n);
            assert(nodes_view(out@) =~= o.push(nv));
            assert(nodes_view(out@) =~= o + span_nodes(kv));
        },
        Kind::Bold(i) => {
            let mut text = String::new();
            push_plain(&i, &mut text);
            let mut kids: Vec<Node> = Vec::new();
            let ghost iv = (*i)@;
            if !matches!(*i, Kind::Str(_)) {
                push_span_nodes(*i, &mut kids);
                assert(nodes_view(kids@) =~= span_nodes(iv));
            } else {
                assert(nodes_view(kids@) =~= Seq::<NodeView>::empty());
            }
            let n = node_with(kids, Block::Bold(Content::Text(text)));
            out.push(n);
            assert(nodes_view(out@) =~= o + span_nodes(kv));
        },
        Kind::Italic(i) => {
            let mut text = String::new();
            push_plain(&i, &mut text);
            let mut kids: Vec<Node> = Vec::new();
            let ghost iv = (*i)@;
            if !matches!(*i, Kind::Str(_)) {
                push_span_nodes(*i, &mut kids);
                assert(nodes_view(kids@) =~= span_nodes(iv));
            } else {
                assert(nodes_view(kids@) =~= Seq::<NodeView>::empty());
            }
            let n = node_with(kids, Block::Italic(Content::Text(text)));
            out.push(n);
            assert(nodes_view(out@) =~= o + span_nodes(kv));
        },
        Kind::Concat(a, b) => {
            push_span_nodes(*a, out);
            push_span_nodes(*b, out);
            assert(nodes_view(out@) =~= o + span_nodes(kv));
        },
        _ => {
            assert(nodes_view(out@) =~= o + span_nodes(kv));
        },
    }
}

impl Reader {
    /// The position of the token at `end - n + x`, or `{0, 0}` outside the
    /// tokens.
    fn position_shifted(&self, end: usize, n: usize, x: usize) -> (p: Position)
        ensures
            p == position_at(self.tokens(), end - n + x),
    {
        let len = self.doc.len();
        if n <= end {
            let base = end - n;
            if x <= usize::MAX - base {
                self.nth_position(base + x)
            } else {
                Position { line: 0, column: 0 }
            }
        } else {
            let d = n - end;
            if x >= d {
                self.nth_position(x - d)
            } else {
                Position { line: 0, column: 0 }
            }
        }
    }

    /// The errors of the block parser for the span errors of a text of `n`
    /// characters that ends at token `end`.
    fn span_positions(&self, errs: Vec<crate::syntax::ParseError>, end: usize, n: usize) -> (r: Vec<
        ParseError,
    >)
        ensures
            errors_of(r@) == crate::spans::error_indices(errs@).map_values(
                |x: int| (unterminated_span(), position_at(self.tokens(), end - n + x)),
            ),
    {
        let mut out: Vec<ParseError> = Vec::new();
        let mut k: usize = 0;
        while k < errs.len()
            invariant
                k <= errs@.len(),
                errors_of(out@) == crate::spans::error_indices(errs@).subrange(0, k as int).map_values(
                    |x: int| (unterminated_span(), position_at(self.tokens(), end - n + x)),
                ),
            decreases errs@.len() - k,
        {
            let p = self.position_shifted(end, n, errs[k].index);
            let e = ParseError::new("unterminated span".to_owned(), p);
            let ghost before = errors_of(out@);
            let ghost ev = e@;
            assert(crate::spans::error_indices(errs@)[k as int] == errs@[k as int].index as int);
            out.push(e);
            assert(errors_of(out@) =~= before.push(ev));
            k = k + 1;
            assert(errors_of(out@) =~= crate::spans::error_indices(errs@).subrange(0, k as int).map_values(
                |x: int| (unterminated_span(), position_at(self.tokens(), end - n + x)),
            ));
        }
        assert(crate::spans::error_indices(errs@).subrange(0, k as int) =~= crate::spans::error_indices(errs@));
        out
    }

    /// Reads the text `raw`, which ends at token `end`, for spans: its text
    /// without delimiters, the nodes under it, and its errors.
    fn inline_content(&self, raw: String, end: usize) -> (r: (Content, Vec<Node>, Vec<ParseError>))
        ensures
            r.0@ == ContentView::Text(plain(spans(raw@))),
            nodes_view(r.1@) == inner_nodes(spans(raw@)),
            errors_of(r.2@) == span_errors(self.tokens(), raw@, end as int),
    {
        let n = raw.as_str().unicode_len();
        let lexer = Lexer::new(raw.as_str());
        let (k, errs) = lexer.parse_with_errors();
        let mut text = String::new();
        push_plain(&k, &mut text);
        assert(text@ =~= plain(spans(raw@)));
        let mut kids: Vec<Node> = Vec::new();
        let ghost kv = k@;
        if !matches!(k, Kind::Str(_)) {
            push_span_nodes(k, &mut kids);
            assert(nodes_view(kids@) =~= span_nodes(kv));
        } else {
            assert(nodes_view(kids@) =~= Seq::<NodeView>::empty());
        }
        let errors = self.span_positions(errs, end, n);
        (Content::Text(text), kids, errors)
    }

    /// The nodes and errors that the block `b`, ending at token `end`, gives
    /// once its text is read for spans.
    fn inline_block(&self, b: Block, end: usize) -> (r: (Vec<Node>, Vec<ParseError>))
        ensures
            nodes_view(r.0@) == inline_at(self.tokens(), b@, end as int).0,
            errors_of(r.1@) == inline_at(self.tokens(), b@, end as int).1,
    {
        let ghost bv = b@;
        match b {
            Block::Text(Content::Text(raw)) => {
                let mut out: Vec<Node> = Vec::new();
                let n = raw.as_str().unicode_len();
                let (k, errs) = Lexer::new(raw.as_str()).parse_with_errors();
                push_span_nodes(k, &mut out);
                assert(nodes_view(out@) =~= span_nodes(spans(raw@)));
                (out, self.span_positions(errs, end, n))
            },
            Block::Quote(Content::Text(raw)) => {
                let (c, kids, errs) = self.inline_content(raw, end);
                (single(node_with(kids, Block::Quote(c))), errs)
            },
            Block::Title(Content::Text(raw)) => {
                let (c, kids, errs) = self.inline_content(raw, end);
                (single(node_with(kids, Block::Title(c))), errs)
            },
            Block::H1(Content::Text(raw)) => {
                let (c, kids, errs) = self.inline_content(raw, end);
                (single(node_with(kids, Block::H1(c))), errs)
            },
            Block::H2(Content::Text(raw)) => {
                let (c, kids, errs) = self.inline_content(raw, end);
                (single(node_with(kids, Block::H2(c))), errs)
            },
            Block::H3(Content::Text(raw)) => {
                let (c, kids, errs) = self.inline_content(raw, end);
                (single(node_with(kids, Block::H3(c))), errs)
            },
            Block::H4(Content::Text(raw)) => {
                let (c, kids, errs) = self.inline_content(raw, end);
                (single(node_with(kids, Block::H4(c))), errs)
            },
            Block::H5(Content::Text(raw)) => {
                let (c, kids, errs) = self.inline_content(raw, end);
                (single(node_with(kids, Block::H5(c))), errs)
            },
            Block::H6(Content::Text(raw)) => {
                let (c, kids, errs) = self.inline_content(raw, end);
                (single(node_with(kids, Block::H6(c))), errs)
            },
            other => {
                let out = single(leaf_node(other));
                let none: Vec<ParseError> = Vec::new();
                assert(errors_of(none@) =~= inline_at(self.tokens(), bv, end as int).1);
                (out, none)
            },
        }
    }
}

} // verus!
