use typeup::lexer::{tokenize, Position};
use typeup::parser::{Block, Content, Node, ParseError};
use typeup::reader::Reader;

fn parse_text(s: &str) -> (Node, Vec<ParseError>) {
    Reader::from_text(&s.to_string()).parse()
}

fn text(s: &str) -> Content {
    Content::Text(s.to_string())
}

fn blocks(n: &Node) -> Vec<&Block> {
    n.node.iter().map(|c| &c.block).collect()
}

#[test]
fn header_level_one() {
    let mut r = Reader::new(tokenize(&"# text".to_string()));
    let (b, e) = r.header();
    assert_eq!(b, Block::H1(text("text")));
    assert!(e.is_none());
}

#[test]
fn header_level_two() {
    let mut r = Reader::new(tokenize(&"## text".to_string()));
    let (b, e) = r.header();
    assert_eq!(b, Block::H2(text("text")));
    assert!(e.is_none());
}

#[test]
fn header_level_six() {
    let (root, errors) = parse_text("###### six");
    assert_eq!(blocks(&root), vec![&Block::H6(text("six"))]);
    assert!(errors.is_empty());
}

#[test]
fn header_run_of_seven_is_an_error() {
    let mut r = Reader::new(tokenize(&"####### x".to_string()));
    let (b, e) = r.header();
    assert_eq!(b, Block::H6(text("x")));
    let e = e.unwrap();
    assert_eq!(e.message(), "invalid header format");
    assert_eq!(e.location, Position::new(1, 7));
}

#[test]
fn title_excludes_next_line() {
    let (root, errors) = parse_text("=# Title\nrest");
    assert_eq!(
        blocks(&root),
        vec![&Block::Title(text("Title")), &Block::Text(text("rest"))]
    );
    assert!(errors.is_empty());
}

#[test]
fn quote_line() {
    let (root, errors) = parse_text("| quoted text");
    assert_eq!(blocks(&root), vec![&Block::Quote(text("quoted text"))]);
    assert!(errors.is_empty());
}

#[test]
fn link_with_and_without_inner_spaces() {
    let expected = Block::Link(Content::LinkRef(None, "http://x".to_string()));
    let (a, ea) = parse_text("[http://x]");
    let (b, eb) = parse_text("[ http://x ]");
    assert_eq!(blocks(&a), vec![&expected]);
    assert_eq!(blocks(&b), vec![&expected]);
    assert!(ea.is_empty() && eb.is_empty());
}

#[test]
fn link_with_label() {
    let (root, _) = parse_text("[http://x  the site ]");
    assert_eq!(
        blocks(&root),
        vec![&Block::Link(Content::LinkRef(
            Some(Box::new(text("the site"))),
            "http://x".to_string()
        ))]
    );
}

#[test]
fn link_without_brackets_is_an_error() {
    let mut r = Reader::new(tokenize(&"http://x".to_string()));
    let (b, e) = r.link();
    assert_eq!(b, Block::Text(text("http://x")));
    let e = e.unwrap();
    assert_eq!(e.message(), "unterminated link");
    assert_eq!(e.location, Position::new(1, 1));
}

#[test]
fn link_without_closing_bracket_is_an_error() {
    let (root, errors) = parse_text("[http://x");
    assert_eq!(blocks(&root), vec![&Block::Text(text("[http://x"))]);
    assert_eq!(errors.len(), 1);
    assert_eq!(errors[0].location, Position::new(1, 1));
}

fn grid(rows: &[&[&str]]) -> Content {
    Content::Table(
        rows.iter()
            .map(|r| r.iter().map(|c| c.to_string()).collect())
            .collect(),
    )
}

#[test]
fn table_delimiters_give_the_same_grid() {
    let (a, ea) = parse_text("#,{\n a , b\nc,d \n}");
    let (b, eb) = parse_text("#||{\n a || b\nc||d \n}");
    let expected = Block::Text(grid(&[&["a", "b"], &["c", "d"]]));
    assert_eq!(blocks(&a), vec![&expected]);
    assert_eq!(blocks(&b), vec![&expected]);
    assert!(ea.is_empty() && eb.is_empty());
}

#[test]
fn table_with_rows_of_different_lengths() {
    let (root, errors) = parse_text("#,{\na,b\nc\n}");
    assert_eq!(blocks(&root), vec![&Block::Text(grid(&[&["a", "b"], &["c", ""]]))]);
    assert_eq!(errors.len(), 1);
    assert_eq!(errors[0].message(), "table rows differ in length");
    assert_eq!(errors[0].location, Position::new(1, 1));
}

#[test]
fn table_without_closing_brace() {
    let (root, errors) = parse_text("#,{\na,b");
    assert_eq!(blocks(&root), vec![&Block::Text(grid(&[&["a", "b"]]))]);
    assert_eq!(errors.len(), 1);
    assert_eq!(errors[0].message(), "unterminated table");
    assert_eq!(errors[0].location, Position::new(2, 4));
}

#[test]
fn code_block_with_language() {
    let (root, errors) = parse_text("```rust\nfn x() {}\n```\nafter");
    assert_eq!(
        blocks(&root),
        vec![
            &Block::Code("rust".to_string(), "fn x() {}".to_string()),
            &Block::Text(text("after"))
        ]
    );
    assert!(errors.is_empty());
}

#[test]
fn code_block_without_closing_fence() {
    let (root, errors) = parse_text("```\nbody");
    assert_eq!(
        blocks(&root),
        vec![&Block::Code(String::new(), "body".to_string())]
    );
    assert_eq!(errors.len(), 1);
    assert_eq!(errors[0].message(), "unterminated code block");
    assert_eq!(errors[0].location, Position::new(2, 5));
}

#[test]
fn unordered_list_lines_form_one_list() {
    let (root, errors) = parse_text("- one\n- two\n\n- three");
    assert_eq!(
        blocks(&root),
        vec![
            &Block::UnorderedList(Content::List(vec!["one".to_string(), "two".to_string()])),
            &Block::UnorderedList(Content::List(vec!["three".to_string()]))
        ]
    );
    assert!(errors.is_empty());
}

#[test]
fn ordered_list_ends_at_other_line() {
    let (root, _) = parse_text("1. a\n2. b\nplain");
    assert_eq!(
        blocks(&root),
        vec![
            &Block::OrderedList(Content::List(vec!["a".to_string(), "b".to_string()])),
            &Block::Text(text("plain"))
        ]
    );
}

#[test]
fn blank_lines_and_indent_are_skipped() {
    let (root, errors) = parse_text("\n   \n  # h\n\n");
    assert_eq!(blocks(&root), vec![&Block::H1(text("h"))]);
    assert!(errors.is_empty());
    assert!(matches!(root.block, Block::Root));
    assert!(root.node.iter().all(|n| n.node.is_empty()));
}

#[test]
fn empty_document_has_no_blocks() {
    let (root, errors) = parse_text("");
    assert!(root.node.is_empty());
    assert!(errors.is_empty());
}

#[test]
fn malformed_line_does_not_stop_the_parse() {
    let (root, errors) = parse_text("####### bad\n| fine");
    assert_eq!(
        blocks(&root),
        vec![&Block::H6(text("bad")), &Block::Quote(text("fine"))]
    );
    assert_eq!(errors.len(), 1);
    assert_eq!(errors[0].location, Position::new(1, 7));
}

#[test]
fn new_node_has_no_children() {
    let n = Node::new(Block::Root);
    assert!(n.node.is_empty());
    let e = ParseError::new("m".to_string(), Position::new(3, 4));
    assert_eq!(e.location, Position::new(3, 4));
    assert_eq!(e.message(), "m");
}

#[test]
fn cursor_reads_past_the_end_safely() {
    let mut r = Reader::new(tokenize(&"a".to_string()));
    assert_eq!(r.position(), Position::new(1, 1));
    r.advance_by(5);
    assert_eq!(r.token(), typeup::lexer::Token::Eof);
    assert_eq!(r.peek(), typeup::lexer::Token::Eof);
    assert_eq!(r.position(), Position::new(0, 0));
}

#[test]
fn code_block_closed_right_after_opening() {
    let (root, errors) = parse_text("```\n```");
    assert_eq!(blocks(&root), vec![&Block::Code(String::new(), String::new())]);
    assert!(errors.is_empty());
}

fn on_newline(s: &str) -> (Block, Option<ParseError>) {
    Reader::new(tokenize(&s.to_string())).block_on_newline()
}

#[test]
fn block_on_newline_steps_past_the_line_break() {
    assert_eq!(on_newline("\n=# Title\nrest"), (Block::Title(text("Title")), None));
    assert_eq!(on_newline("\n| quoted text"), (Block::Quote(text("quoted text")), None));
    assert_eq!(on_newline("\n  plain words"), (Block::Text(text("plain words")), None));
    let link = Block::Link(Content::LinkRef(None, "http://x".to_string()));
    assert_eq!(on_newline("\n[http://x]"), (link, None));
}

#[test]
fn block_on_newline_reads_both_table_forms_alike() {
    let a = on_newline("\n#,{ a , b \n c , d }");
    let b = on_newline("\n#||{ a || b \n c || d }");
    assert_eq!(a, (Block::Text(grid(&[&["a", "b"], &["c", "d"]])), None));
    assert_eq!(a, b);
    let (ragged, e) = on_newline("\n#,{a,b\nc}");
    assert_eq!(ragged, Block::Text(grid(&[&["a", "b"], &["c", ""]])));
    assert!(e.is_some());
}

#[test]
fn block_on_newline_on_blank_line() {
    assert_eq!(on_newline("\n\nx"), (Block::Text(text("")), None));
}

#[test]
fn cursor_clamps_past_the_end() {
    let mut r = Reader::new(tokenize(&"ab".to_string()));
    r.off = 10;
    r.advance_by(1);
    assert_eq!(r.off, 3);
}

#[test]
fn spans_in_a_line_become_nested_nodes() {
    let (root, errors) = parse_text("*_X_*");
    assert!(errors.is_empty());
    assert_eq!(root.node.len(), 1);
    let bold = &root.node[0];
    assert_eq!(bold.block, Block::Bold(text("X")));
    assert_eq!(bold.node.len(), 1);
    assert_eq!(bold.node[0].block, Block::Italic(text("X")));
    assert!(bold.node[0].node.is_empty());
}

#[test]
fn unclosed_span_in_a_line_stays_literal_with_error() {
    let (root, errors) = parse_text("\nab *cd");
    assert_eq!(
        blocks(&root),
        vec![&Block::Text(text("ab ")), &Block::Text(text("*cd"))]
    );
    assert_eq!(errors.len(), 1);
    assert_eq!(errors[0].message(), "unterminated span");
    assert_eq!(errors[0].location, Position::new(2, 4));
}

#[test]
fn header_text_is_read_for_spans() {
    let (root, errors) = parse_text("# a *b*");
    assert!(errors.is_empty());
    assert_eq!(blocks(&root), vec![&Block::H1(text("a b"))]);
    let kids: Vec<&Block> = root.node[0].node.iter().map(|n| &n.block).collect();
    assert_eq!(kids, vec![&Block::Text(text("a ")), &Block::Bold(text("b"))]);
}

#[test]
fn quote_with_unclosed_italic() {
    let (root, errors) = parse_text("| say _this");
    assert_eq!(blocks(&root), vec![&Block::Quote(text("say _this"))]);
    let kids: Vec<&Block> = root.node[0].node.iter().map(|n| &n.block).collect();
    assert_eq!(kids, vec![&Block::Text(text("say ")), &Block::Text(text("_this"))]);
    assert_eq!(errors.len(), 1);
    assert_eq!(errors[0].location, Position::new(1, 7));
}

#[test]
fn parse_stops_on_end_of_input() {
    let mut r = Reader::new(tokenize(&"a\nb".to_string()));
    let _ = r.parse();
    assert_eq!(r.token(), typeup::lexer::Token::Eof);
}
