use typeup::lexer::{tokenize, Position, Token};

#[test]
fn tokenize_ends_with_eof_after_last_character() {
    let toks = tokenize(&"ab\ncd".to_string());
    assert_eq!(toks.len(), 6);
    assert_eq!(toks[5], (Token::Eof, Position::new(2, 3)));
}

#[test]
fn tokenize_positions_reset_after_newline() {
    let toks = tokenize(&"a\n b".to_string());
    assert_eq!(toks[0], (Token::Char('a'), Position::new(1, 1)));
    assert_eq!(toks[1], (Token::Newline, Position::new(1, 2)));
    assert_eq!(toks[2], (Token::Whitespace(' '), Position::new(2, 1)));
    assert_eq!(toks[3], (Token::Char('b'), Position::new(2, 2)));
    assert_eq!(toks[4], (Token::Eof, Position::new(2, 3)));
}

#[test]
fn tokenize_lines_never_decrease() {
    let toks = tokenize(&"x\n\ny z\n#".to_string());
    for w in toks.windows(2) {
        assert!(w[0].1.line <= w[1].1.line);
        let newline = w[0].0 == Token::Newline;
        assert_eq!(w[1].1.column == 1, newline);
    }
    assert_eq!(toks.last().unwrap().0, Token::Eof);
}

#[test]
fn tokenize_empty_text() {
    let toks = tokenize(&String::new());
    assert_eq!(toks, vec![(Token::Eof, Position::new(1, 1))]);
}

#[test]
fn tokenize_classifies_symbols() {
    let toks = tokenize(&"#=*[]{}|-:/_!`\t\rq".to_string());
    let kinds: Vec<Token> = toks.iter().map(|t| t.0).collect();
    assert_eq!(
        kinds,
        vec![
            Token::NumberSign,
            Token::Equal,
            Token::Star,
            Token::LSquareBracket,
            Token::RSquareBracket,
            Token::LCurlyBracket,
            Token::RCurlyBracket,
            Token::Pipe,
            Token::Dash,
            Token::Colon,
            Token::Slash,
            Token::Underscore,
            Token::Exclamation,
            Token::Backtick,
            Token::Whitespace('\t'),
            Token::Whitespace('\r'),
            Token::Char('q'),
            Token::Eof,
        ]
    );
}

#[test]
fn token_round_trips_its_character() {
    for c in ['#', '=', '*', 'a', ' ', '\n', '_', 'é'] {
        assert_eq!(Token::from_char(c).to_char(), c);
    }
}

#[test]
fn token_characters_spell_the_text() {
    let s = "# T\n| q [a] *b*\t_c_";
    let toks = tokenize(&s.to_string());
    let back: String = toks[..toks.len() - 1].iter().map(|t| t.0.to_char()).collect();
    assert_eq!(back, s);
}
