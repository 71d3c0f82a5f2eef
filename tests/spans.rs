use typeup::spans::Lexer;
use typeup::syntax::Kind;

#[test]
fn italic_and_bold() {
    let s = "*_THIS IS BOLD AND ITALIC TEXT_*";
    let s2 = String::from("THIS IS BOLD AND ITALIC TEXT");
    let l = Lexer::new(s);

    assert_eq!(
        l.parse(),
        Kind::Bold(Box::new(Kind::Italic(Box::new(Kind::Str(s2.clone())))))
    );
}

#[test]
fn bold_around_italic_single_letter() {
    assert_eq!(
        Lexer::new("*_X_*").parse(),
        Kind::Bold(Box::new(Kind::Italic(Box::new(Kind::Str("X".to_string())))))
    );
}

#[test]
fn italic_around_bold() {
    assert_eq!(
        Lexer::new("_*y*_").parse(),
        Kind::Italic(Box::new(Kind::Bold(Box::new(Kind::Str("y".to_string())))))
    );
}

#[test]
fn plain_text_then_span() {
    assert_eq!(
        Lexer::new("ab *c* d").parse(),
        Kind::Concat(
            Box::new(Kind::Str("ab ".to_string())),
            Box::new(Kind::Concat(
                Box::new(Kind::Bold(Box::new(Kind::Str("c".to_string())))),
                Box::new(Kind::Str(" d".to_string()))
            ))
        )
    );
}

#[test]
fn empty_text_is_empty_string() {
    assert_eq!(Lexer::new("").parse(), Kind::Str(String::new()));
}

#[test]
fn unclosed_span_is_literal_with_error() {
    let (k, errors) = Lexer::new("*ab").parse_with_errors();
    assert_eq!(k, Kind::Str("*ab".to_string()));
    assert_eq!(errors.len(), 1);
    assert_eq!(errors[0].message(), "unterminated span");
    assert_eq!(errors[0].index, 0);
}

#[test]
fn unclosed_span_after_text() {
    let (k, errors) = Lexer::new("a_b").parse_with_errors();
    assert_eq!(
        k,
        Kind::Concat(
            Box::new(Kind::Str("a".to_string())),
            Box::new(Kind::Str("_b".to_string()))
        )
    );
    assert_eq!(errors.len(), 1);
    assert_eq!(errors[0].index, 1);
}

#[test]
fn closed_spans_give_no_error() {
    let (_, errors) = Lexer::new("*a* _b_").parse_with_errors();
    assert!(errors.is_empty());
}

#[test]
fn lexer_keeps_unicode_characters() {
    assert_eq!(
        Lexer::new("*é*").parse(),
        Kind::Bold(Box::new(Kind::Str("é".to_string())))
    );
}

fn render(k: &Kind) -> String {
    match k {
        Kind::Str(s) => s.clone(),
        Kind::Bold(inner) => format!("*{}*", render(inner)),
        Kind::Italic(inner) => format!("_{}_", render(inner)),
        Kind::Concat(a, b) => format!("{}{}", render(a), render(b)),
        _ => String::new(),
    }
}

#[test]
fn rendered_tree_reparses_to_the_same_tree() {
    for s in ["*a* and _b *c*_ d", "*_X_*", "plain", "x_y_", "**", "*open"] {
        let tree = Lexer::new(s).parse();
        let text = render(&tree);
        assert_eq!(text, s);
        assert_eq!(Lexer::new(&text).parse(), tree);
    }
}
