use vstd::prelude::*;

verus! {

/// A node of inline markup.
#[derive(Debug, PartialEq, Eq)]
pub enum Kind {
    Header(Box<Kind>, u8),
    Title(Box<Kind>),
    Code(String, String),
    InlineCode(String),
    UnorderedList(Box<Kind>),
    OrderedList(Box<Kind>),
    Quote(Box<Kind>),
    Italic(Box<Kind>),
    Bold(Box<Kind>),
    Image(Option<Box<Kind>>, String),
    Link(Option<Box<Kind>>, String),
    Span(Box<Kind>),
    Str(String),
    Table(Vec<Vec<String>>),
    /// Two pieces of markup, one after the other.
    Concat(Box<Kind>, Box<Kind>),
}

/// The mathematical value of a `Kind`.
pub enum KindView {
    Header(Box<KindView>, u8),
    Title(Box<KindView>),
    Code(Seq<char>, Seq<char>),
    InlineCode(Seq<char>),
    UnorderedList(Box<KindView>),
    OrderedList(Box<KindView>),
    Quote(Box<KindView>),
    Italic(Box<KindView>),
    Bold(Box<KindView>),
    Image(Option<Box<KindView>>, Seq<char>),
    Link(Option<Box<KindView>>, Seq<char>),
    Span(Box<KindView>),
    Str(Seq<char>),
    Table(Seq<Seq<Seq<char>>>),
    Concat(Box<KindView>, Box<KindView>),
}

impl View for Kind {
    type V = KindView;

    open spec fn view(&self) -> KindView
        decreases self,
    {
        match self {
            Kind::Header(k, n) => KindView::Header(Box::new((**k).view()), *n),
            Kind::Title(k) => KindView::Title(Box::new((**k).view())),
            Kind::Code(a, b) => KindView::Code(a@, b@),
            Kind::InlineCode(a) => KindView::InlineCode(a@),
            Kind::UnorderedList(k) => KindView::UnorderedList(Box::new((**k).view())),
            Kind::OrderedList(k) => KindView::OrderedList(Box::new((**k).view())),
            Kind::Quote(k) => KindView::Quote(Box::new((**k).view())),
            Kind::Italic(k) => KindView::Italic(Box::new((**k).view())),
            Kind::Bold(k) => KindView::Bold(Box::new((**k).view())),
            Kind::Image(l, t) => KindView::Image(
                match l {
                    Some(k) => Some(Box::new((**k).view())),
                    None => None,
                },
                t@,
            ),
            Kind::Link(l, t) => KindView::Link(
                match l {
                    Some(k) => Some(Box::new((**k).view())),
                    None => None,
                },
                t@,
            ),
            Kind::Span(k) => KindView::Span(Box::new((**k).view())),
            Kind::Str(s) => KindView::Str(s@),
            Kind::Table(rows) => KindView::Table(rows.deep_view()),
            Kind::Concat(a, b) => KindView::Concat(Box::new((**a).view()), Box::new((**b).view())),
        }
    }
}

/// A diagnostic of the inline markup reader: what went wrong, and the index
/// in the text of the character where it was found.
#[derive(Debug, PartialEq, Eq)]
pub struct ParseError {
    pub message: String,
    pub index: usize,
}

impl ParseError {
    pub fn new(message: &str, index: usize) -> (e: ParseError)
        ensures
            e.message@ == message@,
            e.index == index,
    {
        ParseError { message: message.to_owned(), index }
    }

    /// The message, as text.
    pub fn message(&self) -> (s: String)
        ensures
            s@ == self.message@,
    {
        self.message.clone()
    }
}


} // verus!
