use vstd::prelude::*;
use vstd::string::StrSliceExecFns;
use crate::lexer::push_char;
use crate::syntax::{Kind, KindView, ParseError};

verus! {

pub const STAR: char = '*';

pub const UNDERSCORE: char = '_';

/// A bold (`*`) or italic (`_`) delimiter.
pub open spec fn is_delim(c: char) -> bool {
    c == '*' || c == '_'
}

/// The first index from `k` that holds `d`, or the length.
pub open spec fn find(s: Seq<char>, d: char, k: int) -> int
    decreases s.len() - k,
{
    if k < 0 || k >= s.len() || s[k] == d {
        k
    } else {
        find(s, d, k + 1)
    }
}

/// The end of the run of characters from `k` that are no delimiter.
pub open spec fn plain_end(s: Seq<char>, k: int) -> int
    decreases s.len() - k,
{
    if k < 0 || k >= s.len() || is_delim(s[k]) {
        k
    } else {
        plain_end(s, k + 1)
    }
}

/// `inner` inside the span that delimiter `d` marks.
pub open spec fn wrap(d: char, inner: KindView) -> KindView {
    if d == '*' {
        KindView::Bold(Box::new(inner))
    } else {
        KindView::Italic(Box::new(inner))
    }
}

/// The markup tree of `s`. A delimiter opens a span that its next occurrence
/// closes; what lies between is read the same way and wrapped, so inner spans
/// are built first. A delimiter that is never closed makes the rest of the
/// text literal.
pub open spec fn spans(s: Seq<char>) -> KindView
    decreases s.len(),
{
    if s.len() == 0 {
        KindView::Str(Seq::empty())
    } else if is_delim(s[0]) {
        let j = find(s, s[0], 1);
        if 1 <= j < s.len() {
            let head = wrap(s[0], spans(s.subrange(1, j)));
            if j + 1 == s.len() {
                head
            } else {
                KindView::Concat(Box::new(head), Box::new(spans(s.subrange(j + 1, s.len() as int))))
            }
        } else {
            KindView::Str(s)
        }
    } else {
        let r = plain_end(s, 0);
        if 0 < r < s.len() {
            KindView::Concat(
                Box::new(KindView::Str(s.subrange(0, r))),
                Box::new(spans(s.subrange(r, s.len() as int))),
            )
        } else {
            KindView::Str(s)
        }
    }
}

/// `xs` with `d` added to each.
pub open spec fn shift(xs: Seq<int>, d: int) -> Seq<int> {
    xs.map_values(|x: int| x + d)
}

/// The indices in `s` of the delimiters left unclosed, in order.
pub open spec fn unclosed_at(s: Seq<char>) -> Seq<int>
    decreases s.len(),
{
    if s.len() == 0 {
        Seq::empty()
    } else if is_delim(s[0]) {
        let j = find(s, s[0], 1);
        if 1 <= j < s.len() {
            shift(unclosed_at(s.subrange(1, j)), 1) + shift(
                unclosed_at(s.subrange(j + 1, s.len() as int)),
                j + 1,
            )
        } else {
            seq![0]
        }
    } else {
        let r = plain_end(s, 0);
        if 0 < r < s.len() {
            shift(unclosed_at(s.subrange(r, s.len() as int)), r)
        } else {
            Seq::empty()
        }
    }
}

/// The indices that a list of errors points at.
pub open spec fn error_indices(es: Seq<ParseError>) -> Seq<int> {
    es.map_values(|e: ParseError| e.index as int)
}

pub open spec fn unterminated_span() -> Seq<char> {
    "unterminated span"@
}

proof fn lemma_find(s: Seq<char>, d: char, k: int, j: int)
    requires
        0 <= k <= j <= s.len(),
        forall|m: int| k <= m < j ==> #[trigger] s[m] != d,
        j == s.len() || s[j] == d,
    ensures
        find(s, d, k) == j,
    decreases j - k,
{
    if k < j {
        lemma_find(s, d, k + 1, j);
    }
}

proof fn lemma_plain_end(s: Seq<char>, k: int, j: int)
    requires
        0 <= k <= j <= s.len(),
        forall|m: int| k <= m < j ==> !is_delim(#[trigger] s[m]),
        j == s.len() || is_delim(s[j]),
    ensures
        plain_end(s, k) == j,
    decreases j - k,
{
    if k < j {
        lemma_plain_end(s, k + 1, j);
    }
}

/// Text with no delimiter reads as itself.
pub proof fn lemma_plain_text(x: Seq<char>)
    requires
        forall|k: int| 0 <= k < x.len() ==> !is_delim(#[trigger] x[k]),
    ensures
        spans(x) == KindView::Str(x),
        unclosed_at(x) == Seq::<int>::empty(),
{
    if x.len() > 0 {
        assert(!is_delim(x[0]));
        lemma_plain_end(x, 0, x.len() as int);
    } else {
        assert(x =~= Seq::empty());
    }
}

/// Plain text between `_` delimiters between `*` delimiters reads as bold
/// around italic around the text: the inner span is built first and the
/// outer one wraps it.
pub proof fn lemma_bold_around_italic(x: Seq<char>)
    requires
        forall|k: int| 0 <= k < x.len() ==> !is_delim(#[trigger] x[k]),
    ensures
        spans(seq!['*', '_'] + x + seq!['_', '*']) == KindView::Bold(
            Box::new(KindView::Italic(Box::new(KindView::Str(x)))),
        ),
        unclosed_at(seq!['*', '_'] + x + seq!['_', '*']) =~= Seq::<int>::empty(),
{
    let s = seq!['*', '_'] + x + seq!['_', '*'];
    let n = s.len() as int;
    assert(s[0] == '*');
    assert(s[n - 1] == '*');
    assert forall|m: int| 1 <= m < n - 1 implies #[trigger] s[m] != '*' by {
        if 2 <= m < n - 2 {
            assert(s[m] == x[m - 2]);
        }
    }
    lemma_find(s, '*', 1, n - 1);
    let t = s.subrange(1, n - 1);
    assert(t =~= seq!['_'] + x + seq!['_']);
    let tn = t.len() as int;
    assert(t[0] == '_');
    assert forall|m: int| 1 <= m < tn - 1 implies #[trigger] t[m] != '_' by {
        assert(t[m] == x[m - 1]);
    }
    lemma_find(t, '_', 1, tn - 1);
    assert(t.subrange(1, tn - 1) =~= x);
    lemma_plain_text(x);
    assert(t.subrange(tn, tn).len() == 0);
    assert(s.subrange(n, n).len() == 0);
    assert(unclosed_at(t.subrange(tn, tn)) =~= Seq::<int>::empty());
    assert(unclosed_at(s.subrange(n, n)) =~= Seq::<int>::empty());
    assert(is_delim(t[0]));
    assert(spans(t) == KindView::Italic(Box::new(KindView::Str(x))));
    assert(unclosed_at(t) =~= Seq::<int>::empty());
    assert(is_delim(s[0]));
}

/// The text that a markup tree is written as: spans between their
/// delimiters, plain text as it is.
pub open spec fn render(k: KindView) -> Seq<char>
    decreases k,
{
    match k {
        KindView::Str(x) => x,
        KindView::Bold(inner) => seq!['*'] + render(*inner) + seq!['*'],
        KindView::Italic(inner) => seq!['_'] + render(*inner) + seq!['_'],
        KindView::Concat(a, b) => render(*a) + render(*b),
        _ => Seq::empty(),
    }
}

/// Writing out the tree of a text gives back the text.
pub proof fn lemma_render_spans(s: Seq<char>)
    ensures
        render(spans(s)) == s,
    decreases s.len(),
{
    if s.len() == 0 {
        assert(render(spans(s)) =~= s);
    } else if is_delim(s[0]) {
        let d = s[0];
        let j = find(s, d, 1);
        if 1 <= j < s.len() {
            let inner = s.subrange(1, j);
            lemma_find_bounds(s, d, 1);
            lemma_render_spans(inner);
            let head = wrap(d, spans(inner));
            assert(render(head) == seq![d] + inner + seq![d]);
            if j + 1 == s.len() {
                assert(s =~= seq![d] + inner + seq![d]);
                assert(spans(s) == head);
                assert(render(spans(s)) =~= s);
            } else {
                let rest = s.subrange(j + 1, s.len() as int);
                lemma_render_spans(rest);
                assert(spans(s) == KindView::Concat(Box::new(head), Box::new(spans(rest))));
                assert(s =~= seq![d] + inner + seq![d] + rest);
            }
        } else {
            assert(spans(s) == KindView::Str(s));
        }
    } else {
        let r = plain_end(s, 0);
        if 0 < r < s.len() {
            let rest = s.subrange(r, s.len() as int);
            lemma_render_spans(rest);
            assert(spans(s) == KindView::Concat(
                Box::new(KindView::Str(s.subrange(0, r))),
                Box::new(spans(rest)),
            ));
            assert(s =~= s.subrange(0, r) + rest);
            let head = KindView::Str(s.subrange(0, r));
            assert(render(head) == s.subrange(0, r));
            assert(render(spans(s)) == render(head) + render(spans(rest)));
        } else {
            assert(spans(s) == KindView::Str(s));
        }
    }
}

/// Reading the written-out tree of a text again gives the same tree.
pub proof fn lemma_reparse_rendered(s: Seq<char>)
    ensures
        spans(render(spans(s))) == spans(s),
{
    lemma_render_spans(s);
}

proof fn lemma_find_bounds(s: Seq<char>, d: char, k: int)
    requires
        0 <= k <= s.len(),
    ensures
        k <= find(s, d, k) <= s.len(),
        find(s, d, k) < s.len() ==> s[find(s, d, k)] == d,
    decreases s.len() - k,
{
    if k < s.len() && s[k] != d {
        lemma_find_bounds(s, d, k + 1);
    }
}

/// Reads inline markup: bold and italic spans over plain text.
#[derive(Debug)]
pub struct Lexer {
    pub doc: Vec<char>,
}

impl Lexer {
    pub fn new(s: &str) -> (l: Lexer)
        ensures
            l.doc@ == s@,
    {
        let n = s.unicode_len();
        let mut doc: Vec<char> = Vec::new();
        let mut i: usize = 0;
        while i < n
            invariant
                n == s@.len(),
                i <= n,
                doc@ == s@.subrange(0, i as int),
            decreases n - i,
        {
            doc.push(s.get_char(i));
            i = i + 1;
            assert(doc@ =~= s@.subrange(0, i as int));
        }
        assert(doc@ =~= s@);
        Lexer { doc }
    }

    /// The markup tree of the whole text.
    pub fn parse(self) -> (k: Kind)
        ensures
            k@ == spans(self.doc@),
    {
        let mut errors: Vec<ParseError> = Vec::new();
        let n = self.doc.len();
        proof {
            assert(self.doc@.subrange(0, n as int) =~= self.doc@);
        }
        self.parse_range(0, n, &mut errors)
    }

    /// The markup tree of the whole text, and one error for each delimiter
    /// left unclosed, at that delimiter's index.
    pub fn parse_with_errors(self) -> (r: (Kind, Vec<ParseError>))
        ensures
            r.0@ == spans(self.doc@),
            error_indices(r.1@) == unclosed_at(self.doc@),
            forall|k: int| 0 <= k < r.1@.len() ==> (#[trigger] r.1@[k]).message@ == unterminated_span(),
    {
        let mut errors: Vec<ParseError> = Vec::new();
        let n = self.doc.len();
        proof {
            assert(self.doc@.subrange(0, n as int) =~= self.doc@);
        }
        let k = self.parse_range(0, n, &mut errors);
        assert(shift(unclosed_at(self.doc@), 0) =~= unclosed_at(self.doc@));
        assert(error_indices(errors@) =~= shift(unclosed_at(self.doc@), 0));
        (k, errors)
    }

    /// The index of the first `symbol` in `[from, hi)`, or `hi`.
    fn parse_until_char(&self, symbol: char, from: usize, hi: usize) -> (j: usize)
        requires
            from <= hi <= self.doc@.len(),
        ensures
            from <= j <= hi,
            forall|m: int| from <= m < j ==> #[trigger] self.doc@[m] != symbol,
            j == hi || self.doc@[j as int] == symbol,
    {
        let mut j = from;
        while j < hi && self.doc[j] != symbol
            invariant
                from <= j <= hi <= self.doc@.len(),
                forall|m: int| from <= m < j ==> #[trigger] self.doc@[m] != symbol,
            decreases hi - j,
        {
            j = j + 1;
        }
        j
    }

    /// The characters in `[lo, hi)` as a string.
    fn chars_between(&self, lo: usize, hi: usize) -> (s: String)
        requires
            lo <= hi <= self.doc@.len(),
        ensures
            s@ == self.doc@.subrange(lo as int, hi as int),
    {
        let mut s = String::new();
        let mut k = lo;
        while k < hi
            invariant
                lo <= k <= hi <= self.doc@.len(),
                s@ == self.doc@.subrange(lo as int, k as int),
            decreases hi - k,
        {
            push_char(&mut s, self.doc[k]);
            k = k + 1;
            assert(s@ =~= self.doc@.subrange(lo as int, k as int));
        }
        s
    }

    /// The markup tree of the characters in `[lo, hi)`; an error is added for
    /// each unclosed delimiter.
    fn parse_range(&self, lo: usize, hi: usize, errors: &mut Vec<ParseError>) -> (k: Kind)
        requires
            lo <= hi <= self.doc@.len(),
        ensures
            k@ == spans(self.doc@.subrange(lo as int, hi as int)),
            error_indices(final(errors)@) == error_indices(old(errors)@) + shift(
                unclosed_at(self.doc@.subrange(lo as int, hi as int)),
                lo as int,
            ),
            forall|k: int| 0 <= k < old(errors)@.len() ==> final(errors)@[k] == old(errors)@[k],
            forall|k: int|
                old(errors)@.len() <= k < final(errors)@.len() ==> (#[trigger] final(errors)@[k]).message@
                    == unterminated_span(),
        decreases hi - lo,
    {
        let ghost s = self.doc@.subrange(lo as int, hi as int);
        let ghost e0 = error_indices(errors@);
        if lo == hi {
            assert(error_indices(errors@) =~= e0 + shift(unclosed_at(s), lo as int));
            return Kind::Str(String::new());
        }
        let c = self.doc[lo];
        assert(s[0] == c);
        if c == STAR || c == UNDERSCORE {
            let j = self.parse_until_char(c, lo + 1, hi);
            proof {
                assert forall|m: int| 1 <= m < j - lo implies #[trigger] s[m] != c by {
                    assert(s[m] == self.doc@[lo + m]);
                }
                lemma_find(s, c, 1, j - lo);
            }
            if j < hi {
                assert(s.subrange(1, j - lo) =~= self.doc@.subrange(lo + 1, j as int));
                let inner = self.parse_range(lo + 1, j, errors);
                let head = if c == STAR {
                    Kind::Bold(Box::new(inner))
                } else {
                    Kind::Italic(Box::new(inner))
                };
                assert(head@ == wrap(c, spans(s.subrange(1, j - lo))));
                let ghost e1 = error_indices(errors@);
                let ghost a = unclosed_at(s.subrange(1, j - lo));
                if j + 1 == hi {
                    assert(s.subrange(j - lo + 1, s.len() as int).len() == 0);
                    assert(unclosed_at(s.subrange(j - lo + 1, s.len() as int)) =~= Seq::<
                        int,
                    >::empty());
                    assert(unclosed_at(s) =~= shift(a, 1));
                    assert(error_indices(errors@) =~= e0 + shift(unclosed_at(s), lo as int));
                    assert(head@ == spans(s));
                    head
                } else {
                    assert(s.subrange(j - lo + 1, s.len() as int) =~= self.doc@.subrange(
                        j + 1,
                        hi as int,
                    ));
                    let rest = self.parse_range(j + 1, hi, errors);
                    let k = Kind::Concat(Box::new(head), Box::new(rest));
                    let ghost b = unclosed_at(s.subrange(j - lo + 1, s.len() as int));
                    assert(unclosed_at(s) == shift(a, 1) + shift(b, j - lo + 1));
                    assert(error_indices(errors@) =~= e0 + shift(unclosed_at(s), lo as int));
                    assert(k@ == spans(s));
                    k
                }
            } else {
                errors.push(ParseError::new("unterminated span", lo));
                let k = Kind::Str(self.chars_between(lo, hi));
                assert(k@ == spans(s));
                assert(unclosed_at(s) == seq![0int]);
                assert(error_indices(errors@) =~= e0 + shift(unclosed_at(s), lo as int));
                k
            }
        } else {
            let mut r = lo + 1;
            while r < hi && self.doc[r] != STAR && self.doc[r] != UNDERSCORE
                invariant
                    lo < r <= hi <= self.doc@.len(),
                    forall|m: int| lo <= m < r ==> !is_delim(#[trigger] self.doc@[m]),
                decreases hi - r,
            {
                r = r + 1;
            }
            proof {
                assert forall|m: int| 0 <= m < r - lo implies !is_delim(#[trigger] s[m]) by {
                    assert(s[m] == self.doc@[lo + m]);
                }
                if r < hi {
                    assert(s[r - lo] == self.doc@[r as int]);
                }
                lemma_plain_end(s, 0, r - lo);
                assert(!is_delim(s[0]));
            }
            if r < hi {
                let head = Kind::Str(self.chars_between(lo, r));
                assert(s.subrange(0, r - lo) =~= self.doc@.subrange(lo as int, r as int));
                assert(s.subrange(r - lo, s.len() as int) =~= self.doc@.subrange(r as int, hi as int));
                let rest = self.parse_range(r, hi, errors);
                let k = Kind::Concat(Box::new(head), Box::new(rest));
                assert(head@ == KindView::Str(s.subrange(0, r - lo)));
                assert(k@ == KindView::Concat(Box::new(head@), Box::new(rest@)));
                assert(unclosed_at(s) == shift(
                    unclosed_at(s.subrange(r - lo, s.len() as int)),
                    r - lo,
                ));
                assert(error_indices(errors@) =~= e0 + shift(unclosed_at(s), lo as int));
                assert(k@ == spans(s));
                k
            } else {
                let k = Kind::Str(self.chars_between(lo, hi));
                assert(k@ == spans(s));
                assert(unclosed_at(s) =~= Seq::<int>::empty());
                assert(error_indices(errors@) =~= e0 + shift(unclosed_at(s), lo as int));
                k
            }
        }
    }
}

} // verus!
