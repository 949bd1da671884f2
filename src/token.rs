//! Tokens, their byte spans, and the lexical error.
use vstd::prelude::*;

verus! {

/// A half-open byte interval `[lo, hi)` of the input text.
#[derive(Clone, Copy, Debug, PartialEq, Eq, Structural)]
pub struct Span {
    pub lo: usize,
    pub hi: usize,
}

impl Span {
    /// Number of bytes the span covers.
    pub fn len(&self) -> (r: usize)
        requires
            self.lo <= self.hi,
        ensures
            r == self.hi - self.lo,
    {
        self.hi - self.lo
    }
}

/// One token, borrowing its text from the input.
#[derive(Clone, Debug, PartialEq, Eq)]
pub enum Token<'a> {
    /// A quoted region: the delimiter and the raw text strictly between the
    /// opening and the closing delimiter, escapes left as written.
    Quotation { span: Span, quotation_mark: char, string: &'a str },
    /// A maximal run of word characters.
    Word { span: Span, word: &'a str },
    /// One special character.
    Char { span: Span, ch: char },
}

/// The mathematical content of a token: its text as a character sequence.
pub enum TokenView {
    Quotation { span: Span, quotation_mark: char, string: Seq<char> },
    Word { span: Span, word: Seq<char> },
    Char { span: Span, ch: char },
}

impl TokenView {
    pub open spec fn span(self) -> Span {
        match self {
            TokenView::Quotation { span, .. } => span,
            TokenView::Word { span, .. } => span,
            TokenView::Char { span, .. } => span,
        }
    }

    /// The input characters the token stands for, delimiters included.
    pub open spec fn source(self) -> Seq<char> {
        match self {
            TokenView::Quotation { quotation_mark, string, .. } => seq![quotation_mark] + string
                + seq![quotation_mark],
            TokenView::Word { word, .. } => word,
            TokenView::Char { ch, .. } => seq![ch],
        }
    }
}

impl<'a> View for Token<'a> {
    type V = TokenView;

    open spec fn view(&self) -> TokenView {
        match *self {
            Token::Quotation { span, quotation_mark, string } => TokenView::Quotation {
                span,
                quotation_mark,
                string: string@,
            },
            Token::Word { span, word } => TokenView::Word { span, word: word@ },
            Token::Char { span, ch } => TokenView::Char { span, ch },
        }
    }
}

impl<'a> Token<'a> {
    /// The byte span of the token.
    pub fn span(&self) -> (r: Span)
        ensures
            r == self@.span(),
    {
        match self {
            Token::Quotation { span, .. } => *span,
            Token::Word { span, .. } => *span,
            Token::Char { span, .. } => *span,
        }
    }

    /// Number of bytes the token covers.
    pub fn len(&self) -> (r: usize)
        requires
            self@.span().lo <= self@.span().hi,
        ensures
            r == self@.span().hi - self@.span().lo,
    {
        self.span().len()
    }
}

/// The one error of lexing: a quotation that is never closed.
#[derive(Clone, Copy, Debug, PartialEq, Eq, Structural)]
pub enum LexError {
    /// The quotation opened by `quotation_mark` at byte `index` has no
    /// unescaped closing delimiter.
    QuotationMisMatch { quotation_mark: char, index: usize },
}

} // verus!
