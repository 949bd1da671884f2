//! What lexing computes, as spec functions over the input's characters.
use vstd::prelude::*;
use crate::table::CharTable;
use crate::text::{byte_len, width};
use crate::token::{LexError, Span, TokenView};

verus! {

/// Index, in `s`, of the first delimiter `q` that closes a quotation whose
/// text starts at `s[0]`. A backslash makes the character after it pass
/// untested; a backslash with nothing after it closes nothing.
pub open spec fn quote_end(s: Seq<char>, q: char) -> Option<nat>
    decreases s.len(),
{
    if s.len() == 0 {
        None
    } else if s[0] == q {
        Some(0)
    } else if s[0] == '\\' {
        if s.len() < 2 {
            None
        } else {
            match quote_end(s.skip(2), q) {
                Some(k) => Some(k + 2),
                None => None,
            }
        }
    } else {
        match quote_end(s.drop_first(), q) {
            Some(k) => Some(k + 1),
            None => None,
        }
    }
}

/// Length of the run of word characters at the start of `s`.
pub open spec fn word_len(t: CharTable, s: Seq<char>) -> nat
    decreases s.len(),
{
    if s.len() > 0 && t.is_word_char(s[0]) {
        1 + word_len(t, s.drop_first())
    } else {
        0
    }
}

pub open spec fn span_of(lo: nat, hi: nat) -> Span {
    Span { lo: lo as usize, hi: hi as usize }
}

/// Puts `ts` in front of a successful result; an error stays as it is.
pub open spec fn prepend(
    ts: Seq<TokenView>,
    r: Result<Seq<TokenView>, LexError>,
) -> Result<Seq<TokenView>, LexError> {
    match r {
        Ok(rest) => Ok(ts + rest),
        Err(e) => Err(e),
    }
}

pub proof fn lemma_quote_end_bound(s: Seq<char>, q: char)
    ensures
        quote_end(s, q) matches Some(k) ==> k < s.len() && s[k as int] == q,
    decreases s.len(),
{
    if s.len() > 0 && s[0] != q {
        if s[0] == '\\' {
            if s.len() >= 2 {
                lemma_quote_end_bound(s.skip(2), q);
            }
        } else {
            lemma_quote_end_bound(s.drop_first(), q);
        }
    }
}

pub proof fn lemma_word_len_bound(t: CharTable, s: Seq<char>)
    ensures
        word_len(t, s) <= s.len(),
        s.len() > 0 && t.is_word_char(s[0]) ==> word_len(t, s) >= 1,
        forall|i: int| 0 <= i < word_len(t, s) ==> #[trigger] t.is_word_char(s[i]),
        word_len(t, s) < s.len() ==> !t.is_word_char(s[word_len(t, s) as int]),
    decreases s.len(),
{
    if s.len() > 0 && t.is_word_char(s[0]) {
        lemma_word_len_bound(t, s.drop_first());
        assert forall|i: int| 0 <= i < word_len(t, s) implies #[trigger] t.is_word_char(s[i]) by {
            if i > 0 {
                assert(s[i] == s.drop_first()[i - 1]);
            }
        }
    }
}

/// The tokens of `s`, whose first character lies at byte `pos` of the
/// input. Spaces are skipped first; otherwise a special character wins
/// over a quotation mark, and a quotation mark over a word.
pub open spec fn lex_from(t: CharTable, s: Seq<char>, pos: nat) -> Result<Seq<TokenView>, LexError>
    decreases s.len(),
{
    if s.len() == 0 {
        Ok(seq![])
    } else {
        let c = s[0];
        if t.is_space(c) {
            lex_from(t, s.drop_first(), pos + width(c))
        } else if t.is_char(c) {
            let hi = pos + width(c);
            prepend(
                seq![TokenView::Char { span: span_of(pos, hi), ch: c }],
                lex_from(t, s.drop_first(), hi),
            )
        } else if t.is_quotation_mark(c) {
            match quote_end(s.drop_first(), c) {
                Some(k) => {
                    proof {
                        lemma_quote_end_bound(s.drop_first(), c);
                    }
                    let n = k + 2;
                    let hi = pos + byte_len(s.take(n as int));
                    prepend(
                        seq![
                            TokenView::Quotation {
                                span: span_of(pos, hi),
                                quotation_mark: c,
                                string: s.subrange(1, k + 1 as int),
                            },
                        ],
                        lex_from(t, s.skip(n as int), hi),
                    )
                },
                None => Err(LexError::QuotationMisMatch { quotation_mark: c, index: pos as usize }),
            }
        } else {
            proof {
                lemma_word_len_bound(t, s);
            }
            let n = word_len(t, s);
            let hi = pos + byte_len(s.take(n as int));
            prepend(
                seq![TokenView::Word { span: span_of(pos, hi), word: s.take(n as int) }],
                lex_from(t, s.skip(n as int), hi),
            )
        }
    }
}

/// The tokens of the whole input `s`, or the error that stops lexing it.
pub open spec fn lex_spec(t: CharTable, s: Seq<char>) -> Result<Seq<TokenView>, LexError> {
    lex_from(t, s, 0)
}

} // verus!
