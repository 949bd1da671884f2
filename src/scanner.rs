//! The scanner: a cursor over the input that skips spaces and produces one
//! token at a time.
use vstd::prelude::*;
use crate::model::{lex_from, lex_spec, prepend, quote_end, word_len};
use crate::table::CharTable;
use crate::text::{
    byte_len, byte_offset, char_width, first_char, lemma_byte_offset_add,
    lemma_byte_offset_in_len, lemma_byte_offset_step, skip_chars, take_chars, width,
};
use crate::token::{LexError, Span, Token, TokenView};

verus! {

/// `o` with every found index moved `j` further.
spec fn shift(o: Option<nat>, j: int) -> Option<nat> {
    match o {
        Some(k) => Some((k + j) as nat),
        None => None,
    }
}

/// Byte offset, in `string`, of the delimiter `quotation_mark` that closes a
/// quotation whose text starts at the beginning of `string`; `None` when the
/// quotation is never closed.
pub fn find_quote_end(string: &str, quotation_mark: char) -> (r: Option<usize>)
    requires
        byte_len(string@) <= usize::MAX,
    ensures
        match quote_end(string@, quotation_mark) {
            Some(k) => r == Some(byte_offset(string@, k as int) as usize),
            None => r is None,
        },
{
    let ghost s = string@;
    let mut cursor: usize = 0;
    let ghost mut j: int = 0;
    assert(s.skip(0) =~= s);
    assert(s.take(0) =~= Seq::<char>::empty());
    loop
        invariant
            0 <= j <= s.len(),
            s == string@,
            cursor == byte_offset(s, j),
            byte_len(s) <= usize::MAX,
            quote_end(s, quotation_mark) == shift(quote_end(s.skip(j), quotation_mark), j),
        decreases s.len() - j,
    {
        let progress = skip_chars(string, cursor, Ghost(j));
        let mut chars = progress.chars();
        if let Some(ch) = chars.next() {
            proof {
                lemma_byte_offset_step(s, j);
                lemma_byte_offset_in_len(s, j + 1);
            }
            if ch == quotation_mark {
                return Some(cursor);
            } else if ch == '\\' {
                cursor += 1;
                if let Some(ch) = chars.next() {
                    proof {
                        lemma_byte_offset_step(s, j + 1);
                        lemma_byte_offset_in_len(s, j + 2);
                        assert(s.skip(j).skip(2) =~= s.skip(j + 2));
                    }
                    cursor += char_width(ch);
                    proof {
                        j = j + 2;
                    }
                } else {
                    return None;
                }
            } else {
                cursor += char_width(ch);
                proof {
                    assert(s.skip(j).drop_first() =~= s.skip(j + 1));
                    j = j + 1;
                }
            }
        } else {
            return None;
        }
    }
}

/// The views of a token sequence.
pub open spec fn token_views<'a>(ts: Seq<Token<'a>>) -> Seq<TokenView> {
    ts.map_values(|t: Token<'a>| t@)
}

/// What a call of lexing hands back, seen through the token views.
pub open spec fn result_view<'a>(r: Result<Vec<Token<'a>>, LexError>) -> Result<Seq<TokenView>, LexError> {
    match r {
        Ok(v) => Ok(token_views(v@)),
        Err(e) => Err(e),
    }
}

/// Lexing state: the input, the table, a cursor at character `index`,
/// and the tokens produced before the cursor.
struct Lexing<'a, 't> {
    cursor: usize,
    input: &'a str,
    char_table: &'t CharTable,
    token_vec: Vec<Token<'a>>,
    index: Ghost<int>,
}

impl<'a, 't> Lexing<'a, 't> {
    /// The cursor stands at the byte offset of character `index`.
    spec fn wf_pos(&self) -> bool {
        &&& 0 <= self.index@ <= self.input@.len()
        &&& self.cursor == byte_offset(self.input@, self.index@)
        &&& byte_len(self.input@) <= usize::MAX
    }

    /// The input not yet scanned.
    spec fn rest(&self) -> Seq<char> {
        self.input@.skip(self.index@)
    }

    /// The tokens so far, followed by those of the rest, are the tokens of
    /// the whole input.
    spec fn wf(&self) -> bool {
        &&& self.wf_pos()
        &&& lex_spec(*self.char_table, self.input@) == prepend(
            token_views(self.token_vec@),
            lex_from(*self.char_table, self.rest(), self.cursor as nat),
        )
    }

    spec fn same_source(&self, o: &Self) -> bool {
        &&& self.input == o.input
        &&& self.char_table == o.char_table
    }

    /// `self` is `o` with one token pushed, whose view is `t`.
    spec fn pushed(&self, o: &Self, t: TokenView) -> bool {
        &&& self.token_vec@.len() == o.token_vec@.len() + 1
        &&& self.token_vec@.drop_last() == o.token_vec@
        &&& self.token_vec@.last()@ == t
    }

    /// `self` is `o` after the token of the special character `ch` at the
    /// cursor of `o`.
    spec fn char_step(&self, o: &Self, ch: char) -> bool {
        let hi = o.cursor + width(ch);
        &&& self.pushed(o, TokenView::Char { span: Span { lo: o.cursor, hi: hi as usize }, ch })
        &&& self.cursor == hi
        &&& self.index@ == o.index@ + 1
    }

    /// `self` and `r` are what scanning the quotation that `q` opens at the
    /// cursor of `o` gives: one Quotation token up to the closing mark, or,
    /// when there is none, the error at the opening mark and no change.
    spec fn quote_step(&self, o: &Self, q: char, r: Result<(), LexError>) -> bool {
        match quote_end(o.rest().drop_first(), q) {
            Some(k) => {
                let hi = o.cursor + byte_len(o.rest().take(k + 2 as int));
                &&& r is Ok
                &&& self.pushed(
                    o,
                    TokenView::Quotation {
                        span: Span { lo: o.cursor, hi: hi as usize },
                        quotation_mark: q,
                        string: o.rest().subrange(1, k + 1 as int),
                    },
                )
                &&& self.cursor == hi
                &&& self.index@ == o.index@ + k + 2
            },
            None => {
                &&& r == Err::<(), LexError>(
                    LexError::QuotationMisMatch { quotation_mark: q, index: o.cursor },
                )
                &&& self.token_vec == o.token_vec
                &&& self.cursor == o.cursor
                &&& self.index == o.index
            },
        }
    }

    /// `self` is `o` after the token of the run of word characters at the
    /// cursor of `o`, which is not empty.
    spec fn word_step(&self, o: &Self) -> bool {
        let n = word_len(*o.char_table, o.rest());
        let hi = o.cursor + byte_len(o.rest().take(n as int));
        &&& n >= 1
        &&& self.pushed(
            o,
            TokenView::Word { span: Span { lo: o.cursor, hi: hi as usize }, word: o.rest().take(n as int) },
        )
        &&& self.cursor == hi
        &&& self.index@ == o.index@ + n
    }

    /// The character at the cursor, if any.
    fn peek(&self) -> (r: Option<char>)
        requires
            self.wf_pos(),
        ensures
            self.rest().len() == 0 ==> r is None,
            self.rest().len() > 0 ==> r == Some(self.rest()[0]),
    {
        first_char(skip_chars(self.input, self.cursor, Ghost(self.index@)))
    }

    /// Moves the cursor past the character `ch` that stands at it.
    fn step(&mut self, ch: char)
        requires
            old(self).wf_pos(),
            old(self).rest().len() > 0,
            old(self).rest()[0] == ch,
        ensures
            final(self).wf_pos(),
            final(self).same_source(old(self)),
            final(self).token_vec == old(self).token_vec,
            final(self).index@ == old(self).index@ + 1,
            final(self).rest() == old(self).rest().drop_first(),
            final(self).cursor == old(self).cursor + width(ch),
    {
        proof {
            lemma_byte_offset_step(self.input@, self.index@);
            lemma_byte_offset_in_len(self.input@, self.index@ + 1);
            assert(self.rest().drop_first() =~= self.input@.skip(self.index@ + 1));
        }
        self.cursor = self.cursor + char_width(ch);
        self.index = Ghost(self.index@ + 1);
    }

    /// Skips the run of spaces at the cursor.
    fn ignore_space(&mut self)
        requires
            old(self).wf(),
        ensures
            final(self).wf(),
            final(self).same_source(old(self)),
            final(self).token_vec == old(self).token_vec,
            final(self).index@ >= old(self).index@,
            forall|i: int|
                old(self).index@ <= i < final(self).index@ ==> final(self).char_table.is_space(
                    #[trigger] final(self).input@[i],
                ),
            final(self).rest().len() > 0 ==> !final(self).char_table.is_space(final(self).rest()[0]),
    {
        loop
            invariant
                self.wf(),
                self.same_source(old(self)),
                self.token_vec == old(self).token_vec,
                self.index@ >= old(self).index@,
                forall|i: int|
                    old(self).index@ <= i < self.index@ ==> self.char_table.is_space(
                        #[trigger] self.input@[i],
                    ),
            decreases self.input@.len() - self.index@,
        {
            if let Some(ch) = self.peek() {
                if self.char_table.space_p(ch) {
                    let ghost before = *self;
                    self.step(ch);
                    assert(self.input@[before.index@] == before.rest()[0]);
                    assert(self.token_vec@ == before.token_vec@);
                } else {
                    return;
                }
            } else {
                return;
            }
        }
    }

    /// Moves the cursor to the end of the run of word characters at it.
    fn goto_word_end(&mut self)
        requires
            old(self).wf_pos(),
        ensures
            final(self).wf_pos(),
            final(self).same_source(old(self)),
            final(self).token_vec == old(self).token_vec,
            final(self).index@ == old(self).index@ + word_len(*old(self).char_table, old(self).rest()),
    {
        loop
            invariant
                self.wf_pos(),
                self.same_source(old(self)),
                self.token_vec == old(self).token_vec,
                old(self).index@ <= self.index@,
                word_len(*self.char_table, old(self).rest()) == (self.index@ - old(self).index@)
                    + word_len(*self.char_table, self.rest()),
            decreases self.input@.len() - self.index@,
        {
            if let Some(ch) = self.peek() {
                if self.char_table.space_p(ch) {
                    return;
                } else if self.char_table.char_p(ch) {
                    return;
                } else if self.char_table.quotation_mark_p(ch) {
                    return;
                } else {
                    self.step(ch);
                }
            } else {
                return;
            }
        }
    }

    /// Pushes `token`, which stands for characters `from .. from + n` of
    /// the input, and moves the cursor to the byte offset `end` of
    /// character `from + n`.
    fn push_token(&mut self, token: Token<'a>, end: usize, Ghost(from): Ghost<int>, Ghost(n): Ghost<int>)
        requires
            old(self).wf_pos(),
            0 <= from,
            0 < n,
            from + n <= old(self).input@.len(),
            end == byte_offset(old(self).input@, from + n),
            lex_spec(*old(self).char_table, old(self).input@) == prepend(
                token_views(old(self).token_vec@),
                prepend(
                    seq![token@],
                    lex_from(*old(self).char_table, old(self).input@.skip(from + n), end as nat),
                ),
            ),
        ensures
            final(self).wf(),
            final(self).same_source(old(self)),
            final(self).index@ == from + n,
            final(self).token_vec@ == old(self).token_vec@.push(token),
            final(self).cursor == end,
    {
        let ghost before = *self;
        self.token_vec.push(token);
        self.cursor = end;
        self.index = Ghost(from + n);
        proof {
            lemma_byte_offset_in_len(self.input@, self.index@);
            assert(token_views(self.token_vec@) =~= token_views(before.token_vec@) + seq![token@]);
            let r = lex_from(*self.char_table, self.rest(), end as nat);
            match r {
                Ok(ts) => {
                    assert(token_views(before.token_vec@) + (seq![token@] + ts)
                        =~= token_views(self.token_vec@) + ts);
                },
                Err(e) => {},
            }
        }
    }

    /// Produces the token of the special character `ch` at the cursor.
    fn next_char(&mut self, ch: char) -> (r: Result<(), LexError>)
        requires
            old(self).wf(),
            old(self).rest().len() > 0,
            old(self).rest()[0] == ch,
            !old(self).char_table.is_space(ch),
            old(self).char_table.is_char(ch),
        ensures
            r is Ok,
            final(self).wf(),
            final(self).same_source(old(self)),
            final(self).char_step(old(self), ch),
    {
        let lo = self.cursor;
        proof {
            lemma_byte_offset_step(self.input@, self.index@);
            lemma_byte_offset_in_len(self.input@, self.index@ + 1);
        }
        let hi = lo + char_width(ch);
        let span = Span { lo, hi };
        let token = Token::Char { span, ch };
        proof {
            assert(self.rest().drop_first() =~= self.input@.skip(self.index@ + 1));
        }
        let ghost before = *self;
        self.push_token(token, hi, Ghost(self.index@), Ghost(1));
        assert(self.token_vec@.drop_last() =~= before.token_vec@);
        Ok(())
    }

    /// Produces the token of the quotation that the mark `quotation_mark`
    /// opens at the cursor, or fails when the quotation is never closed.
    fn next_quote(&mut self, quotation_mark: char) -> (r: Result<(), LexError>)
        requires
            old(self).wf(),
            old(self).rest().len() > 0,
            old(self).rest()[0] == quotation_mark,
            !old(self).char_table.is_space(quotation_mark),
            !old(self).char_table.is_char(quotation_mark),
            old(self).char_table.is_quotation_mark(quotation_mark),
        ensures
            r is Ok ==> final(self).wf(),
            final(self).same_source(old(self)),
            final(self).quote_step(old(self), quotation_mark, r),
            r matches Err(e) ==> lex_spec(*old(self).char_table, old(self).input@) == Err::<Seq<TokenView>, LexError>(e),
    {
        let ghost s = self.input@;
        let ghost i0 = self.index@;
        let ghost rest0 = self.rest();
        let lo = self.cursor;
        let ch_len = char_width(quotation_mark);
        proof {
            lemma_byte_offset_step(s, i0);
            lemma_byte_offset_in_len(s, i0 + 1);
        }
        let open_end = lo + ch_len;
        let progress = skip_chars(self.input, open_end, Ghost(i0 + 1));
        proof {
            assert(progress@ =~= rest0.drop_first());
        }
        match find_quote_end(progress, quotation_mark) {
            Some(end) => {
                let ghost k = quote_end(progress@, quotation_mark)->0 as int;
                proof {
                    crate::model::lemma_quote_end_bound(progress@, quotation_mark);
                    lemma_byte_offset_add(s, i0 + 1, k);
                    lemma_byte_offset_step(s, i0 + 1 + k);
                    lemma_byte_offset_in_len(s, i0 + 2 + k);
                    lemma_byte_offset_add(s, i0, k + 2);
                    assert(s.skip(i0 + 1) =~= progress@);
                    assert(s.skip(i0) =~= rest0);
                    assert(s[i0 + 1 + k] == progress@[k]);
                }
                let string = take_chars(progress, end, Ghost(k));
                let hi = open_end + end + ch_len;
                let span = Span { lo, hi };
                let token = Token::Quotation { span, quotation_mark, string };
                proof {
                    assert(string@ =~= rest0.subrange(1, k + 1));
                    assert(rest0.skip(k + 2) =~= s.skip(i0 + k + 2));
                }
                let ghost before = *self;
                proof {
                    assert(hi == lo + byte_len(rest0.take(k + 2)));
                    assert(quote_end(rest0.drop_first(), quotation_mark) == quote_end(progress@, quotation_mark));
                }
                self.push_token(token, hi, Ghost(i0), Ghost(k + 2));
                assert(self.token_vec@.drop_last() =~= before.token_vec@);
                Ok(())
            },
            None => {
                assert(quote_end(rest0.drop_first(), quotation_mark) == quote_end(progress@, quotation_mark));
                Err(LexError::QuotationMisMatch { quotation_mark, index: lo })
            },
        }
    }

    /// Produces the token of the run of word characters at the cursor.
    fn next_word(&mut self) -> (r: Result<(), LexError>)
        requires
            old(self).wf(),
            old(self).rest().len() > 0,
            old(self).char_table.is_word_char(old(self).rest()[0]),
        ensures
            r is Ok,
            final(self).wf(),
            final(self).same_source(old(self)),
            final(self).word_step(old(self)),
    {
        let ghost s = self.input@;
        let ghost i0 = self.index@;
        let ghost rest0 = self.rest();
        let ghost tokens0 = self.token_vec@;
        let lo = self.cursor;
        let start = skip_chars(self.input, lo, Ghost(i0));
        self.goto_word_end();
        let hi = self.cursor;
        let ghost n = self.index@ - i0;
        proof {
            crate::model::lemma_word_len_bound(*self.char_table, rest0);
            lemma_byte_offset_add(s, i0, n);
            assert(s.skip(i0) =~= rest0);
        }
        let word = take_chars(start, hi - lo, Ghost(n));
        let span = Span { lo, hi };
        let token = Token::Word { span, word };
        proof {
            assert(rest0.skip(n) =~= s.skip(i0 + n));
        }
        let ghost before = *self;
        self.push_token(token, hi, Ghost(i0), Ghost(n));
        assert(self.token_vec@.drop_last() =~= before.token_vec@);
        assert(self.token_vec@.drop_last() =~= tokens0);
        Ok(())
    }

    /// Produces the token that starts with `ch`, the character at the
    /// cursor, which is not a space.
    fn next_token(&mut self, ch: char) -> (r: Result<(), LexError>)
        requires
            old(self).wf(),
            old(self).rest().len() > 0,
            old(self).rest()[0] == ch,
            !old(self).char_table.is_space(ch),
        ensures
            r is Ok ==> final(self).wf(),
            final(self).same_source(old(self)),
            old(self).char_table.is_char(ch) ==> r is Ok && final(self).char_step(old(self), ch),
            !old(self).char_table.is_char(ch) && old(self).char_table.is_quotation_mark(ch)
                ==> final(self).quote_step(old(self), ch, r),
            old(self).char_table.is_word_char(ch) ==> r is Ok && final(self).word_step(old(self)),
            r matches Err(e) ==> lex_spec(*old(self).char_table, old(self).input@) == Err::<Seq<TokenView>, LexError>(e),
    {
        if self.char_table.char_p(ch) {
            self.next_char(ch)
        } else if self.char_table.quotation_mark_p(ch) {
            self.next_quote(ch)
        } else {
            self.next_word()
        }
    }

    /// Skips spaces and produces tokens until the input ends or a
    /// quotation is left open.
    fn run(self) -> (r: Result<Vec<Token<'a>>, LexError>)
        requires
            self.wf(),
        ensures
            result_view(r) == lex_spec(*self.char_table, self.input@),
    {
        let ghost table = *self.char_table;
        let ghost s = self.input@;
        let mut lexing = self;
        loop
            invariant
                lexing.wf(),
                *lexing.char_table == table,
                lexing.input@ == s,
                table == *self.char_table,
                s == self.input@,
            decreases s.len() - lexing.index@,
        {
            lexing.ignore_space();
            match lexing.peek() {
                None => {
                    proof {
                        assert(token_views(lexing.token_vec@) + seq![] =~= token_views(lexing.token_vec@));
                    }
                    return Ok(lexing.token_vec);
                },
                Some(ch) => {
                    if let Err(e) = lexing.next_token(ch) {
                        return Err(e);
                    }
                },
            }
        }
    }
}

impl CharTable {
    /// Splits `input` into tokens: spaces are skipped, a special character
    /// is a token of its own, a quotation mark opens a quotation that runs
    /// to its unescaped closing mark, and any other run of characters is a
    /// word. Fails, and hands back no token, when a quotation is left open.
    pub fn lex<'a>(&self, input: &'a str) -> (r: Result<Vec<Token<'a>>, LexError>)
        ensures
            result_view(r) == lex_spec(*self, input@),
    {
        let input_len = input.as_bytes().len();
        assert(input_len == byte_len(input@));
        let lexing = Lexing {
            cursor: 0,
            input,
            char_table: self,
            token_vec: Vec::new(),
            index: Ghost(0),
        };
        proof {
            assert(input@.skip(0) =~= input@);
            assert(input@.take(0) =~= Seq::<char>::empty());
            assert(token_views(lexing.token_vec@) =~= Seq::<TokenView>::empty());
            match lex_spec(*self, input@) {
                Ok(ts) => {
                    assert(Seq::<TokenView>::empty() + ts =~= ts);
                },
                Err(e) => {},
            }
        }
        lexing.run()
    }
}

} // verus!
