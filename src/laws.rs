//! Properties of lexing, proved of the model that `CharTable::lex` meets.
use vstd::prelude::*;
use crate::model::{
    lemma_quote_end_bound, lemma_word_len_bound, lex_from, lex_spec, prepend, quote_end,
    span_of, word_len,
};
use crate::scanner::result_view;
use crate::table::CharTable;
use crate::text::{
    byte_len, lemma_byte_len_concat, lemma_byte_len_single, lemma_encode_concat, width,
};
use vstd::utf8::encode_utf8;
use crate::token::{LexError, Token, TokenView};

verus! {

/// `ts` tiles `s`, whose first character lies at byte `pos`: going left to
/// right, each character is either a skipped space or the start of the next
/// token, which covers exactly its source characters and spans exactly
/// their bytes; no token is left over at the end.
pub open spec fn tiles(t: CharTable, s: Seq<char>, pos: nat, ts: Seq<TokenView>) -> bool
    decreases s.len(),
{
    if s.len() == 0 {
        ts.len() == 0
    } else if ts.len() > 0 && ts[0].span().lo == pos {
        let src = ts[0].source();
        let n = src.len();
        &&& 0 < n <= s.len()
        &&& s.take(n as int) == src
        &&& ts[0].span().hi == pos + byte_len(src)
        &&& tiles(t, s.skip(n as int), pos + byte_len(src), ts.drop_first())
    } else {
        &&& t.is_space(s[0])
        &&& tiles(t, s.drop_first(), pos + width(s[0]), ts)
    }
}

proof fn lemma_split_len(s: Seq<char>, n: int)
    requires
        0 <= n <= s.len(),
    ensures
        byte_len(s) == byte_len(s.take(n)) + byte_len(s.skip(n)),
{
    assert(s =~= s.take(n) + s.skip(n));
    lemma_byte_len_concat(s.take(n), s.skip(n));
}

proof fn lemma_prepend_one(tok: TokenView, r: Result<Seq<TokenView>, LexError>)
    requires
        r is Ok,
    ensures
        prepend(seq![tok], r) is Ok,
        prepend(seq![tok], r)->Ok_0.len() == r->Ok_0.len() + 1,
        prepend(seq![tok], r)->Ok_0[0] == tok,
        prepend(seq![tok], r)->Ok_0.drop_first() == r->Ok_0,
{
    assert((seq![tok] + r->Ok_0).drop_first() =~= r->Ok_0);
}

proof fn lemma_lex_from_tiles(t: CharTable, s: Seq<char>, pos: nat)
    requires
        pos + byte_len(s) <= usize::MAX,
        lex_from(t, s, pos) is Ok,
    ensures
        tiles(t, s, pos, lex_from(t, s, pos)->Ok_0),
        lex_from(t, s, pos)->Ok_0.len() > 0 ==> lex_from(t, s, pos)->Ok_0[0].span().lo >= pos,
    decreases s.len(),
{
    if s.len() > 0 {
        let c = s[0];
        let ts = lex_from(t, s, pos)->Ok_0;
        crate::text::lemma_width_bounds(c);
        if t.is_space(c) {
            assert(s =~= seq![c] + s.drop_first());
            lemma_byte_len_concat(seq![c], s.drop_first());
            lemma_byte_len_single(c);
            lemma_lex_from_tiles(t, s.drop_first(), pos + width(c));
        } else {
            let n: int = if t.is_char(c) {
                1
            } else if t.is_quotation_mark(c) {
                lemma_quote_end_bound(s.drop_first(), c);
                quote_end(s.drop_first(), c)->0 + 2 as int
            } else {
                lemma_word_len_bound(t, s);
                word_len(t, s) as int
            };
            lemma_split_len(s, n);
            let hi = pos + byte_len(s.take(n));
            let tok = if t.is_char(c) {
                TokenView::Char { span: span_of(pos, hi), ch: c }
            } else if t.is_quotation_mark(c) {
                TokenView::Quotation {
                    span: span_of(pos, hi),
                    quotation_mark: c,
                    string: s.subrange(1, n - 1),
                }
            } else {
                TokenView::Word { span: span_of(pos, hi), word: s.take(n) }
            };
            if t.is_char(c) {
                assert(s.take(1) =~= seq![c]);
                assert(s.skip(1) =~= s.drop_first());
                lemma_byte_len_single(c);
            } else if t.is_quotation_mark(c) {
                assert(s[n - 1] == s.drop_first()[n - 2]);
                assert(tok.source() =~= s.take(n));
            }
            assert(lex_from(t, s, pos) == prepend(seq![tok], lex_from(t, s.skip(n), hi)));
            assert(lex_from(t, s.skip(n), hi) is Ok);
            lemma_lex_from_tiles(t, s.skip(n), hi);
            let rest = lex_from(t, s.skip(n), hi)->Ok_0;
            lemma_prepend_one(tok, lex_from(t, s.skip(n), hi));
            assert(tok.source() =~= s.take(n));
        }
    }
}

/// A successful lexing partitions the input: every character is either a
/// skipped space or part of exactly one token, tokens come in input order,
/// and their spans cover exactly the bytes of their characters, with no gap
/// but spaces and no overlap.
pub proof fn lemma_lex_partitions_input(t: CharTable, s: Seq<char>)
    requires
        byte_len(s) <= usize::MAX,
        lex_spec(t, s) is Ok,
    ensures
        tiles(t, s, 0, lex_spec(t, s)->Ok_0),
{
    lemma_lex_from_tiles(t, s, 0);
}

proof fn lemma_tiles_widths(t: CharTable, s: Seq<char>, pos: nat, ts: Seq<TokenView>)
    requires
        tiles(t, s, pos, ts),
    ensures
        forall|k: int|
            0 <= k < ts.len() ==> #[trigger] ts[k].span().hi - ts[k].span().lo == byte_len(
                ts[k].source(),
            ),
    decreases s.len(),
{
    if s.len() > 0 {
        if ts.len() > 0 && ts[0].span().lo == pos {
            let n = ts[0].source().len();
            lemma_tiles_widths(t, s.skip(n as int), pos + byte_len(ts[0].source()), ts.drop_first());
            assert forall|k: int| 0 <= k < ts.len() implies #[trigger] ts[k].span().hi
                - ts[k].span().lo == byte_len(ts[k].source()) by {
                if k > 0 {
                    assert(ts[k] == ts.drop_first()[k - 1]);
                }
            }
        } else {
            lemma_tiles_widths(t, s.drop_first(), pos + width(s[0]), ts);
        }
    }
}

/// Spans measure bytes of the encoding: each token's span is as wide as the
/// UTF-8 encoding of its characters, and a special character's token as
/// wide as that character's encoding, whatever its width.
pub proof fn lemma_span_widths(t: CharTable, s: Seq<char>)
    requires
        byte_len(s) <= usize::MAX,
        lex_spec(t, s) is Ok,
    ensures
        forall|k: int|
            0 <= k < lex_spec(t, s)->Ok_0.len() ==> #[trigger] lex_spec(t, s)->Ok_0[k].span().hi
                - lex_spec(t, s)->Ok_0[k].span().lo == byte_len(lex_spec(t, s)->Ok_0[k].source()),
        forall|k: int|
            0 <= k < lex_spec(t, s)->Ok_0.len() ==> (#[trigger] lex_spec(t, s)->Ok_0[k] matches TokenView::Char {
                span,
                ch,
            } ==> span.hi - span.lo == width(ch)),
{
    let ts = lex_spec(t, s)->Ok_0;
    lemma_lex_partitions_input(t, s);
    lemma_tiles_widths(t, s, 0, ts);
    assert forall|k: int| 0 <= k < ts.len() implies (#[trigger] ts[k] matches TokenView::Char {
        span,
        ch,
    } ==> span.hi - span.lo == width(ch)) by {
        if let TokenView::Char { span, ch } = ts[k] {
            lemma_byte_len_single(ch);
            assert(ts[k].span().hi - ts[k].span().lo == byte_len(ts[k].source()));
        }
    }
}

/// A character registered both as a special character and as a quotation
/// mark (and not as a space) is lexed as a special character: it never
/// opens a quotation.
pub proof fn lemma_char_wins_over_quotation(t: CharTable, c: char, rest: Seq<char>, pos: nat)
    requires
        t.is_char(c),
        t.is_quotation_mark(c),
        !t.is_space(c),
    ensures
        lex_from(t, seq![c] + rest, pos) == prepend(
            seq![TokenView::Char { span: span_of(pos, pos + width(c)), ch: c }],
            lex_from(t, rest, pos + width(c)),
        ),
{
    assert((seq![c] + rest).drop_first() =~= rest);
}

/// Lexing is deterministic: two runs on the same table and input give the
/// same tokens, or the same error.
pub proof fn lemma_lex_deterministic<'a>(
    t: CharTable,
    input: &'a str,
    r1: Result<Vec<Token<'a>>, LexError>,
    r2: Result<Vec<Token<'a>>, LexError>,
)
    requires
        result_view(r1) == lex_spec(t, input@),
        result_view(r2) == lex_spec(t, input@),
    ensures
        result_view(r1) == result_view(r2),
{
}

/// The text of a quotation is handed back verbatim: when `body` runs up to
/// the first unescaped closing mark, the token's text is `body` itself,
/// backslashes and escaped characters included.
pub proof fn lemma_quotation_verbatim(
    t: CharTable,
    q: char,
    body: Seq<char>,
    rest: Seq<char>,
    pos: nat,
)
    requires
        t.is_quotation_mark(q),
        !t.is_char(q),
        !t.is_space(q),
        quote_end(body + seq![q] + rest, q) == Some(body.len()),
    ensures
        ({
            let s = seq![q] + body + seq![q] + rest;
            let hi = pos + byte_len(seq![q] + body + seq![q]);
            lex_from(t, s, pos) == prepend(
                seq![
                    TokenView::Quotation {
                        span: span_of(pos, hi),
                        quotation_mark: q,
                        string: body,
                    },
                ],
                lex_from(t, rest, hi),
            )
        }),
{
    let s = seq![q] + body + seq![q] + rest;
    let n = body.len() + 2;
    assert(s.drop_first() =~= body + seq![q] + rest);
    assert(s.take(n as int) =~= seq![q] + body + seq![q]);
    assert(s.subrange(1, body.len() + 1 as int) =~= body);
    assert(s.skip(n as int) =~= rest);
}

/// Input made of spaces alone, the empty input included, gives no token
/// and no error.
pub proof fn lemma_blank_input(t: CharTable, s: Seq<char>, pos: nat)
    requires
        forall|i: int| 0 <= i < s.len() ==> t.is_space(#[trigger] s[i]),
    ensures
        lex_from(t, s, pos) == Ok::<Seq<TokenView>, LexError>(seq![]),
    decreases s.len(),
{
    if s.len() > 0 {
        assert forall|i: int| 0 <= i < s.drop_first().len() implies t.is_space(
            #[trigger] s.drop_first()[i],
        ) by {
            assert(s.drop_first()[i] == s[i + 1]);
        }
        lemma_blank_input(t, s.drop_first(), pos + width(s[0]));
    }
}

/// Tokens that tile `s` from byte `pos` lie in order within its bytes, and
/// each spans exactly the encoding of its source characters.
pub open spec fn spans_in_bytes(s: Seq<char>, pos: nat, ts: Seq<TokenView>) -> bool {
    &&& forall|k: int|
        0 <= k < ts.len() ==> {
            &&& pos <= (#[trigger] ts[k]).span().lo <= ts[k].span().hi <= pos + byte_len(s)
            &&& encode_utf8(s).subrange(ts[k].span().lo - pos, ts[k].span().hi - pos)
                == encode_utf8(ts[k].source())
        }
    &&& forall|k: int| 0 <= k < ts.len() - 1 ==> (#[trigger] ts[k]).span().hi <= ts[k + 1].span().lo
}

proof fn lemma_tiles_spans_in_bytes(t: CharTable, s: Seq<char>, pos: nat, ts: Seq<TokenView>)
    requires
        tiles(t, s, pos, ts),
    ensures
        spans_in_bytes(s, pos, ts),
    decreases s.len(),
{
    if s.len() > 0 {
        if ts.len() > 0 && ts[0].span().lo == pos {
            let src = ts[0].source();
            let n = src.len() as int;
            let off = byte_len(src);
            let tail = ts.drop_first();
            lemma_tiles_spans_in_bytes(t, s.skip(n), pos + off, tail);
            assert(s =~= s.take(n) + s.skip(n));
            lemma_encode_concat(s.take(n), s.skip(n));
            let e = encode_utf8(s);
            assert(e.subrange(0, off as int) =~= encode_utf8(src));
            assert forall|k: int| 0 <= k < ts.len() implies {
                &&& pos <= (#[trigger] ts[k]).span().lo <= ts[k].span().hi <= pos + byte_len(s)
                &&& encode_utf8(s).subrange(ts[k].span().lo - pos, ts[k].span().hi - pos)
                    == encode_utf8(ts[k].source())
            } by {
                if k > 0 {
                    assert(ts[k] == tail[k - 1]);
                    let a = ts[k].span().lo - pos - off;
                    let b = ts[k].span().hi - pos - off;
                    assert(e.subrange(a + off, b + off) =~= encode_utf8(s.skip(n)).subrange(a, b));
                }
            }
            assert forall|k: int| 0 <= k < ts.len() - 1 implies (#[trigger] ts[k]).span().hi
                <= ts[k + 1].span().lo by {
                assert(ts[k + 1] == tail[k]);
                if k > 0 {
                    assert(ts[k] == tail[k - 1]);
                }
            }
        } else {
            let c = s[0];
            let w = width(c);
            lemma_tiles_spans_in_bytes(t, s.drop_first(), pos + w, ts);
            assert(s =~= seq![c] + s.drop_first());
            lemma_encode_concat(seq![c], s.drop_first());
            lemma_byte_len_single(c);
            let e = encode_utf8(s);
            assert forall|k: int| 0 <= k < ts.len() implies {
                &&& pos <= (#[trigger] ts[k]).span().lo <= ts[k].span().hi <= pos + byte_len(s)
                &&& encode_utf8(s).subrange(ts[k].span().lo - pos, ts[k].span().hi - pos)
                    == encode_utf8(ts[k].source())
            } by {
                let a = ts[k].span().lo - pos - w;
                let b = ts[k].span().hi - pos - w;
                assert(e.subrange(a + w, b + w) =~= encode_utf8(s.drop_first()).subrange(a, b));
            }
        }
    }
}

/// Coverage in bytes: after a successful lexing, the token spans lie in
/// increasing, non-overlapping order within `[0, len)` of the input's
/// UTF-8 bytes, and the bytes under each span are exactly the encoding of
/// the token's source characters (delimiters included); what lies between
/// them is skipped spaces, as `tiles` states.
pub proof fn lemma_spans_cover_bytes(t: CharTable, s: Seq<char>)
    requires
        byte_len(s) <= usize::MAX,
        lex_spec(t, s) is Ok,
    ensures
        tiles(t, s, 0, lex_spec(t, s)->Ok_0),
        spans_in_bytes(s, 0, lex_spec(t, s)->Ok_0),
{
    lemma_lex_partitions_input(t, s);
    lemma_tiles_spans_in_bytes(t, s, 0, lex_spec(t, s)->Ok_0);
}

} // verus!
