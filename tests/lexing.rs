use lexing::{CharTable, LexError, Span, Token};

fn table() -> CharTable {
    CharTable::new()
        .quotation_mark('"')
        .space('\n')
        .space('\t')
        .space(' ')
        .char(';')
}

#[test]
fn test_lexing() -> Result<(), LexError> {
    let char_table = table();
    let input = r#"aa "sss" c;"#;
    let token_vec = char_table.lex(input)?;
    let mut iter = token_vec.iter();
    assert_eq!(iter.next().unwrap(), &Token::Word { span: Span { lo: 0, hi: 2 }, word: "aa" });
    assert_eq!(
        iter.next().unwrap(),
        &Token::Quotation { span: Span { lo: 3, hi: 8 }, quotation_mark: '"', string: "sss" }
    );
    assert_eq!(iter.next().unwrap(), &Token::Word { span: Span { lo: 9, hi: 10 }, word: "c" });
    assert_eq!(iter.next().unwrap(), &Token::Char { span: Span { lo: 10, hi: 11 }, ch: ';' });
    assert_eq!(iter.next(), None);
    Ok(())
}

#[test]
fn test_lexing_unicode() -> Result<(), LexError> {
    let char_table = CharTable::new().space('\n').space('\t').space(' ').char('「').char('」');
    let input = r#"子游曰「敢問其方」"#;
    let token_vec = char_table.lex(input)?;
    let mut iter = token_vec.iter();
    assert!(if let Some(Token::Word { word, .. }) = iter.next() { word == &"子游曰" } else { false });
    assert!(if let Some(Token::Char { ch, .. }) = iter.next() { ch == &'「' } else { false });
    assert!(if let Some(Token::Word { word, .. }) = iter.next() { word == &"敢問其方" } else { false });
    assert!(if let Some(Token::Char { ch, .. }) = iter.next() { ch == &'」' } else { false });
    assert_eq!(iter.next(), None);
    Ok(())
}

#[test]
fn test_error() -> Result<(), LexError> {
    let char_table = table();
    let input = r#"aa "sss c;"#;
    assert!(
        if let Err(LexError::QuotationMisMatch { quotation_mark, index }) = char_table.lex(input) {
            quotation_mark == '"' && index == 3
        } else {
            false
        }
    );
    Ok(())
}

#[test]
fn test_escape() -> Result<(), LexError> {
    let char_table = table();
    let input = r#"aa "s\"" c;"#;
    let token_vec = char_table.lex(input)?;
    let mut iter = token_vec.iter();
    assert_eq!(iter.next().unwrap(), &Token::Word { span: Span { lo: 0, hi: 2 }, word: "aa" });
    assert_eq!(
        iter.next().unwrap(),
        &Token::Quotation { span: Span { lo: 3, hi: 8 }, quotation_mark: '"', string: r#"s\""# }
    );
    assert_eq!(iter.next().unwrap(), &Token::Word { span: Span { lo: 9, hi: 10 }, word: "c" });
    assert_eq!(iter.next().unwrap(), &Token::Char { span: Span { lo: 10, hi: 11 }, ch: ';' });
    assert_eq!(iter.next(), None);
    Ok(())
}

#[test]
fn unicode_spans_measure_bytes() {
    let char_table = CharTable::new().space(' ').char('「').char('」');
    let token_vec = char_table.lex("子游曰「敢問其方」").unwrap();
    let spans: Vec<Span> = token_vec.iter().map(|t| t.span()).collect();
    assert_eq!(
        spans,
        vec![
            Span { lo: 0, hi: 9 },
            Span { lo: 9, hi: 12 },
            Span { lo: 12, hi: 24 },
            Span { lo: 24, hi: 27 },
        ]
    );
    assert_eq!(token_vec[1].len(), 3);
    assert_eq!(token_vec[2].len(), 12);
}

#[test]
fn multibyte_quotation_mark() {
    let char_table = CharTable::new().space(' ').quotation_mark('«');
    let token_vec = char_table.lex("x «é b« y").unwrap();
    assert_eq!(
        token_vec,
        vec![
            Token::Word { span: Span { lo: 0, hi: 1 }, word: "x" },
            Token::Quotation { span: Span { lo: 2, hi: 10 }, quotation_mark: '«', string: "é b" },
            Token::Word { span: Span { lo: 11, hi: 12 }, word: "y" },
        ]
    );
}

#[test]
fn char_wins_over_quotation_mark() {
    let char_table = CharTable::new().space(' ').quotation_mark('"').char('"');
    let token_vec = char_table.lex("a\"b\"").unwrap();
    assert_eq!(
        token_vec,
        vec![
            Token::Word { span: Span { lo: 0, hi: 1 }, word: "a" },
            Token::Char { span: Span { lo: 1, hi: 2 }, ch: '"' },
            Token::Word { span: Span { lo: 2, hi: 3 }, word: "b" },
            Token::Char { span: Span { lo: 3, hi: 4 }, ch: '"' },
        ]
    );
}

#[test]
fn space_wins_over_char() {
    let char_table = CharTable::new().space(' ').char(' ');
    assert_eq!(char_table.lex(" a ").unwrap(), vec![Token::Word { span: Span { lo: 1, hi: 2 }, word: "a" }]);
}

#[test]
fn lexing_twice_gives_the_same_tokens() {
    let char_table = table();
    let input = "f (x) \"y z\" ;w";
    assert_eq!(char_table.lex(input), char_table.lex(input));
    let input = "a \"open";
    assert_eq!(char_table.lex(input), char_table.lex(input));
}

#[test]
fn escapes_are_kept_verbatim() {
    let char_table = table();
    let token_vec = char_table.lex(r#""a\\b\n\"c""#).unwrap();
    assert_eq!(
        token_vec,
        vec![Token::Quotation { span: Span { lo: 0, hi: 11 }, quotation_mark: '"', string: r#"a\\b\n\"c"# }]
    );
}

#[test]
fn escaped_backslash_then_closing_mark() {
    let char_table = table();
    let token_vec = char_table.lex(r#""a\\" b"#).unwrap();
    assert_eq!(
        token_vec,
        vec![
            Token::Quotation { span: Span { lo: 0, hi: 5 }, quotation_mark: '"', string: r#"a\\"# },
            Token::Word { span: Span { lo: 6, hi: 7 }, word: "b" },
        ]
    );
}

#[test]
fn trailing_backslash_does_not_close() {
    let char_table = table();
    assert_eq!(
        char_table.lex("x \"abc\\"),
        Err(LexError::QuotationMisMatch { quotation_mark: '"', index: 2 })
    );
    assert_eq!(
        char_table.lex("\"abc\\\""),
        Err(LexError::QuotationMisMatch { quotation_mark: '"', index: 0 })
    );
}

#[test]
fn empty_input_gives_no_tokens() {
    assert_eq!(table().lex(""), Ok(vec![]));
}

#[test]
fn blank_input_gives_no_tokens() {
    assert_eq!(table().lex(" \t\n  \n"), Ok(vec![]));
}

#[test]
fn spans_and_spaces_cover_the_input() {
    let char_table = table();
    let input = "  ab;\t\"q r\"  cd ";
    let token_vec = char_table.lex(input).unwrap();
    let mut covered = vec![false; input.len()];
    let mut last = 0;
    for t in &token_vec {
        let span = t.span();
        assert!(span.lo >= last && span.lo < span.hi);
        for b in span.lo..span.hi {
            covered[b] = true;
        }
        last = span.hi;
    }
    for (b, c) in input.bytes().enumerate() {
        assert!(covered[b] || c == b' ' || c == b'\t');
    }
    assert_eq!(token_vec.len(), 4);
}

#[test]
fn word_stops_at_quotation_mark() {
    let char_table = table();
    assert_eq!(
        char_table.lex("ab\"c\"").unwrap(),
        vec![
            Token::Word { span: Span { lo: 0, hi: 2 }, word: "ab" },
            Token::Quotation { span: Span { lo: 2, hi: 5 }, quotation_mark: '"', string: "c" },
        ]
    );
}

#[test]
fn table_membership() {
    let t = table();
    assert!(t.quotation_mark_p('"'));
    assert!(!t.quotation_mark_p(';'));
    assert!(t.space_p('\t'));
    assert!(!t.space_p('a'));
    assert!(t.char_p(';'));
    assert!(!t.char_p('"'));
    let empty = CharTable::new();
    assert!(!empty.char_p(';') && !empty.space_p(' ') && !empty.quotation_mark_p('"'));
}

#[test]
fn span_and_token_len() {
    assert_eq!(Span { lo: 3, hi: 8 }.len(), 5);
    let t = Token::Char { span: Span { lo: 10, hi: 11 }, ch: ';' };
    assert_eq!(t.len(), 1);
    assert_eq!(t.span(), Span { lo: 10, hi: 11 });
}

#[test]
fn builders_fill_their_own_set() {
    let t = CharTable::new().quotation_mark('"').space(' ').char(';').char('「');
    assert_eq!(t.quotation_mark_set.len(), 1);
    assert_eq!(t.space_set.len(), 1);
    assert_eq!(t.char_set.len(), 2);
    assert!(t.char_set.contains(&('「' as u32)));
    assert!(!t.quotation_mark_set.contains(&(';' as u32)));
}

#[test]
fn cloned_table_lexes_alike() {
    let t = table();
    let c = t.clone();
    assert_eq!(c, t);
    let input = "aa \"sss\" c;";
    assert_eq!(c.lex(input), t.lex(input));
}
