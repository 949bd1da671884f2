//! UTF-8 widths and byte offsets of character sequences, and the slicing of
//! `str` at the byte offsets of character positions.
use vstd::prelude::*;
use vstd::utf8::*;
use vstd::string::*;

verus! {

broadcast use {encode_utf8_valid_utf8, encode_utf8_decode_utf8};

/// Number of bytes in the UTF-8 encoding of `c`.
pub open spec fn width(c: char) -> nat {
    encode_scalar(c as u32).len()
}

/// Number of bytes in the UTF-8 encoding of `s`.
pub open spec fn byte_len(s: Seq<char>) -> nat {
    encode_utf8(s).len()
}

/// Byte offset, in the UTF-8 encoding of `s`, of the character at index `i`.
pub open spec fn byte_offset(s: Seq<char>, i: int) -> nat {
    byte_len(s.take(i))
}

pub proof fn lemma_width_bounds(c: char)
    ensures
        1 <= width(c) <= 4,
{
    char_is_scalar(c);
}

/// Encoding distributes over concatenation.
pub proof fn lemma_encode_concat(a: Seq<char>, b: Seq<char>)
    ensures
        encode_utf8(a + b) == encode_utf8(a) + encode_utf8(b),
    decreases a.len(),
{
    if a.len() == 0 {
        assert(a + b =~= b);
        assert(encode_utf8(a) + encode_utf8(b) =~= encode_utf8(b));
    } else {
        assert((a + b).drop_first() =~= a.drop_first() + b);
        lemma_encode_concat(a.drop_first(), b);
        assert(encode_utf8(a + b) =~= encode_utf8(a) + encode_utf8(b));
    }
}

pub proof fn lemma_byte_len_single(c: char)
    ensures
        byte_len(seq![c]) == width(c),
{
    assert(seq![c].drop_first() =~= Seq::<char>::empty());
    assert(encode_utf8(Seq::<char>::empty()) =~= Seq::<u8>::empty());
}

pub proof fn lemma_byte_len_concat(a: Seq<char>, b: Seq<char>)
    ensures
        byte_len(a + b) == byte_len(a) + byte_len(b),
{
    lemma_encode_concat(a, b);
}

/// Taking one more character adds its width to the byte offset.
pub proof fn lemma_byte_offset_step(s: Seq<char>, i: int)
    requires
        0 <= i < s.len(),
    ensures
        byte_offset(s, i + 1) == byte_offset(s, i) + width(s[i]),
{
    assert(s.take(i + 1) =~= s.take(i) + seq![s[i]]);
    lemma_byte_len_concat(s.take(i), seq![s[i]]);
    lemma_byte_len_single(s[i]);
}

/// Byte offsets of character positions grow strictly with the position.
pub proof fn lemma_byte_offset_mono(s: Seq<char>, i: int, j: int)
    requires
        0 <= i <= j <= s.len(),
    ensures
        byte_offset(s, i) + (j - i) <= byte_offset(s, j),
    decreases j - i,
{
    if i < j {
        lemma_byte_offset_mono(s, i, j - 1);
        lemma_byte_offset_step(s, j - 1);
        lemma_width_bounds(s[j - 1]);
    }
}

/// The whole sequence ends at its byte length.
pub proof fn lemma_byte_offset_full(s: Seq<char>)
    ensures
        byte_offset(s, s.len() as int) == byte_len(s),
{
    assert(s.take(s.len() as int) =~= s);
}

/// The encoding of a sequence splits at the byte offset of any position.
pub proof fn lemma_encode_split(s: Seq<char>, i: int)
    requires
        0 <= i <= s.len(),
    ensures
        encode_utf8(s).subrange(0, byte_offset(s, i) as int) == encode_utf8(s.take(i)),
        encode_utf8(s).subrange(byte_offset(s, i) as int, byte_len(s) as int)
            == encode_utf8(s.skip(i)),
{
    assert(s =~= s.take(i) + s.skip(i));
    lemma_encode_concat(s.take(i), s.skip(i));
    assert(encode_utf8(s).subrange(0, byte_offset(s, i) as int) =~= encode_utf8(s.take(i)));
    assert(encode_utf8(s).subrange(byte_offset(s, i) as int, byte_len(s) as int)
        =~= encode_utf8(s.skip(i)));
}

/// The byte offset of every character position is a character boundary.
pub proof fn lemma_offset_is_boundary(s: Seq<char>, i: int)
    requires
        0 <= i <= s.len(),
    ensures
        is_char_boundary(encode_utf8(s), byte_offset(s, i) as int),
    decreases i,
{
    let bytes = encode_utf8(s);
    if i == 0 {
        assert(s.take(0) =~= Seq::<char>::empty());
    } else {
        encode_utf8_first_scalar(s);
        let rest = s.drop_first();
        assert(s =~= seq![s[0]] + rest);
        lemma_encode_concat(seq![s[0]], rest);
        lemma_byte_len_single(s[0]);
        assert(pop_first_scalar(bytes) =~= encode_utf8(rest));
        assert(s.take(i) =~= seq![s[0]] + rest.take(i - 1));
        lemma_byte_len_concat(seq![s[0]], rest.take(i - 1));
        lemma_offset_is_boundary(rest, i - 1);
        lemma_byte_offset_mono(s, 0, i);
        assert(s.take(i).len() == i);
        lemma_encode_split(s, i);
    }
}

/// Two strings whose encodings agree hold the same characters.
pub proof fn lemma_same_bytes_same_chars(a: Seq<char>, b: Seq<char>)
    requires
        encode_utf8(a) == encode_utf8(b),
    ensures
        a == b,
{
    encode_utf8_decode_utf8(a);
    encode_utf8_decode_utf8(b);
}

/// Offsets add up: the offset of `i + m` in `s` is that of `i`, plus the
/// offset of `m` in what follows position `i`.
pub proof fn lemma_byte_offset_add(s: Seq<char>, i: int, m: int)
    requires
        0 <= i,
        0 <= m,
        i + m <= s.len(),
    ensures
        byte_offset(s, i + m) == byte_offset(s, i) + byte_offset(s.skip(i), m),
{
    assert(s.take(i + m) =~= s.take(i) + s.skip(i).take(m));
    lemma_byte_len_concat(s.take(i), s.skip(i).take(m));
}

/// Every offset lies within the encoding, and what follows it is the rest.
pub proof fn lemma_byte_offset_in_len(s: Seq<char>, i: int)
    requires
        0 <= i <= s.len(),
    ensures
        byte_offset(s, i) <= byte_len(s),
        byte_len(s.skip(i)) == byte_len(s) - byte_offset(s, i),
{
    lemma_byte_offset_mono(s, i, s.len() as int);
    lemma_byte_offset_full(s);
    lemma_encode_split(s, i);
}

/// Exact width of a character's UTF-8 encoding.
pub fn char_width(c: char) -> (r: usize)
    ensures
        r == width(c),
{
    proof {
        char_is_scalar(c);
    }
    let v = c as u32;
    if v <= 0x7F {
        1
    } else if v <= 0x7FF {
        2
    } else if v <= 0xFFFF {
        3
    } else {
        4
    }
}

/// The part of `s` after the first `i` characters, found by its byte offset.
pub fn skip_chars<'a>(s: &'a str, at: usize, Ghost(i): Ghost<int>) -> (r: &'a str)
    requires
        0 <= i <= s@.len(),
        at == byte_offset(s@, i),
    ensures
        r@ == s@.skip(i),
{
    proof {
        lemma_offset_is_boundary(s@, i);
        lemma_encode_split(s@, i);
    }
    let (_, tail) = s.split_at(at);
    proof {
        lemma_same_bytes_same_chars(tail@, s@.skip(i));
    }
    tail
}

/// The first `i` characters of `s`, found by their byte length.
pub fn take_chars<'a>(s: &'a str, at: usize, Ghost(i): Ghost<int>) -> (r: &'a str)
    requires
        0 <= i <= s@.len(),
        at == byte_offset(s@, i),
    ensures
        r@ == s@.take(i),
{
    proof {
        lemma_offset_is_boundary(s@, i);
        lemma_encode_split(s@, i);
    }
    let (head, _) = s.split_at(at);
    proof {
        lemma_same_bytes_same_chars(head@, s@.take(i));
    }
    head
}

/// The first character of `s`, if any.
pub fn first_char(s: &str) -> (r: Option<char>)
    ensures
        s@.len() == 0 ==> r is None,
        s@.len() > 0 ==> r == Some(s@[0]),
{
    let mut chars = s.chars();
    chars.next()
}

} // verus!
