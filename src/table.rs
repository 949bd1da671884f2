//! The character table: which characters are quotation marks, spaces and
//! special single-character tokens.
use vstd::prelude::*;
use std::collections::HashSet;

verus! {

broadcast use {
    vstd::std_specs::hash::group_hash_axioms,
    vstd::std_specs::hash::axiom_u32_obeys_hash_table_key_model,
    vstd::std_specs::hash::axiom_random_state_builds_valid_hashers,
};

/// Three sets of characters, each held by code point. A character in none
/// of them is a word character.
#[derive(Debug, PartialEq, Eq)]
pub struct CharTable {
    pub quotation_mark_set: HashSet<u32>,
    pub space_set: HashSet<u32>,
    pub char_set: HashSet<u32>,
}

/// Relies on `HashSet::clone`: the copy holds the same code points.
#[verifier::external_body]
fn copy_code_points(s: &HashSet<u32>) -> (r: HashSet<u32>)
    ensures
        r@ == s@,
{
    s.clone()
}

/// Distinct characters have distinct code points.
proof fn lemma_code_point_injective(c: char, ch: char)
    ensures
        (c as u32) == (ch as u32) ==> c == ch,
{
    vstd::utf8::char_u32_cast(c, c as u32);
    vstd::utf8::char_u32_cast(ch, ch as u32);
}

impl CharTable {
    pub open spec fn is_quotation_mark(&self, c: char) -> bool {
        self.quotation_mark_set@.contains(c as u32)
    }

    pub open spec fn is_space(&self, c: char) -> bool {
        self.space_set@.contains(c as u32)
    }

    pub open spec fn is_char(&self, c: char) -> bool {
        self.char_set@.contains(c as u32)
    }

    /// A character that belongs to words: in none of the three sets.
    pub open spec fn is_word_char(&self, c: char) -> bool {
        !self.is_space(c) && !self.is_char(c) && !self.is_quotation_mark(c)
    }

    /// An empty table: every character is a word character.
    pub fn new() -> (r: Self)
        ensures
            r.quotation_mark_set@ == Set::<u32>::empty(),
            r.space_set@ == Set::<u32>::empty(),
            r.char_set@ == Set::<u32>::empty(),
            forall|c: char| #[trigger] r.is_word_char(c),
    {
        CharTable {
            quotation_mark_set: HashSet::new(),
            space_set: HashSet::new(),
            char_set: HashSet::new(),
        }
    }

    /// The table with `ch` added to the quotation marks.
    pub fn quotation_mark(self, ch: char) -> (r: Self)
        ensures
            r.quotation_mark_set@ == self.quotation_mark_set@.insert(ch as u32),
            r.space_set@ == self.space_set@,
            r.char_set@ == self.char_set@,
            forall|c: char| #[trigger] r.is_quotation_mark(c) <==> (self.is_quotation_mark(c) || c == ch),
            forall|c: char| #[trigger] r.is_space(c) <==> self.is_space(c),
            forall|c: char| #[trigger] r.is_char(c) <==> self.is_char(c),
    {
        let ghost before = self;
        let mut t = self;
        t.quotation_mark_set.insert(ch as u32);
        assert forall|c: char| #[trigger] t.is_quotation_mark(c) <==> (before.is_quotation_mark(c) || c == ch) by {
            lemma_code_point_injective(c, ch);
        }
        t
    }

    /// The table with `ch` added to the spaces.
    pub fn space(self, ch: char) -> (r: Self)
        ensures
            r.space_set@ == self.space_set@.insert(ch as u32),
            r.quotation_mark_set@ == self.quotation_mark_set@,
            r.char_set@ == self.char_set@,
            forall|c: char| #[trigger] r.is_quotation_mark(c) <==> self.is_quotation_mark(c),
            forall|c: char| #[trigger] r.is_space(c) <==> (self.is_space(c) || c == ch),
            forall|c: char| #[trigger] r.is_char(c) <==> self.is_char(c),
    {
        let ghost before = self;
        let mut t = self;
        t.space_set.insert(ch as u32);
        assert forall|c: char| #[trigger] t.is_space(c) <==> (before.is_space(c) || c == ch) by {
            lemma_code_point_injective(c, ch);
        }
        t
    }

    /// The table with `ch` added to the special characters.
    pub fn char(self, ch: char) -> (r: Self)
        ensures
            r.char_set@ == self.char_set@.insert(ch as u32),
            r.quotation_mark_set@ == self.quotation_mark_set@,
            r.space_set@ == self.space_set@,
            forall|c: char| #[trigger] r.is_quotation_mark(c) <==> self.is_quotation_mark(c),
            forall|c: char| #[trigger] r.is_space(c) <==> self.is_space(c),
            forall|c: char| #[trigger] r.is_char(c) <==> (self.is_char(c) || c == ch),
    {
        let ghost before = self;
        let mut t = self;
        t.char_set.insert(ch as u32);
        assert forall|c: char| #[trigger] t.is_char(c) <==> (before.is_char(c) || c == ch) by {
            lemma_code_point_injective(c, ch);
        }
        t
    }

    /// Whether `ch` is a special character.
    pub fn char_p(&self, ch: char) -> (r: bool)
        ensures
            r == self.is_char(ch),
    {
        self.char_set.contains(&(ch as u32))
    }

    /// Whether `ch` is a space.
    pub fn space_p(&self, ch: char) -> (r: bool)
        ensures
            r == self.is_space(ch),
    {
        self.space_set.contains(&(ch as u32))
    }

    /// Whether `ch` is a quotation mark.
    pub fn quotation_mark_p(&self, ch: char) -> (r: bool)
        ensures
            r == self.is_quotation_mark(ch),
    {
        self.quotation_mark_set.contains(&(ch as u32))
    }
}

impl Clone for CharTable {
    /// A table with the same three sets.
    fn clone(&self) -> (r: Self)
        ensures
            r.quotation_mark_set@ == self.quotation_mark_set@,
            r.space_set@ == self.space_set@,
            r.char_set@ == self.char_set@,
    {
        CharTable {
            quotation_mark_set: copy_code_points(&self.quotation_mark_set),
            space_set: copy_code_points(&self.space_set),
            char_set: copy_code_points(&self.char_set),
        }
    }
}

} // verus!
