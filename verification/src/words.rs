//! Word tokenizer: finds the words of a string as ranges of byte offsets.
//!
//! A word starts at an alphanumeric character and runs on through
//! alphanumeric characters and hyphens. In a string whose format is `c`,
//! printf-style conversion specifiers are stepped over, so that the text
//! inside them is never taken for a word.

use crate::c_format::{
    get_index_end_c_format, lemma_specifier_end_bounds, lemma_specifier_end_is_boundary,
    specifier_end, PERCENT,
};
use crate::text::{
    bytes_left, char_at, char_is_alphanumeric, char_len_at, char_width, decode_char, is_alphanumeric,
    is_word_char, lemma_char_len_bounds, lemma_char_step, str_eq, HYPHEN,
};
use vstd::prelude::*;
use vstd::string::*;
use vstd::utf8::*;

verus! {

/// Where scanning goes on after the `%` at `pos`: behind a second `%`, or
/// else behind the conversion specifier that the `%` opens.
pub open spec fn percent_end(bytes: Seq<u8>, pos: int) -> int {
    if pos + 1 < bytes.len() && bytes[pos + 1] == PERCENT {
        pos + 2
    } else {
        specifier_end(bytes, pos + 1, bytes.len() as int)
    }
}

/// Where the first word at or after `pos` starts, or the length of the text
/// where there is none. `skip` says whether conversion specifiers are
/// stepped over.
pub open spec fn word_start(bytes: Seq<u8>, skip: bool, pos: int) -> int
    decreases bytes_left(bytes, pos),
    via word_start_decreases
{
    if pos < 0 || pos >= bytes.len() {
        bytes.len() as int
    } else if skip && bytes[pos] == PERCENT {
        word_start(bytes, skip, percent_end(bytes, pos))
    } else if is_alphanumeric(char_at(bytes, pos)) {
        pos
    } else {
        word_start(bytes, skip, pos + char_len_at(bytes, pos))
    }
}

#[via_fn]
proof fn word_start_decreases(bytes: Seq<u8>, skip: bool, pos: int) {
    if 0 <= pos < bytes.len() {
        lemma_specifier_end_bounds(bytes, pos + 1, bytes.len() as int);
        lemma_char_len_bounds(bytes, pos);
    }
}

/// Where the run of word characters that holds `pos` ends.
pub open spec fn word_end(bytes: Seq<u8>, pos: int) -> int
    decreases bytes_left(bytes, pos),
    via word_end_decreases
{
    if 0 <= pos < bytes.len() && is_word_char(char_at(bytes, pos)) {
        word_end(bytes, pos + char_len_at(bytes, pos))
    } else {
        pos
    }
}

#[via_fn]
proof fn word_end_decreases(bytes: Seq<u8>, pos: int) {
    lemma_char_len_bounds(bytes, pos);
}

/// The first word at or after `pos`, as the byte offsets of its start and
/// of its end.
pub open spec fn next_word(bytes: Seq<u8>, skip: bool, pos: int) -> Option<(int, int)> {
    let start = word_start(bytes, skip, pos);
    if start < bytes.len() {
        Some((start, word_end(bytes, start)))
    } else {
        None
    }
}

/// Where the tokenizer stands after it has looked for the first word at or
/// after `pos`: at the end of that word, or at the end of the text.
pub open spec fn next_pos(bytes: Seq<u8>, skip: bool, pos: int) -> int {
    match next_word(bytes, skip, pos) {
        Some((_, end)) => end,
        None => if 0 <= pos <= bytes.len() {
            bytes.len() as int
        } else {
            pos
        },
    }
}

/// All the words at or after `pos`, in the order of the text.
pub open spec fn words_from(bytes: Seq<u8>, skip: bool, pos: int) -> Seq<(int, int)>
    decreases bytes_left(bytes, pos),
    via words_from_decreases
{
    match next_word(bytes, skip, pos) {
        Some((start, end)) => seq![(start, end)] + words_from(bytes, skip, end),
        None => Seq::empty(),
    }
}

#[via_fn]
proof fn words_from_decreases(bytes: Seq<u8>, skip: bool, pos: int) {
    lemma_word_start(bytes, skip, pos);
    let start = word_start(bytes, skip, pos);
    if start < bytes.len() {
        lemma_char_len_bounds(bytes, start);
        lemma_word_end(bytes, start + char_len_at(bytes, start));
    }
}

/// The words of a whole text.
pub open spec fn words_of(bytes: Seq<u8>, skip: bool) -> Seq<(int, int)> {
    words_from(bytes, skip, 0)
}

/// A word starts at or after the position the search began at, and at an
/// alphanumeric character.
pub proof fn lemma_word_start(bytes: Seq<u8>, skip: bool, pos: int)
    ensures
        0 <= pos <= bytes.len() ==> pos <= word_start(bytes, skip, pos) <= bytes.len(),
        !(0 <= pos <= bytes.len()) ==> word_start(bytes, skip, pos) == bytes.len(),
        word_start(bytes, skip, pos) < bytes.len() ==> is_alphanumeric(
            char_at(bytes, word_start(bytes, skip, pos)),
        ),
    decreases bytes_left(bytes, pos),
{
    if pos < 0 || pos >= bytes.len() {
    } else if skip && bytes[pos] == PERCENT {
        lemma_specifier_end_bounds(bytes, pos + 1, bytes.len() as int);
        lemma_word_start(bytes, skip, percent_end(bytes, pos));
    } else if is_alphanumeric(char_at(bytes, pos)) {
    } else {
        lemma_char_len_bounds(bytes, pos);
        lemma_word_start(bytes, skip, pos + char_len_at(bytes, pos));
    }
}

/// A run of word characters ends at or after the position it was entered at.
pub proof fn lemma_word_end(bytes: Seq<u8>, pos: int)
    ensures
        pos <= word_end(bytes, pos),
    decreases bytes_left(bytes, pos),
{
    if 0 <= pos < bytes.len() && is_word_char(char_at(bytes, pos)) {
        lemma_char_len_bounds(bytes, pos);
        lemma_word_end(bytes, pos + char_len_at(bytes, pos));
    }
}

/// A word that is found lies within the text, at or after the position the
/// search began at, and is not empty.
pub proof fn lemma_next_word(bytes: Seq<u8>, skip: bool, pos: int)
    requires
        0 <= pos <= bytes.len(),
    ensures
        match next_word(bytes, skip, pos) {
            Some((start, end)) => pos <= start < end && start < bytes.len(),
            None => true,
        },
{
    lemma_word_start(bytes, skip, pos);
    let start = word_start(bytes, skip, pos);
    if start < bytes.len() {
        lemma_char_len_bounds(bytes, start);
        lemma_word_end(bytes, start + char_len_at(bytes, start));
    }
}

/// What makes the bytes from `start` up to `end` a word of the text: they
/// are whole characters, the first of them alphanumeric and all of them word
/// characters, and the character after them, if there is one, is none.
pub open spec fn is_word(bytes: Seq<u8>, start: int, end: int) -> bool {
    &&& 0 <= start < end <= bytes.len()
    &&& is_char_boundary(bytes, start)
    &&& is_char_boundary(bytes, end)
    &&& is_alphanumeric(char_at(bytes, start))
    &&& forall|i: int|
        start <= i < end && #[trigger] is_char_boundary(bytes, i) ==> is_word_char(
            char_at(bytes, i),
        )
    &&& end < bytes.len() ==> !is_word_char(char_at(bytes, end))
}

/// On well-formed UTF-8 the search for a word's start moves from character
/// boundary to character boundary.
pub proof fn lemma_word_start_is_boundary(bytes: Seq<u8>, skip: bool, pos: int)
    requires
        valid_utf8(bytes),
        is_char_boundary(bytes, pos),
        0 <= pos <= bytes.len(),
    ensures
        is_char_boundary(bytes, word_start(bytes, skip, pos)),
    decreases bytes_left(bytes, pos),
{
    if pos >= bytes.len() {
    } else if skip && bytes[pos] == PERCENT {
        lemma_char_step(bytes, pos);
        lemma_specifier_end_bounds(bytes, pos + 1, bytes.len() as int);
        lemma_specifier_end_is_boundary(bytes, pos + 1);
        if pos + 1 < bytes.len() && bytes[pos + 1] == PERCENT {
            lemma_char_step(bytes, pos + 1);
        }
        lemma_word_start_is_boundary(bytes, skip, percent_end(bytes, pos));
    } else if is_alphanumeric(char_at(bytes, pos)) {
    } else {
        lemma_char_step(bytes, pos);
        lemma_word_start_is_boundary(bytes, skip, pos + char_len_at(bytes, pos));
    }
}

/// On well-formed UTF-8 a run of word characters ends within the text, at a
/// character boundary; up to there every character is a word character, and
/// the character there, if there is one, is none.
pub proof fn lemma_word_end_is_maximal(bytes: Seq<u8>, pos: int)
    requires
        valid_utf8(bytes),
        is_char_boundary(bytes, pos),
        0 <= pos <= bytes.len(),
    ensures
        pos <= word_end(bytes, pos) <= bytes.len(),
        is_char_boundary(bytes, word_end(bytes, pos)),
        forall|i: int|
            pos <= i < word_end(bytes, pos) && #[trigger] is_char_boundary(bytes, i)
                ==> is_word_char(char_at(bytes, i)),
        word_end(bytes, pos) < bytes.len() ==> !is_word_char(
            char_at(bytes, word_end(bytes, pos)),
        ),
    decreases bytes_left(bytes, pos),
{
    if pos < bytes.len() && is_word_char(char_at(bytes, pos)) {
        lemma_char_step(bytes, pos);
        lemma_word_end_is_maximal(bytes, pos + char_len_at(bytes, pos));
    }
}

/// On well-formed UTF-8 what `next_word` finds is a word of the text.
pub proof fn lemma_next_word_is_word(bytes: Seq<u8>, skip: bool, pos: int)
    requires
        valid_utf8(bytes),
        is_char_boundary(bytes, pos),
        0 <= pos <= bytes.len(),
    ensures
        match next_word(bytes, skip, pos) {
            Some((start, end)) => pos <= start && is_word(bytes, start, end),
            None => true,
        },
        is_char_boundary(bytes, next_pos(bytes, skip, pos)),
        pos <= next_pos(bytes, skip, pos) <= bytes.len(),
{
    lemma_word_start(bytes, skip, pos);
    lemma_word_start_is_boundary(bytes, skip, pos);
    let start = word_start(bytes, skip, pos);
    if start < bytes.len() {
        lemma_char_step(bytes, start);
        lemma_word_end_is_maximal(bytes, start);
    } else {
        is_char_boundary_start_end_of_seq(bytes);
    }
}

/// On well-formed UTF-8 every span that the tokenizer yields is a word of
/// the text, and the words come in the order of the text, apart from one
/// another.
pub proof fn lemma_words_are_words(bytes: Seq<u8>, skip: bool, pos: int)
    requires
        valid_utf8(bytes),
        is_char_boundary(bytes, pos),
        0 <= pos <= bytes.len(),
    ensures
        forall|i: int|
            0 <= i < words_from(bytes, skip, pos).len() ==> {
                let word = #[trigger] words_from(bytes, skip, pos)[i];
                pos <= word.0 && is_word(bytes, word.0, word.1)
            },
        forall|i: int, j: int|
            0 <= i < j < words_from(bytes, skip, pos).len() ==> (#[trigger] words_from(
                bytes,
                skip,
                pos,
            )[i]).1 < (#[trigger] words_from(bytes, skip, pos)[j]).0,
    decreases bytes_left(bytes, pos),
{
    lemma_next_word_is_word(bytes, skip, pos);
    match next_word(bytes, skip, pos) {
        Some((start, end)) => {
            lemma_words_are_words(bytes, skip, end);
            let all = words_from(bytes, skip, pos);
            let rest = words_from(bytes, skip, end);
            assert(all =~= seq![(start, end)] + rest);
            assert forall|i: int| 0 <= i < all.len() implies {
                let word = #[trigger] all[i];
                pos <= word.0 && is_word(bytes, word.0, word.1)
            } by {
                if i > 0 {
                    assert(all[i] == rest[i - 1]);
                }
            }
            assert forall|i: int, j: int| 0 <= i < j < all.len() implies (#[trigger] all[i]).1 < (
            #[trigger] all[j]).0 by {
                assert(all[j] == rest[j - 1]);
                if i > 0 {
                    assert(all[i] == rest[i - 1]);
                } else {
                    // the word after this one starts behind a character that is no word character
                    lemma_word_start(bytes, skip, end);
                    let next = rest[j - 1].0;
                    assert(end <= rest[0].0 <= next) by {
                        if j - 1 > 0 {
                            assert(rest[0].1 < rest[j - 1].0);
                        }
                    }
                    assert(rest[0].0 == word_start(bytes, skip, end));
                    assert(rest[0].0 != end);
                }
            }
        },
        None => {},
    }
}

/// A text without an alphanumeric character holds no word.
pub proof fn lemma_no_alphanumeric_no_words(bytes: Seq<u8>, skip: bool)
    requires
        valid_utf8(bytes),
        forall|i: int|
            0 <= i < bytes.len() && #[trigger] is_char_boundary(bytes, i) ==> !is_alphanumeric(
                char_at(bytes, i),
            ),
    ensures
        words_of(bytes, skip) == Seq::<(int, int)>::empty(),
{
    is_char_boundary_start_end_of_seq(bytes);
    lemma_next_word_is_word(bytes, skip, 0);
}

/// No word holds a percent sign, and no word starts with a hyphen.
pub proof fn lemma_word_has_no_percent(bytes: Seq<u8>, start: int, end: int)
    requires
        valid_utf8(bytes),
        is_word(bytes, start, end),
    ensures
        forall|i: int| start <= i < end ==> #[trigger] bytes[i] != PERCENT,
        bytes[start] != HYPHEN,
{
    lemma_char_step(bytes, start);
    assert forall|i: int| start <= i < end implies #[trigger] bytes[i] != PERCENT by {
        is_char_boundary_iff_not_is_continuation_byte(bytes, i);
        if is_char_boundary(bytes, i) {
            lemma_char_step(bytes, i);
        }
    }
}

/// Once no word is left, none is found again: the search stays at the end
/// of the text.
pub proof fn lemma_exhausted_stays_exhausted(bytes: Seq<u8>, skip: bool, pos: int)
    requires
        0 <= pos <= bytes.len(),
        next_word(bytes, skip, pos) is None,
    ensures
        next_pos(bytes, skip, pos) == bytes.len(),
        next_word(bytes, skip, next_pos(bytes, skip, pos)) is None,
        next_pos(bytes, skip, next_pos(bytes, skip, pos)) == bytes.len(),
        words_from(bytes, skip, pos) == Seq::<(int, int)>::empty(),
{
}

/// Where the text is read as it stands, the search for a word's start stops
/// at the first alphanumeric character.
pub proof fn lemma_plain_word_start(bytes: Seq<u8>, pos: int, at: int)
    requires
        valid_utf8(bytes),
        is_char_boundary(bytes, pos),
        is_char_boundary(bytes, at),
        0 <= pos <= at < bytes.len(),
        is_alphanumeric(char_at(bytes, at)),
    ensures
        pos <= word_start(bytes, false, pos) <= at,
    decreases bytes_left(bytes, pos),
{
    if !is_alphanumeric(char_at(bytes, pos)) {
        lemma_char_step(bytes, pos);
        lemma_plain_word_start(bytes, pos + char_len_at(bytes, pos), at);
    }
}

/// Where the text is read as it stands, every alphanumeric character lies
/// in a word: no part of the text is passed over.
pub proof fn lemma_plain_words_cover_alphanumerics(bytes: Seq<u8>, pos: int, at: int)
    requires
        valid_utf8(bytes),
        is_char_boundary(bytes, pos),
        is_char_boundary(bytes, at),
        0 <= pos <= at < bytes.len(),
        is_alphanumeric(char_at(bytes, at)),
    ensures
        exists|k: int|
            0 <= k < words_from(bytes, false, pos).len() && (#[trigger] words_from(
                bytes,
                false,
                pos,
            )[k]).0 <= at < words_from(bytes, false, pos)[k].1,
    decreases bytes_left(bytes, pos),
{
    lemma_plain_word_start(bytes, pos, at);
    lemma_next_word_is_word(bytes, false, pos);
    let start = word_start(bytes, false, pos);
    let end = word_end(bytes, start);
    let all = words_from(bytes, false, pos);
    let rest = words_from(bytes, false, end);
    assert(all =~= seq![(start, end)] + rest);
    if at < end {
        assert(all[0] == (start, end));
    } else {
        lemma_plain_words_cover_alphanumerics(bytes, end, at);
        let k = choose|k: int| 0 <= k < rest.len() && (#[trigger] rest[k]).0 <= at < rest[k].1;
        assert(all[k + 1] == rest[k]);
    }
}

/// Where conversion specifiers are stepped over, a percent sign that the
/// search meets takes its specifier with it: the words from there on are
/// the words behind the specifier.
pub proof fn lemma_specifier_is_stepped_over(bytes: Seq<u8>, pos: int)
    requires
        0 <= pos < bytes.len(),
        bytes[pos] == PERCENT,
    ensures
        pos < percent_end(bytes, pos) <= bytes.len(),
        words_from(bytes, true, pos) == words_from(bytes, true, percent_end(bytes, pos)),
{
    lemma_specifier_end_bounds(bytes, pos + 1, bytes.len() as int);
}

/// In a text without a percent sign the words are the same, whether
/// conversion specifiers are stepped over or not.
pub proof fn lemma_no_percent_same_words(bytes: Seq<u8>, pos: int)
    requires
        forall|i: int| 0 <= i < bytes.len() ==> bytes[i] != PERCENT,
    ensures
        words_from(bytes, true, pos) == words_from(bytes, false, pos),
    decreases bytes_left(bytes, pos),
{
    lemma_no_percent_same_word_start(bytes, pos);
    lemma_word_start(bytes, false, pos);
    let start = word_start(bytes, false, pos);
    if start < bytes.len() {
        lemma_char_len_bounds(bytes, start);
        lemma_word_end(bytes, start + char_len_at(bytes, start));
        lemma_no_percent_same_words(bytes, word_end(bytes, start));
    }
}

proof fn lemma_no_percent_same_word_start(bytes: Seq<u8>, pos: int)
    requires
        forall|i: int| 0 <= i < bytes.len() ==> bytes[i] != PERCENT,
    ensures
        word_start(bytes, true, pos) == word_start(bytes, false, pos),
    decreases bytes_left(bytes, pos),
{
    if 0 <= pos < bytes.len() && !is_alphanumeric(char_at(bytes, pos)) {
        lemma_char_len_bounds(bytes, pos);
        lemma_no_percent_same_word_start(bytes, pos + char_len_at(bytes, pos));
    }
}

/// What a tokenizer is, to its callers: the text it reads, whether it steps
/// over conversion specifiers, and the byte offset it has reached.
pub struct Cursor {
    pub bytes: Seq<u8>,
    pub skip_c_format: bool,
    pub pos: int,
}

impl Cursor {
    /// The word that the next call of `next` yields.
    pub open spec fn next_word(self) -> Option<(int, int)> {
        next_word(self.bytes, self.skip_c_format, self.pos)
    }

    /// The tokenizer after that call.
    pub open spec fn advance(self) -> Cursor {
        Cursor { pos: next_pos(self.bytes, self.skip_c_format, self.pos), ..self }
    }

    /// The words that are still to come.
    pub open spec fn remaining(self) -> Seq<(int, int)> {
        words_from(self.bytes, self.skip_c_format, self.pos)
    }
}

/// A list of words as the tokenizer hands it out, read as pairs of integers.
pub open spec fn spans(words: Seq<(usize, usize)>) -> Seq<(int, int)> {
    words.map_values(|w: (usize, usize)| (w.0 as int, w.1 as int))
}

/// Tokenizer over one string. It is read once, front to back: to read the
/// string again, make a new one.
pub struct WordPos<'a> {
    s: &'a str,
    bytes: &'a [u8],
    len: usize,
    skip_c_format: bool,
    pos: usize,
}

impl<'a> View for WordPos<'a> {
    type V = Cursor;

    closed spec fn view(&self) -> Cursor {
        Cursor { bytes: self.bytes@, skip_c_format: self.skip_c_format, pos: self.pos as int }
    }
}

impl<'a> WordPos<'a> {
    #[verifier::type_invariant]
    spec fn well_formed(self) -> bool {
        &&& self.bytes@ == self.s.spec_bytes()
        &&& self.len == self.bytes@.len()
        &&& self.pos <= self.len
        &&& is_char_boundary(self.bytes@, self.pos as int)
    }

    /// Makes a tokenizer that stands at the start of `s`.
    ///
    /// With the format `c` conversion specifiers are stepped over; with any
    /// other format, the empty one too, the text is read as it stands.
    pub fn new(s: &'a str, format: &str) -> (words: Self)
        ensures
            words@ == (Cursor { bytes: s.spec_bytes(), skip_c_format: format@ == "c"@, pos: 0 }),
            words@.remaining() == words_of(s.spec_bytes(), format@ == "c"@),
    {
        broadcast use {encode_utf8_valid_utf8, is_char_boundary_start_end_of_seq};

        let bytes = s.as_bytes();
        let len = bytes.len();
        WordPos { s, bytes, len, skip_c_format: str_eq(format, "c"), pos: 0 }
    }

    /// Yields the next word, as the byte offsets of its start and of its
    /// end, or `None` when the text holds no further word.
    ///
    /// The offsets lie on character boundaries of the text, so the word can
    /// be cut out of it. After `None` every further call yields `None`.
    pub fn next(&mut self) -> (word: Option<(usize, usize)>)
        ensures
            match word {
                Some((start, end)) => {
                    &&& old(self)@.next_word() == Some((start as int, end as int))
                    &&& old(self)@.pos <= start
                    &&& is_word(old(self)@.bytes, start as int, end as int)
                },
                None => old(self)@.next_word() is None,
            },
            final(self)@ == old(self)@.advance(),
    {
        broadcast use encode_utf8_valid_utf8;

        proof {
            use_type_invariant(&*self);
            lemma_next_word_is_word(self.bytes@, self.skip_c_format, self.pos as int);
        }
        let s = self.s;
        let bytes = self.bytes;
        let len = self.len;
        let skip = self.skip_c_format;
        let ghost first = self.pos as int;
        let mut pos: usize = self.pos;
        let mut idx_start: Option<usize> = None;
        let mut idx_end: Option<usize> = None;
        while pos < len
            invariant
                *self == *old(self),
                bytes@ == s.spec_bytes(),
                valid_utf8(bytes@),
                len == bytes@.len(),
                first <= pos <= len,
                is_char_boundary(bytes@, pos as int),
                match idx_start {
                    None => idx_end is None && word_start(bytes@, skip, first) == word_start(
                        bytes@,
                        skip,
                        pos as int,
                    ),
                    Some(start) => {
                        &&& start == word_start(bytes@, skip, first)
                        &&& start < pos
                        &&& idx_end == Some(pos)
                        &&& word_end(bytes@, start as int) == word_end(bytes@, pos as int)
                    },
                },
            ensures
                *self == *old(self),
                first <= pos <= len,
                is_char_boundary(bytes@, pos as int),
                match idx_start {
                    None => idx_end is None && word_start(bytes@, skip, first) == len && pos == len,
                    Some(start) => {
                        &&& start == word_start(bytes@, skip, first)
                        &&& start < pos
                        &&& idx_end == Some(pos)
                        &&& word_end(bytes@, start as int) == pos
                    },
                },
            decreases len - pos,
        {
            if skip && idx_start.is_none() && bytes[pos] == PERCENT {
                proof {
                    lemma_char_step(bytes@, pos as int);
                    lemma_specifier_end_bounds(bytes@, pos + 1, len as int);
                    lemma_specifier_end_is_boundary(bytes@, pos + 1);
                    if pos + 1 < len && bytes@[pos + 1] == PERCENT {
                        lemma_char_step(bytes@, pos + 1);
                    }
                }
                pos += 1;
                if pos < len && bytes[pos] == PERCENT {
                    pos += 1;
                } else {
                    pos = get_index_end_c_format(bytes, pos, len);
                }
            } else {
                proof {
                    lemma_char_step(bytes@, pos as int);
                }
                let c = decode_char(s, pos);
                let len_c = char_width(c);
                if char_is_alphanumeric(c) || (idx_start.is_some() && c == '-') {
                    if idx_start.is_none() {
                        idx_start = Some(pos);
                    }
                    idx_end = Some(pos + len_c);
                } else if idx_start.is_some() {
                    break ;
                }
                pos += len_c;
            }
        }
        self.pos = pos;
        match (idx_start, idx_end) {
            (Some(start), Some(end)) => Some((start, end)),
            _ => None,
        }
    }

    /// Yields all the words that are still to come, in the order of the text.
    pub fn collect(self) -> (words: Vec<(usize, usize)>)
        ensures
            spans(words@) == self@.remaining(),
    {
        let ghost origin = self@;
        let ghost all = self@.remaining();
        let mut rest = self;
        let mut words: Vec<(usize, usize)> = Vec::new();
        assert(spans(words@) + rest@.remaining() =~= all);
        loop
            invariant
                rest@.bytes == origin.bytes,
                rest@.skip_c_format == origin.skip_c_format,
                spans(words@) + rest@.remaining() == all,
            ensures
                spans(words@) == all,
            decreases bytes_left(rest@.bytes, rest@.pos),
        {
            proof {
                use_type_invariant(&rest);
                lemma_next_word(rest@.bytes, rest@.skip_c_format, rest@.pos);
            }
            let ghost before = rest@;
            let ghost found = words@;
            match rest.next() {
                Some(word) => {
                    words.push(word);
                    proof {
                        let span = (word.0 as int, word.1 as int);
                        assert(spans(words@) =~= spans(found).push(span));
                        assert(spans(found).push(span) + rest@.remaining() =~= spans(found) + (
                        seq![span] + rest@.remaining()));
                    }
                },
                None => {
                    assert(spans(words@) + before.remaining() =~= spans(words@));
                    break ;
                },
            }
        }
        words
    }
}

} // verus!
