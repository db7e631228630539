//! Reading a string as UTF-8: the character at a byte offset, character
//! classes, substrings and comparison of strings.

use vstd::prelude::*;
use vstd::std_specs::iter::IteratorSpec;
use vstd::string::*;
use vstd::utf8::*;

verus! {

/// The ASCII code of the hyphen.
pub const HYPHEN: u8 = 0x2d;

/// What `bytes` holds from `pos` on.
pub open spec fn tail(bytes: Seq<u8>, pos: int) -> Seq<u8> {
    bytes.subrange(pos, bytes.len() as int)
}

/// How many bytes lie at or after `pos`.
pub open spec fn bytes_left(bytes: Seq<u8>, pos: int) -> nat {
    if pos < bytes.len() {
        (bytes.len() - pos) as nat
    } else {
        0
    }
}

/// The character whose encoding starts at `pos`.
pub open spec fn char_at(bytes: Seq<u8>, pos: int) -> char {
    decode_first_scalar(tail(bytes, pos)) as char
}

/// The number of bytes that the character at `pos` takes.
pub open spec fn char_len_at(bytes: Seq<u8>, pos: int) -> int {
    length_of_first_scalar(tail(bytes, pos))
}

/// A character takes from one to four bytes.
pub proof fn lemma_char_len_bounds(bytes: Seq<u8>, pos: int)
    ensures
        1 <= char_len_at(bytes, pos) <= 4,
{
}

/// The text that the bytes from `start` up to `end` encode.
pub open spec fn text_between(bytes: Seq<u8>, start: int, end: int) -> Seq<char> {
    decode_utf8(bytes.subrange(start, end))
}

/// What the standard library's `char::is_alphanumeric` answers for `c`:
/// whether Unicode classes the character as alphabetic or as a number.
pub uninterp spec fn unicode_alphanumeric(c: char) -> bool;

/// An ASCII letter or digit.
pub open spec fn is_ascii_alphanumeric(c: char) -> bool {
    ||| 0x30 <= c as u32 <= 0x39
    ||| 0x41 <= c as u32 <= 0x5a
    ||| 0x61 <= c as u32 <= 0x7a
}

/// A character that may start a word: an ASCII letter or digit, or a
/// character beyond ASCII that Unicode classes as alphabetic or numeric.
pub open spec fn is_alphanumeric(c: char) -> bool {
    if c as u32 <= 0x7f {
        is_ascii_alphanumeric(c)
    } else {
        unicode_alphanumeric(c)
    }
}

/// A character that may continue a word: an alphanumeric one, or a hyphen.
pub open spec fn is_word_char(c: char) -> bool {
    is_alphanumeric(c) || c as u32 == HYPHEN
}

/// Calls `char::is_alphanumeric`. Nothing is claimed of the answer but that
/// it depends on the character alone.
#[verifier::external_body]
fn unicode_is_alphanumeric(c: char) -> (yes: bool)
    ensures
        yes == unicode_alphanumeric(c),
{
    c.is_alphanumeric()
}

/// Whether `c` may start a word.
pub fn char_is_alphanumeric(c: char) -> (yes: bool)
    ensures
        yes == is_alphanumeric(c),
{
    let code: u32 = c as u32;
    if code <= 0x7f {
        (0x30 <= code && code <= 0x39) || (0x41 <= code && code <= 0x5a) || (0x61 <= code && code
            <= 0x7a)
    } else {
        unicode_is_alphanumeric(c)
    }
}

/// The number of bytes that `c` takes in UTF-8.
pub fn char_width(c: char) -> (width: usize)
    ensures
        width == encode_scalar(c as u32).len(),
        1 <= width <= 4,
{
    let code: u32 = c as u32;
    if code < 0x80 {
        1
    } else if code < 0x800 {
        2
    } else if code < 0x10000 {
        3
    } else {
        4
    }
}

/// The code point that a well-formed encoding holds is a Unicode scalar
/// value, so it is the code of a `char`.
pub proof fn lemma_first_scalar_is_char(bytes: Seq<u8>)
    requires
        valid_first_scalar(bytes),
    ensures
        is_scalar(decode_first_scalar(bytes)),
        (decode_first_scalar(bytes) as char) as u32 == decode_first_scalar(bytes),
{
    let b0 = bytes[0];
    if is_leading_byte_width_1(b0) {
        assert((b0 & 0x7f) as u32 <= 0x7f) by (bit_vector);
    } else if is_leading_byte_width_2(b0) {
        let b1 = bytes[1];
        assert((((b0 & 0x1f) as u32) << 6) | ((b1 & 0x3f) as u32) <= 0x7ff) by (bit_vector);
    } else if is_leading_byte_width_3(b0) {
        let b1 = bytes[1];
        let b2 = bytes[2];
        assert((((b0 & 0x0f) as u32) << 12) | (((b1 & 0x3f) as u32) << 6) | ((b2 & 0x3f) as u32)
            <= 0xffff) by (bit_vector);
    } else {
    }
}

/// In well-formed UTF-8 a whole character starts at every character boundary
/// before the end, and the next boundary is where that character's bytes end.
pub proof fn lemma_char_step(bytes: Seq<u8>, pos: int)
    requires
        valid_utf8(bytes),
        is_char_boundary(bytes, pos),
        0 <= pos < bytes.len(),
    ensures
        valid_utf8(tail(bytes, pos)),
        valid_first_scalar(tail(bytes, pos)),
        1 <= char_len_at(bytes, pos) <= 4,
        pos + char_len_at(bytes, pos) <= bytes.len(),
        is_char_boundary(bytes, pos + char_len_at(bytes, pos)),
        char_len_at(bytes, pos) == encode_scalar(char_at(bytes, pos) as u32).len(),
        char_at(bytes, pos) as u32 == decode_first_scalar(tail(bytes, pos)),
        text_between(bytes, pos, pos + char_len_at(bytes, pos)) == seq![char_at(bytes, pos)],
        forall|j: int|
            pos < j < pos + char_len_at(bytes, pos) ==> !#[trigger] is_char_boundary(bytes, j),
        bytes[pos] <= 0x7f <==> char_at(bytes, pos) as u32 <= 0x7f,
        bytes[pos] <= 0x7f ==> char_len_at(bytes, pos) == 1 && char_at(bytes, pos) as u32
            == bytes[pos],
{
    let rest = tail(bytes, pos);
    let k = char_len_at(bytes, pos);
    valid_utf8_split(bytes, pos);
    assert(valid_first_scalar(rest));
    assert(valid_utf8(pop_first_scalar(rest)));
    let after = pop_first_scalar(rest);
    assert(after =~= tail(bytes, pos + k));
    // the next boundary
    if pos + k < bytes.len() {
        assert(valid_first_scalar(after));
        assert(after[0] == bytes[pos + k]);
        is_char_boundary_iff_not_is_continuation_byte(bytes, pos + k);
    } else {
        is_char_boundary_start_end_of_seq(bytes);
    }
    // no boundary inside the character
    assert forall|j: int| pos < j < pos + k implies !#[trigger] is_char_boundary(bytes, j) by {
        assert(rest[j - pos] == bytes[j]);
        is_char_boundary_iff_not_is_continuation_byte(bytes, j);
    }
    // a character of one byte
    let b0 = bytes[pos];
    assert(rest[0] == b0);
    assert(b0 <= 0x7f ==> (b0 & 0x7f) as u32 == b0) by (bit_vector);
    // the character and its encoding
    lemma_first_scalar_is_char(rest);
    decode_utf8_first_scalar(rest);
    assert(take_first_scalar(rest) =~= bytes.subrange(pos, pos + k));
    let c = char_at(bytes, pos);
    char_is_scalar(c);
    let one = bytes.subrange(pos, pos + k);
    assert(one =~= encode_utf8(seq![c])) by {
        reveal_with_fuel(encode_utf8, 2);
        assert(seq![c].drop_first() =~= Seq::<char>::empty());
        assert(encode_scalar(c as u32) + Seq::<u8>::empty() =~= encode_scalar(c as u32));
    }
    encode_utf8_decode_utf8(seq![c]);
}

/// The character of `s` whose encoding starts at the byte offset `pos`.
pub fn decode_char(s: &str, pos: usize) -> (c: char)
    requires
        is_char_boundary(s.spec_bytes(), pos as int),
        pos < s.spec_bytes().len(),
    ensures
        c == char_at(s.spec_bytes(), pos as int),
{
    broadcast use {group_string_axioms, encode_utf8_valid_utf8};

    let (_, rest) = s.split_at(pos);
    proof {
        let bytes = s.spec_bytes();
        lemma_char_step(bytes, pos as int);
        assert(rest.spec_bytes() == tail(bytes, pos as int));
        assert(rest@.len() > 0);
        encode_utf8_first_scalar(rest@);
        char_u32_cast(rest@[0], rest@[0] as u32);
    }
    let mut chars = rest.chars();
    let first = chars.next();
    first.unwrap()
}

/// The part of `s` between two character boundaries.
pub fn substring<'a>(s: &'a str, start: usize, end: usize) -> (part: &'a str)
    requires
        start <= end <= s.spec_bytes().len(),
        is_char_boundary(s.spec_bytes(), start as int),
        is_char_boundary(s.spec_bytes(), end as int),
    ensures
        part.spec_bytes() == s.spec_bytes().subrange(start as int, end as int),
        part@ == text_between(s.spec_bytes(), start as int, end as int),
{
    broadcast use {encode_utf8_valid_utf8, encode_utf8_decode_utf8};

    let (head, _) = s.split_at(end);
    proof {
        let bytes = s.spec_bytes();
        let front = bytes.subrange(0, end as int);
        assert(head.spec_bytes() == front);
        assert(is_char_boundary(front, start as int)) by {
            lemma_boundary_in_prefix(bytes, end as int, start as int);
        }
    }
    let (_, part) = head.split_at(start);
    proof {
        let bytes = s.spec_bytes();
        assert(part.spec_bytes() =~= bytes.subrange(start as int, end as int));
    }
    part
}

/// A boundary of a text is a boundary of each prefix that reaches it.
pub proof fn lemma_boundary_in_prefix(bytes: Seq<u8>, end: int, pos: int)
    requires
        valid_utf8(bytes),
        is_char_boundary(bytes, end),
        is_char_boundary(bytes, pos),
        0 <= pos <= end <= bytes.len(),
    ensures
        valid_utf8(bytes.subrange(0, end)),
        is_char_boundary(bytes.subrange(0, end), pos),
{
    let front = bytes.subrange(0, end);
    valid_utf8_split(bytes, end);
    if pos == end {
        is_char_boundary_start_end_of_seq(front);
    } else {
        is_char_boundary_iff_not_is_continuation_byte(bytes, pos);
        is_char_boundary_iff_not_is_continuation_byte(front, pos);
    }
}

/// Whether `a` comes before `b` when strings are ordered by their code
/// points, the first difference deciding, and a proper prefix coming first.
pub open spec fn precedes(a: Seq<char>, b: Seq<char>) -> bool
    decreases a.len(),
{
    if b.len() == 0 {
        false
    } else if a.len() == 0 {
        true
    } else if a[0] != b[0] {
        (a[0] as u32) < (b[0] as u32)
    } else {
        precedes(a.drop_first(), b.drop_first())
    }
}

/// A common prefix does not change the order of two strings.
pub proof fn lemma_precedes_common_prefix(front: Seq<char>, a: Seq<char>, b: Seq<char>)
    ensures
        precedes(front + a, front + b) == precedes(a, b),
    decreases front.len(),
{
    if front.len() == 0 {
        assert(front + a =~= a);
        assert(front + b =~= b);
    } else {
        let rest = front.drop_first();
        assert((front + a).drop_first() =~= rest + a);
        assert((front + b).drop_first() =~= rest + b);
        lemma_precedes_common_prefix(rest, a, b);
    }
}

/// No string comes before itself.
pub proof fn lemma_precedes_irreflexive(a: Seq<char>)
    ensures
        !precedes(a, a),
    decreases a.len(),
{
    if a.len() > 0 {
        lemma_precedes_irreflexive(a.drop_first());
    }
}

/// Of two different strings one comes before the other, and never both.
pub proof fn lemma_precedes_total(a: Seq<char>, b: Seq<char>)
    ensures
        a != b ==> precedes(a, b) || precedes(b, a),
        !(precedes(a, b) && precedes(b, a)),
    decreases a.len(),
{
    if a.len() == 0 || b.len() == 0 {
        if a.len() == 0 && b.len() == 0 {
            assert(a =~= b);
        }
    } else if a[0] == b[0] {
        lemma_precedes_total(a.drop_first(), b.drop_first());
        if a.drop_first() == b.drop_first() {
            assert(a =~= seq![a[0]] + a.drop_first());
            assert(b =~= seq![b[0]] + b.drop_first());
        }
    } else {
        char_u32_cast(a[0], a[0] as u32);
        char_u32_cast(b[0], b[0] as u32);
    }
}

/// What comes before a string comes before everything behind that string.
pub proof fn lemma_precedes_transitive(a: Seq<char>, b: Seq<char>, c: Seq<char>)
    requires
        precedes(a, b),
        precedes(b, c),
    ensures
        precedes(a, c),
    decreases a.len(),
{
    if a.len() > 0 && a[0] == b[0] && b[0] == c[0] {
        lemma_precedes_transitive(a.drop_first(), b.drop_first(), c.drop_first());
    }
}

/// Whether two strings hold the same text.
pub fn str_eq(a: &str, b: &str) -> (same: bool)
    ensures
        same == (a@ == b@),
{
    broadcast use group_string_axioms;

    let mut left = a.chars();
    let mut right = b.chars();
    let ghost mut front: Seq<char> = Seq::empty();
    assert(a@ =~= front + left.remaining());
    assert(b@ =~= front + right.remaining());
    loop
        invariant
            a@ == front + left.remaining(),
            b@ == front + right.remaining(),
        decreases a@.len() - front.len(),
    {
        let ghost l = left.remaining();
        let ghost r = right.remaining();
        let x = left.next();
        let y = right.next();
        match (x, y) {
            (None, None) => {
                return true;
            },
            (Some(p), Some(q)) => {
                if p != q {
                    assert(a@[front.len() as int] == p);
                    assert(b@[front.len() as int] == q);
                    return false;
                }
                proof {
                    assert(front.push(p) + l.drop_first() =~= front + l);
                    assert(front.push(p) + r.drop_first() =~= front + r);
                    front = front.push(p);
                }
            },
            _ => {
                assert(a@.len() != b@.len());
                return false;
            },
        }
    }
}

/// Whether `a` comes before `b` in the order of `precedes`.
pub fn str_lt(a: &str, b: &str) -> (before: bool)
    ensures
        before == precedes(a@, b@),
{
    broadcast use group_string_axioms;

    let mut left = a.chars();
    let mut right = b.chars();
    let ghost mut front: Seq<char> = Seq::empty();
    assert(a@ =~= front + left.remaining());
    assert(b@ =~= front + right.remaining());
    loop
        invariant
            a@ == front + left.remaining(),
            b@ == front + right.remaining(),
        decreases a@.len() - front.len(),
    {
        let ghost l = left.remaining();
        let ghost r = right.remaining();
        proof {
            lemma_precedes_common_prefix(front, l, r);
        }
        let x = left.next();
        let y = right.next();
        match (x, y) {
            (_, None) => {
                return false;
            },
            (None, Some(_)) => {
                return true;
            },
            (Some(p), Some(q)) => {
                if p != q {
                    return (p as u32) < (q as u32);
                }
                proof {
                    assert(front.push(p) + l.drop_first() =~= front + l);
                    assert(front.push(p) + r.drop_first() =~= front + r);
                    lemma_precedes_common_prefix(front.push(p), l.drop_first(), r.drop_first());
                    front = front.push(p);
                }
            },
        }
    }
}

} // verus!
