//! Scanner for printf-style conversion specifiers.
//!
//! A specifier is read greedily, in this order: flags, width, precision,
//! length modifier, conversion character. The scanner only finds where the
//! specifier ends; it does not judge whether the conversion is a legal one.

use crate::text::{char_len_at, lemma_char_step};
use vstd::prelude::*;
use vstd::utf8::*;

verus! {

/// The percent sign, which opens a specifier.
pub const PERCENT: u8 = 0x25;

/// The flag `-`.
pub const MINUS: u8 = 0x2d;

/// The flag `+`.
pub const PLUS: u8 = 0x2b;

/// The flag that is a space.
pub const SPACE: u8 = 0x20;

/// The flag `#`.
pub const HASH: u8 = 0x23;

/// The digit `0`, which is a flag too.
pub const ZERO: u8 = 0x30;

/// The digit `9`.
pub const NINE: u8 = 0x39;

/// The `*` that stands for a width or a precision given as an argument.
pub const STAR: u8 = 0x2a;

/// The `.` that opens a precision.
pub const DOT: u8 = 0x2e;

/// The length modifier `h`; twice, `hh`.
pub const LOWER_H: u8 = 0x68;

/// The length modifier `l`; twice, `ll`.
pub const LOWER_L: u8 = 0x6c;

/// The length modifier `L`.
pub const UPPER_L: u8 = 0x4c;

/// The length modifier `j`.
pub const LOWER_J: u8 = 0x6a;

/// The length modifier `z`.
pub const LOWER_Z: u8 = 0x7a;

/// The length modifier `t`.
pub const LOWER_T: u8 = 0x74;

/// One of the flag characters `-`, `+`, space, `#`, `0`.
pub open spec fn is_flag(b: u8) -> bool {
    b == MINUS || b == PLUS || b == SPACE || b == HASH || b == ZERO
}

/// An ASCII decimal digit.
pub open spec fn is_digit(b: u8) -> bool {
    ZERO <= b <= NINE
}

/// End of the longest run of flag characters that starts at `pos`.
pub open spec fn flags_end(bytes: Seq<u8>, pos: int, len: int) -> int
    decreases len - pos,
{
    if pos < len && is_flag(bytes[pos]) {
        flags_end(bytes, pos + 1, len)
    } else {
        pos
    }
}

/// End of the longest run of digits that starts at `pos`.
pub open spec fn digits_end(bytes: Seq<u8>, pos: int, len: int) -> int
    decreases len - pos,
{
    if pos < len && is_digit(bytes[pos]) {
        digits_end(bytes, pos + 1, len)
    } else {
        pos
    }
}

/// End of a count at `pos`: a single `*`, or else a (possibly empty) run of digits.
pub open spec fn count_end(bytes: Seq<u8>, pos: int, len: int) -> int {
    if pos < len && bytes[pos] == STAR {
        pos + 1
    } else {
        digits_end(bytes, pos, len)
    }
}

/// End of an optional precision at `pos`: a `.` followed by a count.
pub open spec fn precision_end(bytes: Seq<u8>, pos: int, len: int) -> int {
    if pos < len && bytes[pos] == DOT {
        count_end(bytes, pos + 1, len)
    } else {
        pos
    }
}

/// End of an optional length modifier at `pos`: one of
/// `hh`, `h`, `ll`, `l`, `L`, `j`, `z`, `t`, the two-letter forms first.
pub open spec fn length_end(bytes: Seq<u8>, pos: int, len: int) -> int {
    if pos >= len {
        pos
    } else if bytes[pos] == LOWER_H || bytes[pos] == LOWER_L {
        if pos + 1 < len && bytes[pos + 1] == bytes[pos] {
            pos + 2
        } else {
            pos + 1
        }
    } else if bytes[pos] == UPPER_L || bytes[pos] == LOWER_J || bytes[pos] == LOWER_Z
        || bytes[pos] == LOWER_T {
        pos + 1
    } else {
        pos
    }
}

/// End of the longest run of UTF-8 continuation bytes that starts at `pos`.
pub open spec fn continuation_end(bytes: Seq<u8>, pos: int, len: int) -> int
    decreases len - pos,
{
    if pos < len && is_continuation_byte(bytes[pos]) {
        continuation_end(bytes, pos + 1, len)
    } else {
        pos
    }
}

/// End of the conversion character at `pos`: one whole character, whatever it
/// is, or `pos` itself where the buffer has ended.
pub open spec fn conversion_end(bytes: Seq<u8>, pos: int, len: int) -> int {
    if pos < len {
        continuation_end(bytes, pos + 1, len)
    } else {
        pos
    }
}

/// Index one past the end of the conversion specifier whose text starts at
/// `pos`, the index just after its `%`.
pub open spec fn specifier_end(bytes: Seq<u8>, pos: int, len: int) -> int {
    let after_flags = flags_end(bytes, pos, len);
    let after_width = count_end(bytes, after_flags, len);
    let after_precision = precision_end(bytes, after_width, len);
    let after_length = length_end(bytes, after_precision, len);
    conversion_end(bytes, after_length, len)
}

fn byte_is_flag(b: u8) -> (yes: bool)
    ensures
        yes == is_flag(b),
{
    b == MINUS || b == PLUS || b == SPACE || b == HASH || b == ZERO
}

fn byte_is_digit(b: u8) -> (yes: bool)
    ensures
        yes == is_digit(b),
{
    ZERO <= b && b <= NINE
}

fn byte_is_continuation(b: u8) -> (yes: bool)
    ensures
        yes == is_continuation_byte(b),
{
    0x80 <= b && b <= 0xbf
}

fn skip_flags(bytes: &[u8], pos: usize, len: usize) -> (end: usize)
    requires
        pos <= len <= bytes@.len(),
    ensures
        end == flags_end(bytes@, pos as int, len as int),
        pos <= end <= len,
{
    let mut i: usize = pos;
    while i < len && byte_is_flag(bytes[i])
        invariant
            pos <= i <= len <= bytes@.len(),
            flags_end(bytes@, pos as int, len as int) == flags_end(bytes@, i as int, len as int),
        decreases len - i,
    {
        i += 1;
    }
    i
}

fn skip_digits(bytes: &[u8], pos: usize, len: usize) -> (end: usize)
    requires
        pos <= len <= bytes@.len(),
    ensures
        end == digits_end(bytes@, pos as int, len as int),
        pos <= end <= len,
{
    let mut i: usize = pos;
    while i < len && byte_is_digit(bytes[i])
        invariant
            pos <= i <= len <= bytes@.len(),
            digits_end(bytes@, pos as int, len as int) == digits_end(bytes@, i as int, len as int),
        decreases len - i,
    {
        i += 1;
    }
    i
}

fn skip_count(bytes: &[u8], pos: usize, len: usize) -> (end: usize)
    requires
        pos <= len <= bytes@.len(),
    ensures
        end == count_end(bytes@, pos as int, len as int),
        pos <= end <= len,
{
    if pos < len && bytes[pos] == STAR {
        pos + 1
    } else {
        skip_digits(bytes, pos, len)
    }
}

fn skip_precision(bytes: &[u8], pos: usize, len: usize) -> (end: usize)
    requires
        pos <= len <= bytes@.len(),
    ensures
        end == precision_end(bytes@, pos as int, len as int),
        pos <= end <= len,
{
    if pos < len && bytes[pos] == DOT {
        skip_count(bytes, pos + 1, len)
    } else {
        pos
    }
}

fn skip_length(bytes: &[u8], pos: usize, len: usize) -> (end: usize)
    requires
        pos <= len <= bytes@.len(),
    ensures
        end == length_end(bytes@, pos as int, len as int),
        pos <= end <= len,
{
    if pos >= len {
        return pos;
    }
    let b: u8 = bytes[pos];
    if b == LOWER_H || b == LOWER_L {
        if pos + 1 < len && bytes[pos + 1] == b {
            pos + 2
        } else {
            pos + 1
        }
    } else if b == UPPER_L || b == LOWER_J || b == LOWER_Z || b == LOWER_T {
        pos + 1
    } else {
        pos
    }
}

fn skip_conversion(bytes: &[u8], pos: usize, len: usize) -> (end: usize)
    requires
        pos <= len <= bytes@.len(),
    ensures
        end == conversion_end(bytes@, pos as int, len as int),
        pos <= end <= len,
{
    if pos >= len {
        return pos;
    }
    let mut i: usize = pos + 1;
    while i < len && byte_is_continuation(bytes[i])
        invariant
            pos < i <= len <= bytes@.len(),
            continuation_end(bytes@, pos + 1, len as int) == continuation_end(
                bytes@,
                i as int,
                len as int,
            ),
        decreases len - i,
    {
        i += 1;
    }
    i
}

/// Finds where a conversion specifier ends.
///
/// `pos` is the index just after the `%` that opens the specifier and `len`
/// the length of the text in `bytes`. A specifier cut short by the end of the
/// text ends at `len`.
pub fn get_index_end_c_format(bytes: &[u8], pos: usize, len: usize) -> (end: usize)
    requires
        pos <= len <= bytes@.len(),
    ensures
        end == specifier_end(bytes@, pos as int, len as int),
        pos <= end <= len,
{
    let after_flags = skip_flags(bytes, pos, len);
    let after_width = skip_count(bytes, after_flags, len);
    let after_precision = skip_precision(bytes, after_width, len);
    let after_length = skip_length(bytes, after_precision, len);
    skip_conversion(bytes, after_length, len)
}

/// The flags that are skipped are a run of flag characters that cannot be
/// made longer.
pub proof fn lemma_flags_end(bytes: Seq<u8>, pos: int, len: int)
    requires
        pos <= len,
    ensures
        pos <= flags_end(bytes, pos, len) <= len,
        forall|i: int| pos <= i < flags_end(bytes, pos, len) ==> is_flag(#[trigger] bytes[i]),
        flags_end(bytes, pos, len) < len ==> !is_flag(bytes[flags_end(bytes, pos, len)]),
    decreases len - pos,
{
    if pos < len && is_flag(bytes[pos]) {
        lemma_flags_end(bytes, pos + 1, len);
    }
}

/// The digits that are skipped are a run of digits that cannot be made longer.
pub proof fn lemma_digits_end(bytes: Seq<u8>, pos: int, len: int)
    requires
        pos <= len,
    ensures
        pos <= digits_end(bytes, pos, len) <= len,
        forall|i: int| pos <= i < digits_end(bytes, pos, len) ==> is_digit(#[trigger] bytes[i]),
        digits_end(bytes, pos, len) < len ==> !is_digit(bytes[digits_end(bytes, pos, len)]),
    decreases len - pos,
{
    if pos < len && is_digit(bytes[pos]) {
        lemma_digits_end(bytes, pos + 1, len);
    }
}

/// The continuation bytes that are skipped are a run that cannot be made longer.
pub proof fn lemma_continuation_end(bytes: Seq<u8>, pos: int, len: int)
    requires
        pos <= len,
    ensures
        pos <= continuation_end(bytes, pos, len) <= len,
        forall|i: int|
            pos <= i < continuation_end(bytes, pos, len) ==> is_continuation_byte(#[trigger] bytes[i]),
        continuation_end(bytes, pos, len) < len ==> !is_continuation_byte(
            bytes[continuation_end(bytes, pos, len)],
        ),
    decreases len - pos,
{
    if pos < len && is_continuation_byte(bytes[pos]) {
        lemma_continuation_end(bytes, pos + 1, len);
    }
}

/// A specifier ends at or after the index where its text starts, and within
/// the text. It ends at the index where it starts only at the end of the text.
pub proof fn lemma_specifier_end_bounds(bytes: Seq<u8>, pos: int, len: int)
    requires
        pos <= len,
    ensures
        pos <= specifier_end(bytes, pos, len) <= len,
        pos < len ==> pos < specifier_end(bytes, pos, len),
{
    lemma_flags_end(bytes, pos, len);
    let after_flags = flags_end(bytes, pos, len);
    lemma_digits_end(bytes, after_flags, len);
    let after_width = count_end(bytes, after_flags, len);
    if after_width < len {
        lemma_digits_end(bytes, after_width + 1, len);
    }
    let after_precision = precision_end(bytes, after_width, len);
    let after_length = length_end(bytes, after_precision, len);
    if after_length < len {
        lemma_continuation_end(bytes, after_length + 1, len);
    }
}

/// After a one-byte character the next index is a character boundary.
proof fn lemma_ascii_step(bytes: Seq<u8>, pos: int)
    requires
        valid_utf8(bytes),
        is_char_boundary(bytes, pos),
        0 <= pos < bytes.len(),
        bytes[pos] <= 0x7f,
    ensures
        is_char_boundary(bytes, pos + 1),
{
    lemma_char_step(bytes, pos);
}

proof fn lemma_flags_end_boundary(bytes: Seq<u8>, pos: int)
    requires
        valid_utf8(bytes),
        is_char_boundary(bytes, pos),
        0 <= pos <= bytes.len(),
    ensures
        is_char_boundary(bytes, flags_end(bytes, pos, bytes.len() as int)),
    decreases bytes.len() - pos,
{
    if pos < bytes.len() && is_flag(bytes[pos]) {
        lemma_ascii_step(bytes, pos);
        lemma_flags_end_boundary(bytes, pos + 1);
    }
}

proof fn lemma_digits_end_boundary(bytes: Seq<u8>, pos: int)
    requires
        valid_utf8(bytes),
        is_char_boundary(bytes, pos),
        0 <= pos <= bytes.len(),
    ensures
        is_char_boundary(bytes, digits_end(bytes, pos, bytes.len() as int)),
    decreases bytes.len() - pos,
{
    if pos < bytes.len() && is_digit(bytes[pos]) {
        lemma_ascii_step(bytes, pos);
        lemma_digits_end_boundary(bytes, pos + 1);
    }
}

/// On well-formed UTF-8 the conversion character is skipped whole: from a
/// character boundary, the skip ends where that character's bytes end.
pub proof fn lemma_conversion_end_is_next_char(bytes: Seq<u8>, pos: int)
    requires
        valid_utf8(bytes),
        is_char_boundary(bytes, pos),
        0 <= pos < bytes.len(),
    ensures
        conversion_end(bytes, pos, bytes.len() as int) == pos + char_len_at(bytes, pos),
{
    let len = bytes.len() as int;
    let k = char_len_at(bytes, pos);
    lemma_char_step(bytes, pos);
    let rest = bytes.subrange(pos, len);
    assert(forall|j: int| 0 <= j < k ==> rest[j] == bytes[pos + j]);
    if pos + k < len {
        is_char_boundary_iff_not_is_continuation_byte(bytes, pos + k);
    }
    reveal_with_fuel(continuation_end, 5);
}

/// On well-formed UTF-8 a specifier whose text starts at a character boundary
/// ends at a character boundary.
pub proof fn lemma_specifier_end_is_boundary(bytes: Seq<u8>, pos: int)
    requires
        valid_utf8(bytes),
        is_char_boundary(bytes, pos),
        0 <= pos <= bytes.len(),
    ensures
        is_char_boundary(bytes, specifier_end(bytes, pos, bytes.len() as int)),
{
    let len = bytes.len() as int;
    lemma_flags_end(bytes, pos, len);
    lemma_flags_end_boundary(bytes, pos);
    let after_flags = flags_end(bytes, pos, len);
    lemma_digits_end(bytes, after_flags, len);
    lemma_digits_end_boundary(bytes, after_flags);
    if after_flags < len {
        lemma_ascii_step_if(bytes, after_flags);
    }
    let after_width = count_end(bytes, after_flags, len);
    assert(is_char_boundary(bytes, after_width));
    if after_width < len && bytes[after_width] == DOT {
        lemma_ascii_step(bytes, after_width);
        let p = after_width + 1;
        lemma_digits_end(bytes, p, len);
        lemma_digits_end_boundary(bytes, p);
        if p < len {
            lemma_ascii_step_if(bytes, p);
        }
    }
    let after_precision = precision_end(bytes, after_width, len);
    assert(is_char_boundary(bytes, after_precision));
    assert(after_width <= after_precision <= len);
    if after_precision < len {
        lemma_ascii_step_if(bytes, after_precision);
        if after_precision + 1 < len {
            lemma_ascii_step_if(bytes, after_precision + 1);
        }
    }
    let after_length = length_end(bytes, after_precision, len);
    assert(is_char_boundary(bytes, after_length));
    assert(after_precision <= after_length <= len);
    if after_length < len {
        lemma_conversion_end_is_next_char(bytes, after_length);
        lemma_char_step(bytes, after_length);
    }
}

/// `lemma_ascii_step`, for a byte that may or may not be a one-byte character.
proof fn lemma_ascii_step_if(bytes: Seq<u8>, pos: int)
    requires
        valid_utf8(bytes),
        0 <= pos < bytes.len(),
    ensures
        is_char_boundary(bytes, pos) && bytes[pos] <= 0x7f ==> is_char_boundary(bytes, pos + 1),
{
    if is_char_boundary(bytes, pos) && bytes[pos] <= 0x7f {
        lemma_ascii_step(bytes, pos);
    }
}

} // verus!
