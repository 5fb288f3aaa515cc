//! Reading one record as a sample.
//!
//! A record is a line of text with two numbers separated by one comma:
//! the position of a measurement and its value. Blanks around either number
//! are ignored. Anything else is not a sample: bytes that are no UTF-8 text,
//! no comma or more than one, a field that is no number. Such a record is
//! turned down with `None`, and the next record is read as if nothing had
//! happened.

use crate::number::{is_number, Numeral};
use vstd::prelude::*;
use vstd::slice::slice_subrange;
use vstd::utf8::{
    encode_scalar, has_width_1_encoding, has_width_2_encoding, has_width_3_encoding,
    has_width_4_encoding, is_scalar, last_continuation_byte, leading_byte_width_1,
    leading_byte_width_2, leading_byte_width_3, leading_byte_width_4,
    second_last_continuation_byte, valid_utf8,
};

verus! {

/// The byte that separates the two fields of a record: a comma.
pub const SEPARATOR: u8 = 44;

/// A blank of one byte: tab, line feed, vertical tab, form feed, carriage
/// return or space.
pub open spec fn is_blank_byte(byte: u8) -> bool {
    9 <= byte <= 13 || byte == 32
}

/// The UTF-8 form of a blank of two bytes: U+0085 or U+00A0.
pub open spec fn is_blank_pair(first: u8, second: u8) -> bool {
    first == 0xC2 && (second == 0x85 || second == 0xA0)
}

/// The UTF-8 form of a blank of three bytes: U+1680, U+2000 to U+200A,
/// U+2028, U+2029, U+202F, U+205F or U+3000.
pub open spec fn is_blank_triple(first: u8, second: u8, third: u8) -> bool {
    ||| first == 0xE1 && second == 0x9A && third == 0x80
    ||| first == 0xE2 && second == 0x80 && (0x80 <= third <= 0x8A || third == 0xA8 || third
        == 0xA9 || third == 0xAF)
    ||| first == 0xE2 && second == 0x81 && third == 0x9F
    ||| first == 0xE3 && second == 0x80 && third == 0x80
}

/// The number of bytes of the blank character that begins at position `at`
/// of `text`, or 0 if none begins there. The blank characters are those of
/// Unicode's White_Space property.
pub open spec fn blank_at(text: Seq<u8>, at: int) -> int {
    if at < 0 || at >= text.len() {
        0
    } else if is_blank_byte(text[at]) {
        1
    } else if at + 1 < text.len() && is_blank_pair(text[at], text[at + 1]) {
        2
    } else if at + 2 < text.len() && is_blank_triple(text[at], text[at + 1], text[at + 2]) {
        3
    } else {
        0
    }
}

/// The number of bytes of the blank character that ends just before position
/// `end` of `text`, or 0 if none ends there.
pub open spec fn blank_before(text: Seq<u8>, end: int) -> int {
    if end <= 0 || end > text.len() {
        0
    } else if is_blank_byte(text[end - 1]) {
        1
    } else if end >= 2 && is_blank_pair(text[end - 2], text[end - 1]) {
        2
    } else if end >= 3 && is_blank_triple(text[end - 3], text[end - 2], text[end - 1]) {
        3
    } else {
        0
    }
}

/// A blank character by its number: one with Unicode's White_Space
/// property.
pub open spec fn is_blank_scalar(scalar: u32) -> bool {
    ||| 0x09 <= scalar <= 0x0D
    ||| scalar == 0x20
    ||| scalar == 0x85
    ||| scalar == 0xA0
    ||| scalar == 0x1680
    ||| 0x2000 <= scalar <= 0x200A
    ||| scalar == 0x2028
    ||| scalar == 0x2029
    ||| scalar == 0x202F
    ||| scalar == 0x205F
    ||| scalar == 0x3000
}

/// A character of one byte is blank exactly when that byte is a blank byte.
proof fn lemma_blank_of_one_byte(scalar: u32)
    by (bit_vector)
    requires
        has_width_1_encoding(scalar),
    ensures
        is_blank_byte(leading_byte_width_1(scalar)) <==> is_blank_scalar(scalar),
{
}

/// A character of two bytes is blank exactly when its bytes are a blank
/// pair.
proof fn lemma_blank_of_two_bytes(scalar: u32)
    by (bit_vector)
    requires
        has_width_2_encoding(scalar),
    ensures
        leading_byte_width_2(scalar) >= 0xC0,
        is_blank_pair(leading_byte_width_2(scalar), last_continuation_byte(scalar))
            <==> is_blank_scalar(scalar),
{
}

/// A character of three bytes is blank exactly when its bytes are a blank
/// triple.
proof fn lemma_blank_of_three_bytes(scalar: u32)
    by (bit_vector)
    requires
        has_width_3_encoding(scalar),
    ensures
        leading_byte_width_3(scalar) >= 0xE0,
        is_blank_triple(
            leading_byte_width_3(scalar),
            second_last_continuation_byte(scalar),
            last_continuation_byte(scalar),
        ) <==> is_blank_scalar(scalar),
{
}

/// No character of four bytes is blank.
proof fn lemma_blank_of_four_bytes(scalar: u32)
    by (bit_vector)
    requires
        has_width_4_encoding(scalar),
    ensures
        leading_byte_width_4(scalar) >= 0xF0,
        !is_blank_scalar(scalar),
{
}

/// The blanks that are removed are the blank characters, and no others: a
/// character's UTF-8 form is taken for a blank, whole, exactly when the
/// character is blank.
pub proof fn lemma_blanks_are_the_blank_characters(scalar: u32)
    requires
        is_scalar(scalar),
    ensures
        is_blank_scalar(scalar) <==> blank_at(encode_scalar(scalar), 0) == encode_scalar(
            scalar,
        ).len(),
        is_blank_scalar(scalar) <==> blank_before(
            encode_scalar(scalar),
            encode_scalar(scalar).len() as int,
        ) == encode_scalar(scalar).len(),
        !is_blank_scalar(scalar) ==> blank_at(encode_scalar(scalar), 0) == 0,
{
    if has_width_1_encoding(scalar) {
        lemma_blank_of_one_byte(scalar);
    } else if has_width_2_encoding(scalar) {
        lemma_blank_of_two_bytes(scalar);
    } else if has_width_3_encoding(scalar) {
        lemma_blank_of_three_bytes(scalar);
    } else {
        lemma_blank_of_four_bytes(scalar);
    }
}

/// A byte below 128 stands for itself and is no surrogate.
proof fn lemma_ascii_byte_is_scalar(byte: u8)
    by (bit_vector)
    requires
        byte < 128,
    ensures
        (byte & 0x7F) as u32 == byte as u32,
        (byte & 0x7F) as u32 <= 0x7F,
{
}

/// Bytes below 128 are UTF-8 text: a record of ASCII characters only is
/// never turned down for its encoding.
pub proof fn lemma_ascii_is_utf8(bytes: Seq<u8>)
    requires
        forall|i: int| 0 <= i < bytes.len() ==> bytes[i] < 128,
    ensures
        valid_utf8(bytes),
    decreases bytes.len(),
{
    if bytes.len() > 0 {
        lemma_ascii_byte_is_scalar(bytes[0]);
        lemma_ascii_is_utf8(bytes.subrange(1, bytes.len() as int));
    }
}

/// The position of the first byte at or after `from` that begins no blank.
pub open spec fn blanks_end(text: Seq<u8>, from: int) -> int
    decreases text.len() - from,
{
    let width = blank_at(text, from);
    if width > 0 {
        blanks_end(text, from + width)
    } else {
        from
    }
}

/// The position behind the last byte before `end` that ends no blank,
/// without going back beyond `floor`.
pub open spec fn blanks_start(text: Seq<u8>, floor: int, end: int) -> int
    decreases end,
{
    let width = blank_before(text, end);
    if width > 0 && end - width >= floor {
        blanks_start(text, floor, end - width)
    } else {
        end
    }
}

/// `text` without the blanks at its start and at its end.
pub open spec fn trimmed(text: Seq<u8>) -> Seq<u8> {
    let start = blanks_end(text, 0);
    let end = blanks_start(text, start, text.len() as int);
    text.subrange(start, end)
}

/// The position of the first separator at or after `from`, or the length of
/// `record` if there is none.
pub open spec fn separator_at(record: Seq<u8>, from: int) -> int
    decreases record.len() - from,
{
    if 0 <= from < record.len() && record[from] != SEPARATOR {
        separator_at(record, from + 1)
    } else {
        from
    }
}

/// `record` holds exactly one separator.
pub open spec fn has_two_fields(record: Seq<u8>) -> bool {
    let at = separator_at(record, 0);
    at < record.len() && separator_at(record, at + 1) == record.len()
}

/// What stands before the first separator, without surrounding blanks.
pub open spec fn first_field(record: Seq<u8>) -> Seq<u8> {
    trimmed(record.subrange(0, separator_at(record, 0)))
}

/// What stands behind the first separator, without surrounding blanks.
pub open spec fn second_field(record: Seq<u8>) -> Seq<u8> {
    trimmed(record.subrange(separator_at(record, 0) + 1, record.len() as int))
}

/// A sample as two texts: the position of the measurement and its value.
pub struct SampleText {
    pub position: Seq<u8>,
    pub value: Seq<u8>,
}

/// The sample that `record` holds, if it holds one: the record is UTF-8
/// text, has exactly one separator, and each of its two fields is a number
/// once the blanks around it are removed.
pub open spec fn sample_of(record: Seq<u8>) -> Option<SampleText> {
    if valid_utf8(record) && has_two_fields(record) && is_number(first_field(record))
        && is_number(second_field(record)) {
        Some(SampleText { position: first_field(record), value: second_field(record) })
    } else {
        None
    }
}

/// One measurement: a position and the value measured there, each kept as
/// the number that the record carried.
#[derive(Debug, PartialEq, Eq)]
pub struct Sample {
    position: Numeral,
    value: Numeral,
}

impl View for Sample {
    type V = SampleText;

    closed spec fn view(&self) -> SampleText {
        SampleText { position: self.position@, value: self.value@ }
    }
}

impl Clone for Sample {
    fn clone(&self) -> (copy: Sample)
        ensures
            copy@ == self@,
    {
        Sample { position: self.position.clone(), value: self.value.clone() }
    }
}

impl Sample {
    /// The sample with the given position and value.
    pub fn new(position: Numeral, value: Numeral) -> (sample: Sample)
        ensures
            sample@ == (SampleText { position: position@, value: value@ }),
    {
        Sample { position, value }
    }

    /// Where the measurement was taken.
    pub fn position(&self) -> (position: &Numeral)
        ensures
            position@ == self@.position,
    {
        &self.position
    }

    /// What was measured.
    pub fn value(&self) -> (value: &Numeral)
        ensures
            value@ == self@.value,
    {
        &self.value
    }
}

/// Tells whether `bytes` is UTF-8 text.
///
/// Trusted: this is `std::str::from_utf8`, which succeeds exactly on the
/// byte sequences that are valid UTF-8. Only the verdict is kept.
#[verifier::external_body]
fn is_text(bytes: &[u8]) -> (valid: bool)
    ensures
        valid == valid_utf8(bytes@),
{
    std::str::from_utf8(bytes).is_ok()
}

/// The number of bytes of the blank character that begins at position `at`.
fn blank_width_at(text: &[u8], at: usize) -> (width: usize)
    ensures
        width == blank_at(text@, at as int),
        at + width <= text.len() || width == 0,
{
    let len = text.len();
    if at >= len {
        return 0;
    }
    let first = text[at];
    if (9 <= first && first <= 13) || first == 32 {
        return 1;
    }
    if len - at >= 2 {
        let second = text[at + 1];
        if first == 0xC2 && (second == 0x85 || second == 0xA0) {
            return 2;
        }
        if len - at >= 3 && blank_triple(first, second, text[at + 2]) {
            return 3;
        }
    }
    0
}

/// The number of bytes of the blank character that ends just before `end`.
fn blank_width_before(text: &[u8], end: usize) -> (width: usize)
    ensures
        width == blank_before(text@, end as int),
        width <= end,
{
    if end == 0 || end > text.len() {
        return 0;
    }
    let last = text[end - 1];
    if (9 <= last && last <= 13) || last == 32 {
        return 1;
    }
    if end >= 2 {
        let middle = text[end - 2];
        if middle == 0xC2 && (last == 0x85 || last == 0xA0) {
            return 2;
        }
        if end >= 3 && blank_triple(text[end - 3], middle, last) {
            return 3;
        }
    }
    0
}

/// Tells whether the three bytes are the UTF-8 form of a blank.
fn blank_triple(first: u8, second: u8, third: u8) -> (blank: bool)
    ensures
        blank == is_blank_triple(first, second, third),
{
    (first == 0xE1 && second == 0x9A && third == 0x80) || (first == 0xE2 && second == 0x80 && ((
    0x80 <= third && third <= 0x8A) || third == 0xA8 || third == 0xA9 || third == 0xAF)) || (first
        == 0xE2 && second == 0x81 && third == 0x9F) || (first == 0xE3 && second == 0x80 && third
        == 0x80)
}

/// `text` without the blanks at its start and at its end.
pub fn trim(text: &[u8]) -> (inner: &[u8])
    ensures
        inner@ == trimmed(text@),
{
    let len = text.len();
    let mut start: usize = 0;
    loop
        invariant
            start <= len,
            len == text.len(),
            blanks_end(text@, 0) == blanks_end(text@, start as int),
        ensures
            start <= len,
            start == blanks_end(text@, 0),
        decreases len - start,
    {
        let width = blank_width_at(text, start);
        if width == 0 {
            break ;
        }
        start += width;
    }
    let mut end: usize = len;
    loop
        invariant
            start <= end <= len,
            len == text.len(),
            blanks_start(text@, start as int, len as int) == blanks_start(
                text@,
                start as int,
                end as int,
            ),
        ensures
            start <= end <= len,
            end == blanks_start(text@, start as int, len as int),
        decreases end,
    {
        let width = blank_width_before(text, end);
        if width == 0 || end - width < start {
            break ;
        }
        end -= width;
    }
    slice_subrange(text, start, end)
}

/// The position of the first separator at or after `from`.
fn find_separator(record: &[u8], from: usize) -> (at: usize)
    requires
        from <= record.len(),
    ensures
        at == separator_at(record@, from as int),
        from <= at <= record.len(),
{
    let mut at = from;
    while at < record.len() && record[at] != SEPARATOR
        invariant
            from <= at <= record.len(),
            separator_at(record@, from as int) == separator_at(record@, at as int),
        decreases record.len() - at,
    {
        at += 1;
    }
    at
}

/// Reads `record` as a sample. Returns `None` where the record holds none.
pub fn parse(record: &[u8]) -> (sample: Option<Sample>)
    ensures
        match sample {
            Some(sample) => sample_of(record@) == Some(sample@),
            None => sample_of(record@) is None,
        },
{
    if !is_text(record) {
        return None;
    }
    let at = find_separator(record, 0);
    if at >= record.len() || find_separator(record, at + 1) != record.len() {
        return None;
    }
    let first = trim(slice_subrange(record, 0, at));
    let second = trim(slice_subrange(record, at + 1, record.len()));
    match Numeral::from_text(first) {
        Some(position) => match Numeral::from_text(second) {
            Some(value) => Some(Sample::new(position, value)),
            None => None,
        },
        None => None,
    }
}

} // verus!
