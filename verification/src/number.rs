//! The text of a number, as a record carries it.
//!
//! A field of a record is accepted as a number when it is written the way a
//! decimal 64-bit floating-point literal is written:
//!
//! ```text
//! number   ::= sign? ( "inf" | "infinity" | "nan" | decimal )
//! decimal  ::= ( digit+ | digit+ "." digit* | digit* "." digit+ ) exponent?
//! exponent ::= "e" sign? digit+
//! sign     ::= "+" | "-"
//! digit    ::= "0" ... "9"
//! ```
//!
//! Letters are accepted in either case. Nothing may stand before or after the
//! number: surrounding blanks are removed before a field gets here.
//!
//! A [`Numeral`] keeps such a text unchanged. Turning it into a binary
//! floating-point value is left to whoever draws or computes with it; every
//! text accepted here has such a value.

use vstd::prelude::*;
use vstd::slice::slice_to_vec;

verus! {

/// The digit `0`.
pub const ZERO: u8 = 48;

/// The digit `9`.
pub const NINE: u8 = 57;

/// The sign `+`.
pub const PLUS: u8 = 43;

/// The sign `-`.
pub const MINUS: u8 = 45;

/// The decimal point `.`.
pub const POINT: u8 = 46;

/// The exponent mark `e`.
pub const SMALL_E: u8 = 101;

/// The exponent mark `E`.
pub const CAPITAL_E: u8 = 69;

/// `0` to `9`.
pub open spec fn is_digit(byte: u8) -> bool {
    ZERO <= byte <= NINE
}

/// `+` or `-`.
pub open spec fn is_sign(byte: u8) -> bool {
    byte == PLUS || byte == MINUS
}

/// The decimal point.
pub open spec fn is_point(byte: u8) -> bool {
    byte == POINT
}

/// `e` or `E`.
pub open spec fn is_exponent_mark(byte: u8) -> bool {
    byte == SMALL_E || byte == CAPITAL_E
}

/// An ASCII letter, in either case.
pub open spec fn is_letter(byte: u8) -> bool {
    65 <= byte <= 90 || 97 <= byte <= 122
}

/// The byte with an ASCII capital turned into its small letter.
pub open spec fn lowered(byte: u8) -> u8 {
    if 65 <= byte <= 90 {
        (byte + 32) as u8
    } else {
        byte
    }
}

/// `inf` in small letters.
pub open spec fn word_inf() -> Seq<u8> {
    seq![105u8, 110u8, 102u8]
}

/// `infinity` in small letters.
pub open spec fn word_infinity() -> Seq<u8> {
    seq![105u8, 110u8, 102u8, 105u8, 110u8, 105u8, 116u8, 121u8]
}

/// `nan` in small letters.
pub open spec fn word_nan() -> Seq<u8> {
    seq![110u8, 97u8, 110u8]
}

/// From position `from` to its end, `text` is `word`, in whatever case.
pub open spec fn spells(text: Seq<u8>, from: int, word: Seq<u8>) -> bool {
    &&& text.len() - from == word.len()
    &&& forall|i: int| 0 <= i < word.len() ==> lowered(#[trigger] text[from + i]) == word[i]
}

/// The position of the first byte at or after `from` that is no digit, or
/// the length of `text` if only digits follow.
pub open spec fn digits_end(text: Seq<u8>, from: int) -> int
    decreases text.len() - from,
{
    if 0 <= from < text.len() && is_digit(text[from]) {
        digits_end(text, from + 1)
    } else {
        from
    }
}

/// Where the number proper begins: behind the sign, if there is one.
pub open spec fn number_start(text: Seq<u8>) -> int {
    if text.len() > 0 && is_sign(text[0]) {
        1
    } else {
        0
    }
}

/// From position `at` to its end, `text` is an exponent: the mark, an
/// optional sign, and at least one digit.
pub open spec fn is_exponent(text: Seq<u8>, at: int) -> bool {
    let digits_at = if at + 1 < text.len() && is_sign(text[at + 1]) {
        at + 2
    } else {
        at + 1
    };
    &&& 0 <= at < text.len()
    &&& is_exponent_mark(text[at])
    &&& digits_at < text.len()
    &&& digits_end(text, digits_at) == text.len()
}

/// From position `from` to its end, `text` is a decimal: digits with at most
/// one point among them, at least one digit in all, and an optional exponent.
pub open spec fn is_decimal(text: Seq<u8>, from: int) -> bool {
    let whole_end = digits_end(text, from);
    let has_point = whole_end < text.len() && is_point(text[whole_end]);
    let mantissa_end = if has_point {
        digits_end(text, whole_end + 1)
    } else {
        whole_end
    };
    let digit_count = if has_point {
        mantissa_end - from - 1
    } else {
        mantissa_end - from
    };
    &&& digit_count > 0
    &&& mantissa_end == text.len() || is_exponent(text, mantissa_end)
}

/// From position `from` to its end, `text` names an infinity or a
/// not-a-number.
pub open spec fn is_named(text: Seq<u8>, from: int) -> bool {
    ||| spells(text, from, word_inf())
    ||| spells(text, from, word_infinity())
    ||| spells(text, from, word_nan())
}

/// `text` is a number.
pub open spec fn is_number(text: Seq<u8>) -> bool {
    let start = number_start(text);
    is_named(text, start) || is_decimal(text, start)
}

/// A byte that may occur in a number.
pub open spec fn is_number_byte(byte: u8) -> bool {
    is_digit(byte) || is_sign(byte) || is_point(byte) || is_letter(byte)
}

/// The digits counted by `digits_end` are digits, and the count stays within
/// the text.
pub proof fn lemma_digits_end(text: Seq<u8>, from: int)
    requires
        0 <= from <= text.len(),
    ensures
        from <= digits_end(text, from) <= text.len(),
        forall|i: int| from <= i < digits_end(text, from) ==> is_digit(#[trigger] text[i]),
        digits_end(text, from) < text.len() ==> !is_digit(text[digits_end(text, from)]),
    decreases text.len() - from,
{
    if from < text.len() && is_digit(text[from]) {
        lemma_digits_end(text, from + 1);
    }
}

/// A number is made of digits, signs, points and letters only.
pub proof fn lemma_number_bytes(text: Seq<u8>)
    requires
        is_number(text),
    ensures
        text.len() > 0,
        forall|i: int| 0 <= i < text.len() ==> is_number_byte(#[trigger] text[i]),
{
    let start = number_start(text);
    if is_named(text, start) {
        let word = if spells(text, start, word_inf()) {
            word_inf()
        } else if spells(text, start, word_infinity()) {
            word_infinity()
        } else {
            word_nan()
        };
        assert(spells(text, start, word));
        assert(forall|i: int| 0 <= i < word.len() ==> is_letter(#[trigger] word[i]));
        assert forall|i: int| 0 <= i < text.len() implies is_number_byte(#[trigger] text[i]) by {
            if i >= start {
                assert(lowered(text[start + (i - start)]) == word[i - start]);
                assert(is_letter(word[i - start]));
            }
        }
    } else {
        let whole_end = digits_end(text, start);
        lemma_digits_end(text, start);
        let has_point = whole_end < text.len() && is_point(text[whole_end]);
        let mantissa_end = if has_point {
            digits_end(text, whole_end + 1)
        } else {
            whole_end
        };
        if has_point {
            lemma_digits_end(text, whole_end + 1);
        }
        if mantissa_end < text.len() {
            let digits_at = if mantissa_end + 1 < text.len() && is_sign(text[mantissa_end + 1]) {
                mantissa_end + 2
            } else {
                mantissa_end + 1
            };
            lemma_digits_end(text, digits_at);
        }
    }
}

/// The position of the first byte at or after `from` that is no digit.
fn scan_digits(text: &[u8], from: usize) -> (end: usize)
    requires
        from <= text.len(),
    ensures
        end == digits_end(text@, from as int),
        from <= end <= text.len(),
{
    let mut end = from;
    while end < text.len() && ZERO <= text[end] && text[end] <= NINE
        invariant
            from <= end <= text.len(),
            digits_end(text@, from as int) == digits_end(text@, end as int),
        decreases text.len() - end,
    {
        end += 1;
    }
    end
}

/// Tells whether `text`, from position `from` to its end, is `word` in
/// whatever case. `word` is written in small letters.
fn spells_word(text: &[u8], from: usize, word: &[u8]) -> (same: bool)
    requires
        from <= text.len(),
    ensures
        same == spells(text@, from as int, word@),
{
    if text.len() - from != word.len() {
        return false;
    }
    let mut i: usize = 0;
    while i < word.len()
        invariant
            from <= text.len(),
            text.len() - from == word.len(),
            i <= word.len(),
            forall|j: int| 0 <= j < i ==> lowered(#[trigger] text@[from + j]) == word@[j],
        decreases word.len() - i,
    {
        let byte = text[from + i];
        let small = if 65 <= byte && byte <= 90 {
            byte + 32
        } else {
            byte
        };
        if small != word[i] {
            assert(lowered(text@[from + i]) != word@[i as int]);
            return false;
        }
        i += 1;
    }
    true
}

/// Tells whether `text` is a number.
pub fn is_number_text(text: &[u8]) -> (accepted: bool)
    ensures
        accepted == is_number(text@),
{
    let len = text.len();
    let start: usize = if len > 0 && (text[0] == PLUS || text[0] == MINUS) {
        1
    } else {
        0
    };
    let inf: [u8; 3] = [105, 110, 102];
    let infinity: [u8; 8] = [105, 110, 102, 105, 110, 105, 116, 121];
    let nan: [u8; 3] = [110, 97, 110];
    assert(inf@ =~= word_inf());
    assert(infinity@ =~= word_infinity());
    assert(nan@ =~= word_nan());
    if spells_word(text, start, inf.as_slice()) || spells_word(text, start, infinity.as_slice())
        || spells_word(text, start, nan.as_slice()) {
        return true;
    }
    let whole_end = scan_digits(text, start);
    let has_point = whole_end < len && text[whole_end] == POINT;
    let mantissa_end = if has_point {
        scan_digits(text, whole_end + 1)
    } else {
        whole_end
    };
    let digit_count = if has_point {
        mantissa_end - start - 1
    } else {
        mantissa_end - start
    };
    if digit_count == 0 {
        return false;
    }
    if mantissa_end == len {
        return true;
    }
    if text[mantissa_end] != SMALL_E && text[mantissa_end] != CAPITAL_E {
        return false;
    }
    let digits_at = if mantissa_end + 1 < len && (text[mantissa_end + 1] == PLUS
        || text[mantissa_end + 1] == MINUS) {
        mantissa_end + 2
    } else {
        mantissa_end + 1
    };
    digits_at < len && scan_digits(text, digits_at) == len
}

/// The text of a number, kept as it was written.
#[derive(Debug, PartialEq, Eq)]
pub struct Numeral {
    text: Vec<u8>,
}

impl View for Numeral {
    type V = Seq<u8>;

    closed spec fn view(&self) -> Seq<u8> {
        self.text@
    }
}

impl Numeral {
    #[verifier::type_invariant]
    spec fn well_formed(self) -> bool {
        is_number(self.text@)
    }

    /// The numeral with the given text, if the text is a number.
    pub fn from_text(text: &[u8]) -> (numeral: Option<Numeral>)
        ensures
            numeral is Some <==> is_number(text@),
            numeral matches Some(n) ==> n@ == text@,
    {
        if is_number_text(text) {
            Some(Numeral { text: slice_to_vec(text) })
        } else {
            None
        }
    }

    /// The text of the numeral: a number, made of ASCII digits, signs,
    /// points and letters.
    pub fn as_bytes(&self) -> (text: &[u8])
        ensures
            text@ == self@,
            is_number(text@),
    {
        proof {
            use_type_invariant(self);
        }
        self.text.as_slice()
    }
}

impl Clone for Numeral {
    fn clone(&self) -> (copy: Numeral)
        ensures
            copy@ == self@,
    {
        proof {
            use_type_invariant(self);
        }
        Numeral { text: slice_to_vec(self.text.as_slice()) }
    }
}

} // verus!
