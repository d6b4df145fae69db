//! Text: numbers and identifiers written out, and numbers read.

use uuid::Uuid;
use vstd::prelude::*;
use vstd::string::*;

verus! {

/// The decimal digit for a number below ten.
pub open spec fn digit(value: nat) -> char {
    (('0' as nat) + value) as char
}

/// A number in decimal notation, without leading zeros.
pub open spec fn decimal(value: nat) -> Seq<char>
    decreases value,
{
    if value < 10 {
        seq![digit(value)]
    } else {
        decimal(value / 10).push(digit(value % 10))
    }
}

/// The decimal digit for a number below ten, as a string.
fn digit_text(value: u64) -> (text: &'static str)
    requires
        value < 10,
    ensures
        text@ == seq![digit(value as nat)],
{
    proof {
        reveal_strlit("0");
        reveal_strlit("1");
        reveal_strlit("2");
        reveal_strlit("3");
        reveal_strlit("4");
        reveal_strlit("5");
        reveal_strlit("6");
        reveal_strlit("7");
        reveal_strlit("8");
        reveal_strlit("9");
    }
    let text: &'static str = match value {
        0 => "0",
        1 => "1",
        2 => "2",
        3 => "3",
        4 => "4",
        5 => "5",
        6 => "6",
        7 => "7",
        8 => "8",
        _ => "9",
    };
    assert(text@ =~= seq![digit(value as nat)]);
    text
}

/// Write a number in decimal notation at the end of a string.
pub fn append_decimal(text: &mut String, value: u64)
    ensures
        final(text)@ == old(text)@ + decimal(value as nat),
    decreases value,
{
    let ghost before = text@;
    if value >= 10 {
        append_decimal(text, value / 10);
    }
    text.append(digit_text(value % 10));
    assert(text@ =~= before + decimal(value as nat));
}

/// A number in decimal notation.
pub fn decimal_text(value: u64) -> (text: String)
    ensures
        text@ == decimal(value as nat),
{
    let mut text = String::new();
    append_decimal(&mut text, value);
    assert(text@ =~= decimal(value as nat));
    text
}

/// The lower-case hexadecimal digit for a number below sixteen.
pub open spec fn hex_digit(value: u128) -> char {
    if value < 10 {
        (('0' as u128) + value) as char
    } else {
        (('a' as u128) + value - 10) as char
    }
}

/// How many hyphens come before a position of a written UUID.
pub open spec fn hyphens_before(position: int) -> int {
    if position <= 8 {
        0
    } else if position <= 13 {
        1
    } else if position <= 18 {
        2
    } else if position <= 23 {
        3
    } else {
        4
    }
}

/// A UUID as it is written: 32 lower-case hexadecimal digits, most significant
/// first, in groups of 8, 4, 4, 4 and 12 with hyphens between.
pub open spec fn uuid_text(id: u128) -> Seq<char> {
    Seq::new(
        36,
        |position: int|
            if position == 8 || position == 13 || position == 18 || position == 23 {
                '-'
            } else {
                hex_digit((id >> (4 * (31 - (position - hyphens_before(position))))) & 0xf)
            },
    )
}

/// `uuid::Uuid` writes itself as [`uuid_text`]: lower case, hyphenated.
#[verifier::external_body]
pub(crate) fn format_uuid(id: u128) -> (text: String)
    ensures
        text@ == uuid_text(id),
{
    Uuid::from_u128(id).to_string()
}

/// Whether a character is white space in the sense of Unicode's `White_Space`
/// property.
pub open spec fn is_white_space(c: char) -> bool {
    let code = c as u32;
    ||| 0x9 <= code <= 0xd
    ||| code == 0x20 || code == 0x85 || code == 0xa0 || code == 0x1680
    ||| 0x2000 <= code <= 0x200a
    ||| code == 0x2028 || code == 0x2029 || code == 0x202f || code == 0x205f || code == 0x3000
}

/// A text without the white space it starts with.
pub open spec fn without_leading_space(text: Seq<char>) -> Seq<char>
    decreases text.len(),
{
    if text.len() > 0 && is_white_space(text.first()) {
        without_leading_space(text.drop_first())
    } else {
        text
    }
}

/// A text without the white space it ends with.
pub open spec fn without_trailing_space(text: Seq<char>) -> Seq<char>
    decreases text.len(),
{
    if text.len() > 0 && is_white_space(text.last()) {
        without_trailing_space(text.drop_last())
    } else {
        text
    }
}

/// A text without the white space around it.
pub open spec fn trimmed(text: Seq<char>) -> Seq<char> {
    without_trailing_space(without_leading_space(text))
}

/// `str::trim` removes white space from both ends.
#[verifier::external_body]
pub(crate) fn trim(text: &str) -> (inner: &str)
    ensures
        inner@ == trimmed(text@),
{
    text.trim()
}

/// Whether a character is a decimal digit.
pub open spec fn is_digit(c: char) -> bool {
    '0' <= c && c <= '9'
}

/// The digits of a number: what follows an optional plus sign.
pub open spec fn digits_of(text: Seq<char>) -> Seq<char> {
    if text.len() > 0 && text[0] == '+' {
        text.drop_first()
    } else {
        text
    }
}

/// Whether a text is an unsigned number: an optional plus sign, then one or
/// more decimal digits and nothing else.
pub open spec fn is_number(text: Seq<char>) -> bool {
    digits_of(text).len() > 0 && forall|i: int|
        0 <= i < digits_of(text).len() ==> is_digit(#[trigger] digits_of(text)[i])
}

/// The value of decimal digits.
pub open spec fn value_of_digits(digits: Seq<char>) -> nat
    decreases digits.len(),
{
    if digits.len() == 0 {
        0
    } else {
        10 * value_of_digits(digits.drop_last()) + (digits.last() as nat - '0' as nat) as nat
    }
}

/// The value of an unsigned number.
pub open spec fn number_value(text: Seq<char>) -> nat {
    value_of_digits(digits_of(text))
}

/// Whether a text is an unsigned number of at most `max`.
pub open spec fn is_number_up_to(text: Seq<char>, max: int) -> bool {
    is_number(text) && number_value(text) <= max
}

/// What `u16::from_str` says of a text it does not accept.
pub uninterp spec fn u16_complaint(text: Seq<char>) -> Seq<char>;

/// `str::parse::<u16>` accepts exactly the unsigned numbers that fit. The words
/// of its error are not stated, only that they depend on the text alone.
#[verifier::external_body]
pub(crate) fn parse_u16(text: &str) -> (parsed: Result<u16, String>)
    ensures
        parsed is Ok <==> is_number_up_to(text@, u16::MAX as int),
        parsed matches Ok(value) ==> value == number_value(text@),
        parsed matches Err(complaint) ==> complaint@ == u16_complaint(text@),
{
    text.parse::<u16>().map_err(|error| error.to_string())
}

/// What `u32::from_str` says of a text it does not accept.
pub uninterp spec fn u32_complaint(text: Seq<char>) -> Seq<char>;

/// `str::parse::<u32>` accepts exactly the unsigned numbers that fit. The words
/// of its error are not stated, only that they depend on the text alone.
#[verifier::external_body]
pub(crate) fn parse_u32(text: &str) -> (parsed: Result<u32, String>)
    ensures
        parsed is Ok <==> is_number_up_to(text@, u32::MAX as int),
        parsed matches Ok(value) ==> value == number_value(text@),
        parsed matches Err(complaint) ==> complaint@ == u32_complaint(text@),
{
    text.parse::<u32>().map_err(|error| error.to_string())
}

/// What `u64::from_str` says of a text it does not accept.
pub uninterp spec fn u64_complaint(text: Seq<char>) -> Seq<char>;

/// `str::parse::<u64>` accepts exactly the unsigned numbers that fit. The words
/// of its error are not stated, only that they depend on the text alone.
#[verifier::external_body]
pub(crate) fn parse_u64(text: &str) -> (parsed: Result<u64, String>)
    ensures
        parsed is Ok <==> is_number_up_to(text@, u64::MAX as int),
        parsed matches Ok(value) ==> value == number_value(text@),
        parsed matches Err(complaint) ==> complaint@ == u64_complaint(text@),
{
    text.parse::<u64>().map_err(|error| error.to_string())
}

/// What `usize::from_str` says of a text it does not accept, where `max` is the
/// largest `usize`.
pub uninterp spec fn usize_complaint(text: Seq<char>, max: int) -> Seq<char>;

/// `str::parse::<usize>` accepts exactly the unsigned numbers that fit. The
/// words of its error are not stated, only that they depend on the text and on
/// how large a `usize` can be.
#[verifier::external_body]
pub(crate) fn parse_usize(text: &str) -> (parsed: Result<usize, String>)
    ensures
        parsed is Ok <==> is_number_up_to(text@, usize::MAX as int),
        parsed matches Ok(value) ==> value == number_value(text@),
        parsed matches Err(complaint) ==> complaint@ == usize_complaint(text@, usize::MAX as int),
{
    text.parse::<usize>().map_err(|error| error.to_string())
}

/// A number written in decimal reads back as itself, and has no leading zero unless
/// it is zero.
pub proof fn law_decimal_reads_back(value: nat)
    ensures
        is_number(decimal(value)),
        number_value(decimal(value)) == value,
        decimal(value).len() > 0,
        value > 0 ==> decimal(value)[0] != '0',
        value == 0 ==> decimal(value) == seq!['0'],
    decreases value,
{
    lemma_decimal_digits(value);
    let text = decimal(value);
    assert(is_digit(text[0]));
    assert(digits_of(text) == text);
}

proof fn lemma_decimal_digits(value: nat)
    ensures
        decimal(value).len() > 0,
        forall|i: int| 0 <= i < decimal(value).len() ==> is_digit(#[trigger] decimal(value)[i]),
        value_of_digits(decimal(value)) == value,
        value > 0 ==> decimal(value)[0] != '0',
    decreases value,
{
    let text = decimal(value);
    let last = digit(value % 10);
    assert(is_digit(last) && last as nat - '0' as nat == value % 10);
    if value < 10 {
        assert(text.drop_last() =~= Seq::<char>::empty());
        assert(value_of_digits(text.drop_last()) == 0);
    } else {
        lemma_decimal_digits(value / 10);
        assert(text.drop_last() =~= decimal(value / 10));
    }
}

/// Trimming takes off white space at both ends and nothing else: what is left is a
/// stretch of the text that neither starts nor ends with white space.
pub proof fn law_trimming_takes_off_white_space_only(text: Seq<char>) -> (cut: (int, int))
    ensures
        0 <= cut.0 <= cut.1 <= text.len(),
        trimmed(text) == text.subrange(cut.0, cut.1),
        forall|i: int| 0 <= i < cut.0 ==> is_white_space(#[trigger] text[i]),
        forall|i: int| cut.1 <= i < text.len() ==> is_white_space(#[trigger] text[i]),
        cut.0 < cut.1 ==> !is_white_space(text[cut.0]) && !is_white_space(text[cut.1 - 1]),
{
    let start = lemma_leading_space(text);
    let rest = text.subrange(start, text.len() as int);
    let end = lemma_trailing_space(rest);
    assert(rest.subrange(0, end) =~= text.subrange(start, start + end));
    assert forall|i: int| start + end <= i < text.len() implies is_white_space(
        #[trigger] text[i],
    ) by {
        assert(rest[i - start] == text[i]);
    }
    if end > 0 {
        assert(rest[0] == text[start]);
        assert(rest[end - 1] == text[start + end - 1]);
    }
    (start, start + end)
}

proof fn lemma_leading_space(text: Seq<char>) -> (start: int)
    ensures
        0 <= start <= text.len(),
        without_leading_space(text) == text.subrange(start, text.len() as int),
        forall|i: int| 0 <= i < start ==> is_white_space(#[trigger] text[i]),
        start < text.len() ==> !is_white_space(text[start]),
    decreases text.len(),
{
    if text.len() > 0 && is_white_space(text.first()) {
        let rest = text.drop_first();
        let start = lemma_leading_space(rest);
        assert(rest.subrange(start, rest.len() as int) =~= text.subrange(
            start + 1,
            text.len() as int,
        ));
        assert forall|i: int| 0 <= i < start + 1 implies is_white_space(#[trigger] text[i]) by {
            if i > 0 {
                assert(rest[i - 1] == text[i]);
            }
        }
        start + 1
    } else {
        assert(text.subrange(0, text.len() as int) =~= text);
        0
    }
}

proof fn lemma_trailing_space(text: Seq<char>) -> (end: int)
    ensures
        0 <= end <= text.len(),
        without_trailing_space(text) == text.subrange(0, end),
        forall|i: int| end <= i < text.len() ==> is_white_space(#[trigger] text[i]),
        end > 0 ==> !is_white_space(text[end - 1]),
    decreases text.len(),
{
    if text.len() > 0 && is_white_space(text.last()) {
        let rest = text.drop_last();
        let end = lemma_trailing_space(rest);
        assert(rest.subrange(0, end) =~= text.subrange(0, end));
        assert forall|i: int| end <= i < text.len() implies is_white_space(#[trigger] text[i]) by {
            if i < rest.len() {
                assert(rest[i] == text[i]);
            }
        }
        end
    } else {
        assert(text.subrange(0, text.len() as int) =~= text);
        text.len() as int
    }
}

} // verus!
