//! Reading text as bytes: trimming, lines, fields and decimal numbers.
//!
//! A text is a sequence of bytes. Space means ASCII white space; a line
//! ends at a line feed, and the carriage return before the line feed is
//! not part of the line.

use vstd::prelude::*;
use vstd::slice::slice_subrange;
use vstd::utf8::decode_utf8;
use vstd::utf8::is_char_boundary;
use vstd::utf8::is_char_boundary_iff_not_is_continuation_byte;
use vstd::utf8::valid_utf8;
use vstd::utf8::valid_utf8_split;

verus! {

/// Why a text could not be read.
#[derive(Debug, PartialEq, Eq, Clone, Copy, Structural)]
pub enum ParseError {
    /// The text has no line where one is needed.
    MissingLine,
    /// A line has no separator where one is needed.
    MissingSeparator,
    /// A field is empty where it has to hold something.
    EmptyField,
    /// A field is no number, or a number that is too large.
    InvalidNumber,
}

/// The line feed.
pub const LINE_FEED: u8 = 10;

/// The carriage return.
pub const CARRIAGE_RETURN: u8 = 13;

/// The plus sign.
pub const PLUS: u8 = 43;

/// The minus sign.
pub const MINUS: u8 = 45;

/// The digit zero.
pub const DIGIT_ZERO: u8 = 48;

/// The digit nine.
pub const DIGIT_NINE: u8 = 57;

/// Whether `b` is ASCII white space: a blank, or one of tab, line feed,
/// vertical tab, form feed and carriage return.
pub open spec fn is_space(b: u8) -> bool {
    b == 32 || 9 <= b <= 13
}

/// The first index at or after `from` that holds no space, or the length
/// of `s` if there is none.
pub open spec fn skip_spaces(s: Seq<u8>, from: int) -> int
    decreases s.len() - from,
{
    if 0 <= from < s.len() && is_space(s[from]) {
        skip_spaces(s, from + 1)
    } else {
        from
    }
}

/// The end of `s[from..to]` without the spaces at its end.
pub open spec fn drop_spaces(s: Seq<u8>, from: int, to: int) -> int
    decreases to - from,
{
    if from < to <= s.len() && is_space(s[to - 1]) {
        drop_spaces(s, from, to - 1)
    } else {
        to
    }
}

/// `s` without the spaces at its start and at its end.
pub open spec fn trimmed(s: Seq<u8>) -> Seq<u8> {
    let start = skip_spaces(s, 0);
    s.subrange(start, drop_spaces(s, start, s.len() as int))
}

/// The first index at or after `from` that holds `b`, or the length of `s`
/// if there is none.
pub open spec fn find_byte(s: Seq<u8>, from: int, b: u8) -> int
    decreases s.len() - from,
{
    if 0 <= from < s.len() && s[from] != b {
        find_byte(s, from + 1, b)
    } else {
        from
    }
}

/// `line` without the carriage return at its end, if it has one.
pub open spec fn without_carriage_return(line: Seq<u8>) -> Seq<u8> {
    if line.len() > 0 && line.last() == CARRIAGE_RETURN {
        line.drop_last()
    } else {
        line
    }
}

/// The lines of `s` from index `from` on. A text that ends in a line feed
/// has no empty line after it.
pub open spec fn lines_from(s: Seq<u8>, from: int) -> Seq<Seq<u8>>
    decreases s.len() - from,
{
    if from < 0 || from >= s.len() {
        Seq::empty()
    } else {
        let end = find_byte(s, from, LINE_FEED);
        if from <= end < s.len() {
            seq![without_carriage_return(s.subrange(from, end))] + lines_from(s, end + 1)
        } else {
            seq![s.subrange(from, s.len() as int)]
        }
    }
}

/// The lines of `s`.
pub open spec fn lines_of(s: Seq<u8>) -> Seq<Seq<u8>> {
    lines_from(s, 0)
}

/// The fields of `s` from index `from` on, where `separator` stands
/// between two fields. There is always at least one field, and a field can
/// be empty.
pub open spec fn fields_from(s: Seq<u8>, from: int, separator: u8) -> Seq<Seq<u8>>
    decreases s.len() - from,
{
    let end = find_byte(s, from, separator);
    if 0 <= from <= end < s.len() {
        seq![s.subrange(from, end)] + fields_from(s, end + 1, separator)
    } else {
        seq![s.subrange(from, s.len() as int)]
    }
}

/// The fields of `s`.
pub open spec fn fields_of(s: Seq<u8>, separator: u8) -> Seq<Seq<u8>> {
    fields_from(s, 0, separator)
}

/// What a list of slices holds.
pub open spec fn contents(pieces: Seq<&[u8]>) -> Seq<Seq<u8>> {
    Seq::new(pieces.len(), |i: int| pieces[i]@)
}

/// Whether `b` is a decimal digit.
pub open spec fn is_digit(b: u8) -> bool {
    DIGIT_ZERO <= b <= DIGIT_NINE
}

/// The number that the digit `b` stands for; zero for any other byte.
pub open spec fn digit_value(b: u8) -> nat {
    if is_digit(b) {
        (b - DIGIT_ZERO) as nat
    } else {
        0
    }
}

/// Whether `s` holds digits only.
pub open spec fn all_digits(s: Seq<u8>) -> bool {
    forall|i: int| 0 <= i < s.len() ==> is_digit(#[trigger] s[i])
}

/// The number that the digits of `s` spell in base ten.
pub open spec fn decimal_value(s: Seq<u8>) -> nat
    decreases s.len(),
{
    if s.len() == 0 {
        0
    } else {
        decimal_value(s.drop_last()) * 10 + digit_value(s.last())
    }
}

/// `s` without the plus sign at its start, if it has one.
pub open spec fn without_plus(s: Seq<u8>) -> Seq<u8> {
    if s.len() > 0 && s[0] == PLUS {
        s.skip(1)
    } else {
        s
    }
}

/// The number that `s` spells, if `s` is a number of at most `max`: one
/// digit or more, with or without a plus sign before them.
pub open spec fn parsed_unsigned(s: Seq<u8>, max: nat) -> Option<nat> {
    let digits = without_plus(s);
    if digits.len() > 0 && all_digits(digits) && decimal_value(digits) <= max {
        Some(decimal_value(digits))
    } else {
        None
    }
}

/// A longer run of digits spells no smaller number.
pub proof fn lemma_decimal_value_grows(s: Seq<u8>, n: int)
    requires
        0 <= n <= s.len(),
    ensures
        decimal_value(s.take(n)) <= decimal_value(s),
    decreases s.len(),
{
    if n < s.len() {
        lemma_decimal_value_grows(s.drop_last(), n);
        assert(s.drop_last().take(n) =~= s.take(n));
    } else {
        assert(s.take(n) =~= s);
    }
}

/// Whether `b` is ASCII white space.
pub fn is_space_byte(b: u8) -> (space: bool)
    ensures
        space == is_space(b),
{
    b == 32 || (9 <= b && b <= 13)
}

/// The text without the spaces at its start and at its end.
pub fn trim(text: &[u8]) -> (out: &[u8])
    ensures
        out@ == trimmed(text@),
{
    let mut start: usize = 0;
    while start < text.len() && is_space_byte(text[start])
        invariant
            start <= text.len(),
            skip_spaces(text@, 0) == skip_spaces(text@, start as int),
        decreases text.len() - start,
    {
        start += 1;
    }
    let mut end: usize = text.len();
    while start < end && is_space_byte(text[end - 1])
        invariant
            start <= end <= text.len(),
            drop_spaces(text@, start as int, text@.len() as int) == drop_spaces(
                text@,
                start as int,
                end as int,
            ),
        decreases end - start,
    {
        end -= 1;
    }
    slice_subrange(text, start, end)
}

/// The first index at or after `from` that holds `b`, or the length of
/// the text if there is none.
pub fn find(text: &[u8], from: usize, b: u8) -> (at: usize)
    requires
        from <= text@.len(),
    ensures
        at == find_byte(text@, from as int, b),
        from <= at <= text@.len(),
        at < text@.len() ==> text@[at as int] == b,
{
    let mut at: usize = from;
    while at < text.len() && text[at] != b
        invariant
            from <= at <= text.len(),
            find_byte(text@, from as int, b) == find_byte(text@, at as int, b),
        decreases text.len() - at,
    {
        at += 1;
    }
    at
}

/// The line without the carriage return at its end, if it has one.
pub fn strip_carriage_return(line: &[u8]) -> (out: &[u8])
    ensures
        out@ == without_carriage_return(line@),
{
    if line.len() > 0 && line[line.len() - 1] == CARRIAGE_RETURN {
        slice_subrange(line, 0, line.len() - 1)
    } else {
        line
    }
}

/// The lines of the text.
pub fn lines(text: &[u8]) -> (out: Vec<&[u8]>)
    ensures
        contents(out@) == lines_of(text@),
{
    let mut out: Vec<&[u8]> = Vec::new();
    let mut start: usize = 0;
    assert(contents(out@) + lines_from(text@, 0) =~= lines_of(text@));
    while start < text.len()
        invariant
            start <= text.len(),
            contents(out@) + lines_from(text@, start as int) == lines_of(text@),
        decreases text.len() - start,
    {
        let end = find(text, start, LINE_FEED);
        let ghost before = contents(out@);
        if end < text.len() {
            let line = strip_carriage_return(slice_subrange(text, start, end));
            out.push(line);
            assert(contents(out@) =~= before.push(line@));
            assert(contents(out@) + lines_from(text@, end + 1) =~= before + lines_from(
                text@,
                start as int,
            ));
            start = end + 1;
        } else {
            let line = slice_subrange(text, start, end);
            out.push(line);
            assert(contents(out@) =~= before.push(line@));
            assert(contents(out@) + lines_from(text@, end as int) =~= before + lines_from(
                text@,
                start as int,
            ));
            start = end;
        }
    }
    assert(contents(out@) + lines_from(text@, start as int) =~= contents(out@));
    out
}

/// The fields of the text, where `separator` stands between two fields.
pub fn split(text: &[u8], separator: u8) -> (out: Vec<&[u8]>)
    ensures
        contents(out@) == fields_of(text@, separator),
        out@.len() > 0,
{
    let mut out: Vec<&[u8]> = Vec::new();
    let mut start: usize = 0;
    assert(contents(out@) + fields_from(text@, 0, separator) =~= fields_of(text@, separator));
    loop
        invariant
            start <= text.len(),
            contents(out@) + fields_from(text@, start as int, separator) == fields_of(
                text@,
                separator,
            ),
        decreases text.len() - start,
    {
        let end = find(text, start, separator);
        let ghost before = contents(out@);
        let field = slice_subrange(text, start, end);
        out.push(field);
        assert(contents(out@) =~= before.push(field@));
        if end < text.len() {
            assert(contents(out@) + fields_from(text@, end + 1, separator) =~= before
                + fields_from(text@, start as int, separator));
            start = end + 1;
        } else {
            assert(contents(out@) =~= before + fields_from(text@, start as int, separator));
            return out;
        }
    }
}

/// The text before the first `separator` and the text after it, or `None`
/// if the text holds no `separator`.
pub fn split_once(text: &[u8], separator: u8) -> (out: Option<(&[u8], &[u8])>)
    ensures
        match out {
            Some((head, tail)) => {
                let at = find_byte(text@, 0, separator);
                &&& at < text@.len()
                &&& head@ == text@.subrange(0, at)
                &&& tail@ == text@.subrange(at + 1, text@.len() as int)
            },
            None => find_byte(text@, 0, separator) == text@.len(),
        },
{
    let at = find(text, 0, separator);
    if at < text.len() {
        Some((slice_subrange(text, 0, at), slice_subrange(text, at + 1, text.len())))
    } else {
        None
    }
}

/// Reads a decimal number of at most `max`: one digit or more, with or
/// without a plus sign before them. Anything else gives `None`.
pub fn parse_unsigned(text: &[u8], max: u64) -> (out: Option<u64>)
    ensures
        match out {
            Some(n) => parsed_unsigned(text@, max as nat) == Some(n as nat),
            None => parsed_unsigned(text@, max as nat) is None,
        },
{
    let start: usize = if text.len() > 0 && text[0] == PLUS {
        1
    } else {
        0
    };
    let ghost digits = without_plus(text@);
    if start == text.len() {
        return None;
    }
    let mut value: u64 = 0;
    let mut i: usize = start;
    assert(digits.take(0) =~= Seq::<u8>::empty());
    while i < text.len()
        invariant
            start <= i <= text.len(),
            digits == without_plus(text@),
            digits.len() == text.len() - start,
            forall|k: int| 0 <= k < digits.len() ==> digits[k] == text@[start + k],
            all_digits(digits.take(i - start)),
            value == decimal_value(digits.take(i - start)),
            value <= max,
        decreases text.len() - i,
    {
        let b = text[i];
        proof {
            let longer = digits.take(i - start + 1);
            assert(longer.drop_last() =~= digits.take(i - start));
            assert(longer.last() == b);
            assert(decimal_value(longer) == value * 10 + digit_value(b));
            lemma_decimal_value_grows(digits, i - start + 1);
        }
        if b < DIGIT_ZERO || b > DIGIT_NINE {
            assert(!is_digit(digits[i - start]));
            return None;
        }
        let digit: u64 = (b - DIGIT_ZERO) as u64;
        if digit > max || value > (max - digit) / 10 {
            return None;
        }
        assert(all_digits(digits.take(i - start + 1)));
        value = value * 10 + digit;
        i += 1;
    }
    assert(digits.take(i - start) =~= digits);
    Some(value)
}

/// Reads a decimal number that fits in 32 bits.
pub fn parse_u32(text: &[u8]) -> (out: Option<u32>)
    ensures
        match out {
            Some(n) => parsed_unsigned(text@, u32::MAX as nat) == Some(n as nat),
            None => parsed_unsigned(text@, u32::MAX as nat) is None,
        },
{
    match parse_unsigned(text, 0xffff_ffff) {
        Some(n) => Some(n as u32),
        None => None,
    }
}

/// Reads a decimal number that fits in 16 bits.
pub fn parse_u16(text: &[u8]) -> (out: Option<u16>)
    ensures
        match out {
            Some(n) => parsed_unsigned(text@, u16::MAX as nat) == Some(n as nat),
            None => parsed_unsigned(text@, u16::MAX as nat) is None,
        },
{
    match parse_unsigned(text, 0xffff) {
        Some(n) => Some(n as u16),
        None => None,
    }
}

/// The number that `s` spells, if `s` is a number of 64 bits with a sign:
/// one digit or more, with or without a plus or a minus sign before them.
pub open spec fn parsed_signed(s: Seq<u8>) -> Option<int> {
    if s.len() > 0 && s[0] == MINUS {
        match parsed_unsigned(s.skip(1), 0x8000_0000_0000_0000) {
            Some(magnitude) => if s.len() > 1 && s[1] == PLUS {
                None
            } else {
                Some(-(magnitude as int))
            },
            None => None,
        }
    } else {
        match parsed_unsigned(s, 0x7fff_ffff_ffff_ffff) {
            Some(value) => Some(value as int),
            None => None,
        }
    }
}

/// Reads a decimal number of 64 bits with a sign.
pub fn parse_i64(text: &[u8]) -> (out: Option<i64>)
    ensures
        match out {
            Some(n) => parsed_signed(text@) == Some(n as int),
            None => parsed_signed(text@) is None,
        },
{
    if text.len() > 0 && text[0] == MINUS {
        if text.len() > 1 && text[1] == PLUS {
            return None;
        }
        match parse_unsigned(slice_subrange(text, 1, text.len()), 0x8000_0000_0000_0000) {
            Some(magnitude) => {
                if magnitude == 0x8000_0000_0000_0000 {
                    Some(i64::MIN)
                } else {
                    Some(-(magnitude as i64))
                }
            },
            None => None,
        }
    } else {
        match parse_unsigned(text, 0x7fff_ffff_ffff_ffff) {
            Some(value) => Some(value as i64),
            None => None,
        }
    }
}

/// Whether each of `fields` is a number of at most `max`.
pub open spec fn all_numbers(fields: Seq<Seq<u8>>, max: nat) -> bool {
    forall|i: int| 0 <= i < fields.len() ==> parsed_unsigned(#[trigger] fields[i], max) is Some
}

/// The numbers that `fields` spell.
pub open spec fn numbers_of(fields: Seq<Seq<u8>>, max: nat) -> Seq<nat> {
    Seq::new(fields.len(), |i: int| parsed_unsigned(fields[i], max)->Some_0)
}

/// The numbers of a list of 32-bit numbers.
pub open spec fn values_u32(numbers: Seq<u32>) -> Seq<nat> {
    Seq::new(numbers.len(), |i: int| numbers[i] as nat)
}

/// The numbers of a list of 16-bit numbers.
pub open spec fn values_u16(numbers: Seq<u16>) -> Seq<nat> {
    Seq::new(numbers.len(), |i: int| numbers[i] as nat)
}

/// Reads each field as a number that fits in 32 bits; `None` if one of
/// them is none.
pub fn parse_u32_fields(fields: &Vec<&[u8]>) -> (out: Option<Vec<u32>>)
    ensures
        match out {
            Some(numbers) => all_numbers(contents(fields@), u32::MAX as nat) && values_u32(
                numbers@,
            ) == numbers_of(contents(fields@), u32::MAX as nat),
            None => !all_numbers(contents(fields@), u32::MAX as nat),
        },
{
    let mut numbers: Vec<u32> = Vec::new();
    let mut i: usize = 0;
    while i < fields.len()
        invariant
            i <= fields.len(),
            numbers.len() == i,
            forall|k: int|
                0 <= k < i ==> parsed_unsigned(#[trigger] contents(fields@)[k], u32::MAX as nat)
                    == Some(numbers@[k] as nat),
        decreases fields.len() - i,
    {
        assert(contents(fields@)[i as int] == fields@[i as int]@);
        match parse_u32(fields[i]) {
            Some(n) => {
                numbers.push(n);
            },
            None => {
                return None;
            },
        }
        i += 1;
    }
    assert(values_u32(numbers@) =~= numbers_of(contents(fields@), u32::MAX as nat));
    Some(numbers)
}

/// Reads each field as a number that fits in 16 bits; `None` if one of
/// them is none.
pub fn parse_u16_fields(fields: &Vec<&[u8]>) -> (out: Option<Vec<u16>>)
    ensures
        match out {
            Some(numbers) => all_numbers(contents(fields@), u16::MAX as nat) && values_u16(
                numbers@,
            ) == numbers_of(contents(fields@), u16::MAX as nat),
            None => !all_numbers(contents(fields@), u16::MAX as nat),
        },
{
    let mut numbers: Vec<u16> = Vec::new();
    let mut i: usize = 0;
    while i < fields.len()
        invariant
            i <= fields.len(),
            numbers.len() == i,
            forall|k: int|
                0 <= k < i ==> parsed_unsigned(#[trigger] contents(fields@)[k], u16::MAX as nat)
                    == Some(numbers@[k] as nat),
        decreases fields.len() - i,
    {
        assert(contents(fields@)[i as int] == fields@[i as int]@);
        match parse_u16(fields[i]) {
            Some(n) => {
                numbers.push(n);
            },
            None => {
                return None;
            },
        }
        i += 1;
    }
    assert(values_u16(numbers@) =~= numbers_of(contents(fields@), u16::MAX as nat));
    Some(numbers)
}

/// The text that the bytes encode, by `String::from_utf8_lossy`: bytes
/// that are UTF-8 come out as the text that they encode.
#[verifier::external_body]
pub(crate) fn text_of(bytes: &[u8]) -> (text: String)
    ensures
        valid_utf8(bytes@) ==> text@ == decode_utf8(bytes@),
{
    String::from_utf8_lossy(bytes).into_owned()
}

/// A copy of the bytes.
pub fn to_vec(bytes: &[u8]) -> (copy: Vec<u8>)
    ensures
        copy@ == bytes@,
{
    let mut copy: Vec<u8> = Vec::new();
    let mut i: usize = 0;
    while i < bytes.len()
        invariant
            i <= bytes.len(),
            copy@ == bytes@.take(i as int),
        decreases bytes.len() - i,
    {
        copy.push(bytes[i]);
        assert(copy@ =~= bytes@.take(i + 1));
        i += 1;
    }
    assert(bytes@.take(i as int) =~= bytes@);
    copy
}

/// Whether every one of `pieces` is UTF-8.
pub open spec fn all_utf8(pieces: Seq<Seq<u8>>) -> bool {
    forall|i: int| 0 <= i < pieces.len() ==> valid_utf8(#[trigger] pieces[i])
}

/// What stands before an ASCII byte of a UTF-8 text is UTF-8, and so is
/// what stands behind it.
pub proof fn lemma_cut_at_ascii(s: Seq<u8>, at: int)
    requires
        valid_utf8(s),
        0 <= at < s.len(),
        s[at] < 128,
    ensures
        valid_utf8(s.subrange(0, at)),
        valid_utf8(s.subrange(at + 1, s.len() as int)),
{
    is_char_boundary_iff_not_is_continuation_byte(s, at);
    valid_utf8_split(s, at);
    let tail = s.subrange(at, s.len() as int);
    assert(tail[0] == s[at]);
    assert(is_char_boundary(tail, 1)) by {
        reveal_with_fuel(is_char_boundary, 2);
        reveal_with_fuel(valid_utf8, 2);
    }
    valid_utf8_split(tail, 1);
    assert(tail.subrange(1, tail.len() as int) =~= s.subrange(at + 1, s.len() as int));
}

/// A UTF-8 text without the spaces at its start is UTF-8.
pub proof fn lemma_skip_spaces_utf8(s: Seq<u8>, from: int)
    requires
        0 <= from <= s.len(),
        valid_utf8(s.subrange(from, s.len() as int)),
    ensures
        from <= skip_spaces(s, from) <= s.len(),
        valid_utf8(s.subrange(skip_spaces(s, from), s.len() as int)),
    decreases s.len() - from,
{
    if from < s.len() && is_space(s[from]) {
        let rest = s.subrange(from, s.len() as int);
        lemma_cut_at_ascii(rest, 0);
        assert(rest.subrange(1, rest.len() as int) =~= s.subrange(from + 1, s.len() as int));
        lemma_skip_spaces_utf8(s, from + 1);
    }
}

/// A UTF-8 text without the spaces at its end is UTF-8.
pub proof fn lemma_drop_spaces_utf8(s: Seq<u8>, from: int, to: int)
    requires
        0 <= from <= to <= s.len(),
        valid_utf8(s.subrange(from, to)),
    ensures
        from <= drop_spaces(s, from, to) <= to,
        valid_utf8(s.subrange(from, drop_spaces(s, from, to))),
    decreases to - from,
{
    if from < to && is_space(s[to - 1]) {
        let part = s.subrange(from, to);
        lemma_cut_at_ascii(part, to - 1 - from);
        assert(part.subrange(0, to - 1 - from) =~= s.subrange(from, to - 1));
        lemma_drop_spaces_utf8(s, from, to - 1);
    }
}

/// A UTF-8 text without the spaces round it is UTF-8.
pub proof fn lemma_trimmed_utf8(s: Seq<u8>)
    requires
        valid_utf8(s),
    ensures
        valid_utf8(trimmed(s)),
{
    assert(s.subrange(0, s.len() as int) =~= s);
    lemma_skip_spaces_utf8(s, 0);
    lemma_drop_spaces_utf8(s, skip_spaces(s, 0), s.len() as int);
}

/// Where an ASCII byte is looked for in a UTF-8 text, what stands before
/// the place found is UTF-8, and so is what stands behind it.
pub proof fn lemma_find_byte_utf8(s: Seq<u8>, from: int, b: u8)
    requires
        0 <= from <= s.len(),
        b < 128,
        valid_utf8(s.subrange(from, s.len() as int)),
    ensures
        from <= find_byte(s, from, b) <= s.len(),
        valid_utf8(s.subrange(from, find_byte(s, from, b))),
        find_byte(s, from, b) < s.len() ==> s[find_byte(s, from, b)] == b && valid_utf8(
            s.subrange(find_byte(s, from, b) + 1, s.len() as int),
        ),
{
    lemma_find_byte_in_range(s, from, b);
    let at = find_byte(s, from, b);
    let rest = s.subrange(from, s.len() as int);
    if at < s.len() {
        lemma_cut_at_ascii(rest, at - from);
        assert(rest.subrange(0, at - from) =~= s.subrange(from, at));
        assert(rest.subrange(at - from + 1, rest.len() as int) =~= s.subrange(
            at + 1,
            s.len() as int,
        ));
    } else {
        assert(s.subrange(from, at) =~= rest);
    }
}

/// The place found lies in the text from the start of the search on, and
/// it holds the byte looked for unless it is the end of the text.
pub proof fn lemma_find_byte_in_range(s: Seq<u8>, from: int, b: u8)
    requires
        0 <= from <= s.len(),
    ensures
        from <= find_byte(s, from, b) <= s.len(),
        find_byte(s, from, b) < s.len() ==> s[find_byte(s, from, b)] == b,
    decreases s.len() - from,
{
    if from < s.len() && s[from] != b {
        lemma_find_byte_in_range(s, from + 1, b);
    }
}

/// The lines of a UTF-8 text are UTF-8.
pub proof fn lemma_lines_utf8(s: Seq<u8>, from: int)
    requires
        0 <= from <= s.len(),
        valid_utf8(s.subrange(from, s.len() as int)),
    ensures
        all_utf8(lines_from(s, from)),
    decreases s.len() - from,
{
    if from < s.len() {
        lemma_find_byte_utf8(s, from, LINE_FEED);
        let end = find_byte(s, from, LINE_FEED);
        if end < s.len() {
            let line = s.subrange(from, end);
            if line.len() > 0 && line.last() == CARRIAGE_RETURN {
                lemma_cut_at_ascii(line, line.len() - 1);
            }
            lemma_lines_utf8(s, end + 1);
            let rest = lines_from(s, end + 1);
            let all = lines_from(s, from);
            assert forall|i: int| 0 <= i < all.len() implies valid_utf8(#[trigger] all[i]) by {
                if i > 0 {
                    assert(all[i] == rest[i - 1]);
                }
            }
        }
    }
}

/// The fields of a UTF-8 text between ASCII separators are UTF-8.
pub proof fn lemma_fields_utf8(s: Seq<u8>, from: int, separator: u8)
    requires
        0 <= from <= s.len(),
        separator < 128,
        valid_utf8(s.subrange(from, s.len() as int)),
    ensures
        all_utf8(fields_from(s, from, separator)),
    decreases s.len() - from,
{
    lemma_find_byte_utf8(s, from, separator);
    let end = find_byte(s, from, separator);
    if end < s.len() {
        lemma_fields_utf8(s, end + 1, separator);
        let rest = fields_from(s, end + 1, separator);
        let all = fields_from(s, from, separator);
        assert forall|i: int| 0 <= i < all.len() implies valid_utf8(#[trigger] all[i]) by {
            if i > 0 {
                assert(all[i] == rest[i - 1]);
            }
        }
    }
}

/// The lines of a UTF-8 text are UTF-8.
pub proof fn lemma_lines_of_utf8(s: Seq<u8>)
    requires
        valid_utf8(s),
    ensures
        all_utf8(lines_of(s)),
{
    assert(s.subrange(0, s.len() as int) =~= s);
    lemma_lines_utf8(s, 0);
}

/// The fields of a UTF-8 text between ASCII separators are UTF-8.
pub proof fn lemma_fields_of_utf8(s: Seq<u8>, separator: u8)
    requires
        valid_utf8(s),
        separator < 128,
    ensures
        all_utf8(fields_of(s, separator)),
{
    assert(s.subrange(0, s.len() as int) =~= s);
    lemma_fields_utf8(s, 0, separator);
}

} // verus!
