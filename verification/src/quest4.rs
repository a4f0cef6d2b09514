//! Gears that drive each other.
//!
//! The quest turns the numbers of teeth of a row of gears into turns of
//! the last gear. This module reads the rows; the turns are worked out
//! with fractions that the machine rounds, outside this library.

use vstd::prelude::*;
use vstd::string::StringSliceAdditionalSpecFns;
use crate::text::all_numbers;
use crate::text::contents;
use crate::text::find_byte;
use crate::text::lines;
use crate::text::lines_of;
use crate::text::numbers_of;
use crate::text::parse_u32;
use crate::text::parse_u32_fields;
use crate::text::parsed_unsigned;
use crate::text::split_once;
use crate::text::trim;
use crate::text::trimmed;
use crate::text::values_u32;
use crate::text::ParseError;

verus! {

/// The bar that stands between the two gears of one shaft.
pub const BAR: u8 = 124;

/// The digit zero.
pub const ZERO: u8 = 48;

/// The line feed.
pub const LINE_FEED: u8 = 10;

/// Reads a row of gears: one number of teeth on each line. Fails with
/// `InvalidNumber` where a line is no number of 32 bits.
pub fn parse_gears(text: &str) -> (result: Result<Vec<u32>, ParseError>)
    ensures
        match result {
            Ok(gears) => all_numbers(lines_of(text.spec_bytes()), u32::MAX as nat) && values_u32(
                gears@,
            ) == numbers_of(lines_of(text.spec_bytes()), u32::MAX as nat),
            Err(e) => e == ParseError::InvalidNumber && !all_numbers(
                lines_of(text.spec_bytes()),
                u32::MAX as nat,
            ),
        },
{
    let rows = lines(text.as_bytes());
    match parse_u32_fields(&rows) {
        Some(gears) => Ok(gears),
        None => Err(ParseError::InvalidNumber),
    }
}

/// The text of a row of shafts with a gear of no teeth put before the
/// first gear and behind the last, so that every line holds two gears.
pub open spec fn padded(text: Seq<u8>) -> Seq<u8> {
    seq![ZERO, BAR] + trimmed(text) + seq![BAR, ZERO]
}

/// What a line of a row of shafts holds: the two numbers on either side
/// of its first bar.
pub open spec fn shaft_of(line: Seq<u8>) -> Result<(nat, nat), ParseError> {
    let at = find_byte(line, 0, BAR);
    if at >= line.len() {
        Err(ParseError::MissingSeparator)
    } else {
        match (
            parsed_unsigned(line.subrange(0, at), u32::MAX as nat),
            parsed_unsigned(line.subrange(at + 1, line.len() as int), u32::MAX as nat),
        ) {
            (Some(first), Some(second)) => Ok((first, second)),
            _ => Err(ParseError::InvalidNumber),
        }
    }
}

/// Reads the shaft of one line.
pub fn parse_shaft(line: &[u8]) -> (result: Result<(u32, u32), ParseError>)
    ensures
        match result {
            Ok(pair) => shaft_of(line@) == Ok::<(nat, nat), ParseError>(
                (pair.0 as nat, pair.1 as nat),
            ),
            Err(e) => shaft_of(line@) == Err::<(nat, nat), ParseError>(e),
        },
{
    match split_once(line, BAR) {
        Some((head, tail)) => {
            match parse_u32(head) {
                Some(first) => match parse_u32(tail) {
                    Some(second) => Ok((first, second)),
                    None => Err(ParseError::InvalidNumber),
                },
                None => Err(ParseError::InvalidNumber),
            }
        },
        None => Err(ParseError::MissingSeparator),
    }
}

/// Reads a row of shafts. The text has the teeth of the first gear on its
/// first line and those of the last gear on its last line; each line
/// between them holds the two gears of one shaft with a bar between them.
/// The result pairs each gear with the gear that sits with it on a line
/// once a gear of no teeth is put before the first and behind the last.
///
/// Fails with the error of the first line that holds no two numbers.
pub fn parse_gear_pairs(text: &str) -> (result: Result<Vec<(u32, u32)>, ParseError>)
    ensures
        match result {
            Ok(pairs) => {
                &&& pairs@.len() == lines_of(padded(text.spec_bytes())).len()
                &&& forall|i: int|
                    0 <= i < pairs@.len() ==> shaft_of(
                        #[trigger] lines_of(padded(text.spec_bytes()))[i],
                    ) == Ok::<(nat, nat), ParseError>((pairs@[i].0 as nat, pairs@[i].1 as nat))
            },
            Err(e) => exists|i: int|
                {
                    &&& 0 <= i < lines_of(padded(text.spec_bytes())).len()
                    &&& shaft_of(#[trigger] lines_of(padded(text.spec_bytes()))[i]) == Err::<
                        (nat, nat),
                        ParseError,
                    >(e)
                    &&& forall|j: int|
                        0 <= j < i ==> shaft_of(
                            #[trigger] lines_of(padded(text.spec_bytes()))[j],
                        ) is Ok
                },
        },
{
    let mut parsed_input: Vec<u8> = Vec::new();
    parsed_input.push(ZERO);
    parsed_input.push(BAR);
    parsed_input.extend_from_slice(trim(text.as_bytes()));
    parsed_input.push(BAR);
    parsed_input.push(ZERO);
    assert(parsed_input@ =~= padded(text.spec_bytes()));
    let rows = lines(parsed_input.as_slice());
    let ghost all = lines_of(padded(text.spec_bytes()));
    assert(all == contents(rows@));
    let mut pairs: Vec<(u32, u32)> = Vec::new();
    let mut i: usize = 0;
    while i < rows.len()
        invariant
            i <= rows.len(),
            all == contents(rows@),
            all == lines_of(padded(text.spec_bytes())),
            pairs.len() == i,
            forall|k: int|
                0 <= k < i ==> shaft_of(#[trigger] all[k]) == Ok::<(nat, nat), ParseError>(
                    (pairs@[k].0 as nat, pairs@[k].1 as nat),
                ),
        decreases rows.len() - i,
    {
        assert(all[i as int] == rows@[i as int]@);
        match parse_shaft(rows[i]) {
            Ok(pair) => {
                pairs.push(pair);
            },
            Err(e) => {
                assert(shaft_of(all[i as int]) == Err::<(nat, nat), ParseError>(e));
                return Err(e);
            },
        }
        i += 1;
    }
    Ok(pairs)
}

} // verus!
