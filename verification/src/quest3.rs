//! Crates that nest by size.
//!
//! The quest asks for sums and counts over the sizes of a list of crates:
//! over the sizes that occur at all, over the smallest of them, and over
//! the size that occurs most often.

use vstd::prelude::*;
use vstd::relations::sorted_by;
use vstd::relations::total_ordering;
use vstd::seq_lib::lemma_sorted_unique;
use vstd::string::StringSliceAdditionalSpecFns;
use itertools::Itertools;
use crate::text::all_numbers;
use crate::text::fields_of;
use crate::text::numbers_of;
use crate::text::parse_u32_fields;
use crate::text::split;
use crate::text::trim;
use crate::text::trimmed;
use crate::text::values_u32;
use crate::text::ParseError;

verus! {

/// The predicate that holds of `value` only.
pub open spec fn equals(value: u32) -> spec_fn(u32) -> bool {
    |x: u32| x == value
}

/// How often `value` occurs in `s`.
pub open spec fn occurrences(s: Seq<u32>, value: u32) -> nat {
    s.filter(equals(value)).len()
}

/// The values of `s` without repetition: each value stands where it first
/// occurs.
pub open spec fn first_occurrences(s: Seq<u32>) -> Seq<u32>
    decreases s.len(),
{
    if s.len() == 0 {
        s
    } else if s.drop_last().contains(s.last()) {
        first_occurrences(s.drop_last())
    } else {
        first_occurrences(s.drop_last()).push(s.last())
    }
}

/// The values that occur in `s` more than once: each stands once, where it
/// occurs for the second time.
pub open spec fn second_occurrences(s: Seq<u32>) -> Seq<u32>
    decreases s.len(),
{
    if s.len() == 0 {
        s
    } else if occurrences(s.drop_last(), s.last()) == 1 {
        second_occurrences(s.drop_last()).push(s.last())
    } else {
        second_occurrences(s.drop_last())
    }
}

/// The order of the numbers.
pub open spec fn at_most() -> spec_fn(u32, u32) -> bool {
    |a: u32, b: u32| a <= b
}

/// The values of `s` from the smallest to the largest.
pub open spec fn ascending(s: Seq<u32>) -> Seq<u32> {
    s.sort_by(at_most())
}

/// The first `count` values of `s`, or all of `s` if it has fewer.
pub open spec fn first(s: Seq<u32>, count: int) -> Seq<u32> {
    if count < s.len() {
        s.take(count)
    } else {
        s
    }
}

/// The sum of the values of `s`.
pub open spec fn sum_of(s: Seq<u32>) -> nat
    decreases s.len(),
{
    if s.len() == 0 {
        0
    } else {
        sum_of(s.drop_last()) + s.last() as nat
    }
}

/// The largest number of occurrences in `s` of a value of `values`; zero
/// where `values` is empty.
pub open spec fn most_occurrences(s: Seq<u32>, values: Seq<u32>) -> nat
    decreases values.len(),
{
    if values.len() == 0 {
        0
    } else {
        let before = most_occurrences(s, values.drop_last());
        let here = occurrences(s, values.last());
        if here > before {
            here
        } else {
            before
        }
    }
}

/// The sum of a part of a list is no more than the sum of the list.
pub proof fn lemma_sum_of_grows(s: Seq<u32>, count: int)
    requires
        0 <= count <= s.len(),
    ensures
        sum_of(s.take(count)) <= sum_of(s),
    decreases s.len(),
{
    if count < s.len() {
        lemma_sum_of_grows(s.drop_last(), count);
        assert(s.drop_last().take(count) =~= s.take(count));
    } else {
        assert(s.take(count) =~= s);
    }
}

/// The values of `input` without repetition, by `Itertools::unique`: it
/// hands out each element that has not come before, in order.
#[verifier::external_body]
fn unique(input: &[u32]) -> (out: Vec<u32>)
    ensures
        out@ == first_occurrences(input@),
{
    input.iter().copied().unique().collect()
}

/// The values of `input` in ascending order, by `Itertools::sorted`: it
/// hands out the same elements, sorted.
#[verifier::external_body]
fn sorted(input: Vec<u32>) -> (out: Vec<u32>)
    ensures
        sorted_by(out@, at_most()),
        out@.to_multiset() == input@.to_multiset(),
{
    input.into_iter().sorted().collect()
}

/// The values that occur in `input` more than once, by
/// `Itertools::duplicates`: it hands out an element when it comes for the
/// second time, and never again.
#[verifier::external_body]
fn duplicates(input: &[u32]) -> (out: Vec<u32>)
    ensures
        out@ == second_occurrences(input@),
{
    input.iter().copied().duplicates().collect()
}

/// The sum of the first `count` values of `values`, or of all of them if
/// there are fewer.
fn sum_first(values: &Vec<u32>, count: usize) -> (sum: u32)
    requires
        sum_of(first(values@, count as int)) <= u32::MAX,
    ensures
        sum == sum_of(first(values@, count as int)),
{
    let end = if count < values.len() {
        count
    } else {
        values.len()
    };
    let ghost part = first(values@, count as int);
    assert(part =~= values@.take(end as int));
    let mut sum: u32 = 0;
    let mut i: usize = 0;
    assert(part.take(0) =~= Seq::<u32>::empty());
    while i < end
        invariant
            i <= end <= values.len(),
            part == values@.take(end as int),
            sum_of(part) <= u32::MAX,
            sum == sum_of(part.take(i as int)),
        decreases end - i,
    {
        proof {
            assert(part.take(i + 1).drop_last() =~= part.take(i as int));
            lemma_sum_of_grows(part, i + 1);
        }
        sum = sum + values[i];
        i += 1;
    }
    assert(part.take(i as int) =~= part);
    sum
}

/// The sum of the sizes that occur among the crates, each counted once.
pub fn part1(input: &[u32]) -> (sum: u32)
    requires
        sum_of(first_occurrences(input@)) <= u32::MAX,
    ensures
        sum == sum_of(first_occurrences(input@)),
{
    let sizes = unique(input);
    sum_first(&sizes, sizes.len())
}

/// The sum of the twenty smallest sizes that occur among the crates, each
/// counted once; of all of them where there are fewer than twenty.
pub fn part2(input: &[u32]) -> (sum: u32)
    requires
        sum_of(first(ascending(first_occurrences(input@)), 20)) <= u32::MAX,
    ensures
        sum == sum_of(first(ascending(first_occurrences(input@)), 20)),
{
    let sizes = unique(input);
    let ghost unsorted = sizes@;
    let sizes = sorted(sizes);
    proof {
        assert(total_ordering(at_most()));
        unsorted.lemma_sort_by_ensures(at_most());
        lemma_sorted_unique(sizes@, ascending(unsorted), at_most());
    }
    sum_first(&sizes, 20)
}

/// How often `value` occurs in `input`.
fn count_occurrences(input: &[u32], value: u32) -> (count: usize)
    ensures
        count == occurrences(input@, value),
{
    let mut count: usize = 0;
    let mut i: usize = 0;
    assert(input@.take(0) =~= Seq::<u32>::empty());
    while i < input.len()
        invariant
            i <= input.len(),
            count <= i,
            count == occurrences(input@.take(i as int), value),
        decreases input.len() - i,
    {
        proof {
            assert(input@.take(i + 1) =~= input@.take(i as int).push(input[i as int]));
            input@.take(i as int).lemma_filter_push(input[i as int], equals(value));
        }
        if input[i] == value {
            count += 1;
        }
        i += 1;
    }
    assert(input@.take(i as int) =~= input@);
    count
}

/// How often the most frequent size occurs among the crates, cut to 32
/// bits. Some size has to occur more than once.
pub fn part3(input: &[u32]) -> (count: u32)
    requires
        second_occurrences(input@).len() > 0,
    ensures
        count == most_occurrences(input@, second_occurrences(input@)) as u32,
{
    let repeated = duplicates(input);
    let mut most: usize = 0;
    let mut i: usize = 0;
    assert(repeated@.take(0) =~= Seq::<u32>::empty());
    while i < repeated.len()
        invariant
            i <= repeated.len(),
            most == most_occurrences(input@, repeated@.take(i as int)),
        decreases repeated.len() - i,
    {
        proof {
            assert(repeated@.take(i + 1).drop_last() =~= repeated@.take(i as int));
        }
        let here = count_occurrences(input, repeated[i]);
        if here > most {
            most = here;
        }
        i += 1;
    }
    assert(repeated@.take(i as int) =~= repeated@);
    #[verifier::truncate]
    (most as u32)
}

/// The comma.
pub const COMMA: u8 = 44;

/// The fields of a list of crates: the text is trimmed and cut at its
/// commas.
pub open spec fn crate_fields(text: Seq<u8>) -> Seq<Seq<u8>> {
    fields_of(trimmed(text), COMMA)
}

/// Reads the sizes of the crates: numbers with commas between them. White
/// space round the text is ignored. Fails with `InvalidNumber` where a
/// field is no number of 32 bits.
pub fn parse_input(text: &str) -> (result: Result<Vec<u32>, ParseError>)
    ensures
        match result {
            Ok(sizes) => all_numbers(crate_fields(text.spec_bytes()), u32::MAX as nat)
                && values_u32(sizes@) == numbers_of(
                crate_fields(text.spec_bytes()),
                u32::MAX as nat,
            ),
            Err(e) => e == ParseError::InvalidNumber && !all_numbers(
                crate_fields(text.spec_bytes()),
                u32::MAX as nat,
            ),
        },
{
    let fields = split(trim(text.as_bytes()), COMMA);
    match parse_u32_fields(&fields) {
        Some(sizes) => Ok(sizes),
        None => Err(ParseError::InvalidNumber),
    }
}

} // verus!
