//! Novices and their mentors in a row of knights.
//!
//! A capital letter is a mentor, the same letter in lower case a novice of
//! the same order. There are three orders: `A`, `B` and `C`.

use vstd::prelude::*;
use vstd::slice::slice_subrange;
use vstd::string::StringSliceAdditionalSpecFns;
use crate::text::to_vec;
use crate::text::trim;
use crate::text::trimmed;

verus! {

/// The mentor of the first order, `A`.
pub const MENTOR_A: u8 = 65;

/// The mentor of the second order, `B`.
pub const MENTOR_B: u8 = 66;

/// The mentor of the third order, `C`.
pub const MENTOR_C: u8 = 67;

/// The novice of the first order, `a`.
pub const NOVICE_A: u8 = 97;

/// The novice of the second order, `b`.
pub const NOVICE_B: u8 = 98;

/// The novice of the third order, `c`.
pub const NOVICE_C: u8 = 99;

/// The mentor of the order of the novice `knight`, if `knight` is a novice.
pub open spec fn mentor_of(knight: u8) -> Option<u8> {
    if knight == NOVICE_A {
        Some(MENTOR_A)
    } else if knight == NOVICE_B {
        Some(MENTOR_B)
    } else if knight == NOVICE_C {
        Some(MENTOR_C)
    } else {
        None
    }
}

/// The predicate that holds of `knight` only.
pub open spec fn is_knight(knight: u8) -> spec_fn(u8) -> bool {
    |b: u8| b == knight
}

/// How many of `s` are `knight`.
pub open spec fn knights(s: Seq<u8>, knight: u8) -> nat {
    s.filter(is_knight(knight)).len()
}

/// The number of pairs of a `mentor` and a `novice` that stands somewhere
/// behind it in `s`.
pub open spec fn pairs(s: Seq<u8>, mentor: u8, novice: u8) -> nat
    decreases s.len(),
{
    if s.len() == 0 {
        0
    } else if s.last() == novice {
        pairs(s.drop_last(), mentor, novice) + knights(s.drop_last(), mentor)
    } else {
        pairs(s.drop_last(), mentor, novice)
    }
}

/// The number of pairs of a mentor and a novice of its order behind it,
/// over the three orders.
pub open spec fn pairs_of_all_orders(s: Seq<u8>) -> nat {
    pairs(s, MENTOR_A, NOVICE_A) + pairs(s, MENTOR_B, NOVICE_B) + pairs(s, MENTOR_C, NOVICE_C)
}

/// The end of the stretch of `s` in which the knight at `index` looks for
/// mentors: one past the knight that stands `max_distance` behind it, and
/// no further than the end of the row.
pub open spec fn reach_end(length: int, index: int, max_distance: int) -> int {
    if index + max_distance + 1 < length {
        index + max_distance + 1
    } else {
        length
    }
}

/// The start of the stretch of `s` in which the knight at `index` looks
/// for mentors: the knight that stands `max_distance` before it, and no
/// further than the start of the row.
pub open spec fn reach_start(index: int, max_distance: int) -> int {
    if index < max_distance {
        0
    } else {
        index - max_distance
    }
}

/// The number of mentors `mentor` that stand at most `max_distance` away
/// from the knight at `index`.
pub open spec fn mentors_near(s: Seq<u8>, index: int, max_distance: int, mentor: u8) -> nat {
    knights(
        s.subrange(
            reach_start(index, max_distance),
            reach_end(s.len() as int, index, max_distance),
        ),
        mentor,
    )
}

/// The number of pairs of a novice at an index from `from` up to `to` and
/// a mentor of its order at most `max_distance` away from it.
pub open spec fn near_pairs(s: Seq<u8>, from: int, to: int, max_distance: int) -> nat
    decreases to - from,
{
    if to <= from {
        0
    } else {
        near_pairs(s, from, to - 1, max_distance) + match mentor_of(s[to - 1]) {
            Some(mentor) => mentors_near(s, to - 1, max_distance, mentor),
            None => 0,
        }
    }
}

/// The row between two copies of `s`, as the novices at the start of a
/// copy see it: the last `max_distance` knights of the copy before, then
/// the first `2 * max_distance` knights of the copy itself.
pub open spec fn seam_at_start(s: Seq<u8>, max_distance: int) -> Seq<u8> {
    s.subrange(s.len() - max_distance, s.len() as int) + s.subrange(0, 2 * max_distance)
}

/// The row between two copies of `s`, as the novices at the end of a copy
/// see it: the last `2 * max_distance` knights of the copy itself, then
/// the first `max_distance` knights of the copy after.
pub open spec fn seam_at_end(s: Seq<u8>, max_distance: int) -> Seq<u8> {
    s.subrange(s.len() - 2 * max_distance, s.len() as int) + s.subrange(0, max_distance)
}

/// The end of the stretch of a seam whose novices are counted.
pub open spec fn seam_end(max_distance: int) -> int {
    if max_distance == 0 {
        0
    } else {
        2 * max_distance + 1
    }
}

/// The pairs that the novices near a seam between two copies form.
pub open spec fn seam_pairs(s: Seq<u8>, max_distance: int) -> nat {
    near_pairs(seam_at_start(s, max_distance), max_distance, seam_end(max_distance), max_distance)
        + near_pairs(
        seam_at_end(s, max_distance),
        max_distance,
        seam_end(max_distance),
        max_distance,
    )
}

/// The pairs that the novices at the two ends of a single copy form: the
/// first `max_distance` and the last `max_distance + 1` knights.
pub open spec fn end_pairs(s: Seq<u8>, max_distance: int) -> nat {
    near_pairs(s, 0, max_distance, max_distance) + near_pairs(
        s,
        s.len() - max_distance - 1,
        s.len() as int,
        max_distance,
    )
}

/// The pairs that the novices in the middle of a copy form: those that see
/// no other copy.
pub open spec fn middle_pairs(s: Seq<u8>, max_distance: int) -> nat {
    near_pairs(s, max_distance, s.len() - max_distance - 1, max_distance)
}

/// The number of pairs of a novice and a mentor of its order at most
/// `max_distance` away, in a row of `repeat` copies of `s`, counted copy
/// by copy: the seams between the copies, the two ends of the row, and the
/// middle of every copy.
pub open spec fn repeated_pairs(s: Seq<u8>, max_distance: int, repeat: int) -> nat {
    ((repeat - 1) * seam_pairs(s, max_distance) + end_pairs(s, max_distance) + middle_pairs(
        s,
        max_distance,
    ) * repeat) as nat
}

/// Pairs only come: a longer row has no fewer.
pub proof fn lemma_pairs_grow(s: Seq<u8>, count: int, mentor: u8, novice: u8)
    requires
        0 <= count <= s.len(),
    ensures
        pairs(s.take(count), mentor, novice) <= pairs(s, mentor, novice),
    decreases s.len(),
{
    if count < s.len() {
        lemma_pairs_grow(s.drop_last(), count, mentor, novice);
        assert(s.drop_last().take(count) =~= s.take(count));
    } else {
        assert(s.take(count) =~= s);
    }
}

/// Near pairs only come: a longer stretch has no fewer.
pub proof fn lemma_near_pairs_grow(s: Seq<u8>, from: int, middle: int, to: int, max_distance: int)
    requires
        from <= middle <= to,
    ensures
        near_pairs(s, from, middle, max_distance) <= near_pairs(s, from, to, max_distance),
    decreases to - middle,
{
    if middle < to {
        lemma_near_pairs_grow(s, from, middle, to - 1, max_distance);
    }
}

/// How many of `input[from..to]` are `knight`.
fn count_knights(input: &[u8], from: usize, to: usize, knight: u8) -> (count: usize)
    requires
        from <= to <= input@.len(),
    ensures
        count == knights(input@.subrange(from as int, to as int), knight),
        count <= to - from,
{
    let ghost part = input@.subrange(from as int, to as int);
    let mut count: usize = 0;
    let mut i: usize = from;
    assert(part.take(0) =~= Seq::<u8>::empty());
    while i < to
        invariant
            from <= i <= to <= input@.len(),
            part == input@.subrange(from as int, to as int),
            count <= i - from,
            count == knights(part.take(i - from), knight),
        decreases to - i,
    {
        proof {
            assert(part.take(i - from + 1) =~= part.take(i - from).push(input[i as int]));
            part.take(i - from).lemma_filter_push(input[i as int], is_knight(knight));
        }
        if input[i] == knight {
            count += 1;
        }
        i += 1;
    }
    assert(part.take(i - from) =~= part);
    count
}

/// The number of mentors of the order of the novice at `index` that stand
/// at most `max_distance` away from it. Fails where the knight at `index`
/// is no novice.
pub fn valid_knights(input: &[u8], index: usize, max_distance: usize) -> (result: Result<
    usize,
    String,
>)
    requires
        index < input@.len(),
    ensures
        match result {
            Ok(count) => mentor_of(input@[index as int]) is Some && count == mentors_near(
                input@,
                index as int,
                max_distance as int,
                mentor_of(input@[index as int])->Some_0,
            ),
            Err(message) => mentor_of(input@[index as int]) is None && message@
                == "Invalid knight type"@,
        },
{
    let knight = input[index];
    let knight_type = if knight == NOVICE_A {
        MENTOR_A
    } else if knight == NOVICE_B {
        MENTOR_B
    } else if knight == NOVICE_C {
        MENTOR_C
    } else {
        return Err("Invalid knight type".to_string());
    };
    let start_pos = if index < max_distance {
        0
    } else {
        index - max_distance
    };
    let end_pos = if max_distance < input.len() - index - 1 {
        index + max_distance + 1
    } else {
        input.len()
    };
    Ok(count_knights(input, start_pos, end_pos, knight_type))
}

/// The number of pairs of a `mentor` and a `novice` behind it.
fn count_pairs(input: &[u8], mentor: u8, novice: u8) -> (count: usize)
    requires
        pairs(input@, mentor, novice) <= usize::MAX,
    ensures
        count == pairs(input@, mentor, novice),
{
    let mut mentors: usize = 0;
    let mut count: usize = 0;
    let mut i: usize = 0;
    assert(input@.take(0) =~= Seq::<u8>::empty());
    while i < input.len()
        invariant
            i <= input.len(),
            pairs(input@, mentor, novice) <= usize::MAX,
            mentors <= i,
            mentors == knights(input@.take(i as int), mentor),
            count == pairs(input@.take(i as int), mentor, novice),
        decreases input.len() - i,
    {
        proof {
            assert(input@.take(i + 1) =~= input@.take(i as int).push(input[i as int]));
            assert(input@.take(i + 1).drop_last() =~= input@.take(i as int));
            input@.take(i as int).lemma_filter_push(input[i as int], is_knight(mentor));
            lemma_pairs_grow(input@, i + 1, mentor, novice);
        }
        if input[i] == novice {
            count = count + mentors;
        }
        if input[i] == mentor {
            mentors += 1;
        }
        i += 1;
    }
    assert(input@.take(i as int) =~= input@);
    count
}

/// The number of pairs of a mentor `A` and a novice `a` behind it.
pub fn part1(input: &[u8]) -> (count: usize)
    requires
        pairs(input@, MENTOR_A, NOVICE_A) <= usize::MAX,
    ensures
        count == pairs(input@, MENTOR_A, NOVICE_A),
{
    count_pairs(input, MENTOR_A, NOVICE_A)
}

/// The number of pairs of a mentor and a novice of its order behind it,
/// over the three orders.
pub fn part2(input: &[u8]) -> (count: usize)
    requires
        pairs_of_all_orders(input@) <= usize::MAX,
    ensures
        count == pairs_of_all_orders(input@),
{
    let a = count_pairs(input, MENTOR_A, NOVICE_A);
    let b = count_pairs(input, MENTOR_B, NOVICE_B);
    let c = count_pairs(input, MENTOR_C, NOVICE_C);
    a + b + c
}

/// The number of pairs of a novice at an index from `from` up to `to` and
/// a mentor of its order at most `max_distance` away.
fn count_near_pairs(input: &[u8], from: usize, to: usize, max_distance: usize) -> (count: usize)
    requires
        from <= to <= input@.len(),
        near_pairs(input@, from as int, to as int, max_distance as int) <= usize::MAX,
    ensures
        count == near_pairs(input@, from as int, to as int, max_distance as int),
{
    let mut count: usize = 0;
    let mut i: usize = from;
    while i < to
        invariant
            from <= i <= to <= input@.len(),
            near_pairs(input@, from as int, to as int, max_distance as int) <= usize::MAX,
            count == near_pairs(input@, from as int, i as int, max_distance as int),
        decreases to - i,
    {
        proof {
            lemma_near_pairs_grow(input@, from as int, i + 1, to as int, max_distance as int);
        }
        match valid_knights(input, i, max_distance) {
            Ok(near) => {
                count = count + near;
            },
            Err(_) => {},
        }
        i += 1;
    }
    count
}

/// Whether the counts for a row of `repeat` copies of `s` fit in the
/// machine's numbers, and `s` is long enough to be cut into its two ends
/// and a middle.
pub open spec fn can_repeat(s: Seq<u8>, max_distance: int, repeat: int) -> bool {
    &&& 2 * max_distance + 1 <= s.len()
    &&& seam_pairs(s, max_distance) <= usize::MAX
    &&& repeated_pairs(s, max_distance, repeat) <= usize::MAX
}

/// The number of pairs of a novice and a mentor of its order at most
/// `max_distance` away from it, in a row of `repeat` copies of `input`.
/// Fails where `repeat` is zero.
pub fn part3(input: &[u8], max_distance: usize, repeat: usize) -> (result: Result<usize, String>)
    requires
        repeat > 0 ==> can_repeat(input@, max_distance as int, repeat as int),
    ensures
        match result {
            Ok(count) => repeat > 0 && count == repeated_pairs(
                input@,
                max_distance as int,
                repeat as int,
            ),
            Err(message) => repeat == 0 && message@ == "Repeat count must be greater than 0"@,
        },
{
    if repeat == 0 {
        return Err("Repeat count must be greater than 0".to_string());
    }
    let length = input.len();
    let ghost s = input@;
    let ghost d = max_distance as int;
    let mut first_novices_input_repeat: Vec<u8> = Vec::new();
    first_novices_input_repeat.extend_from_slice(slice_subrange(input, length - max_distance, length));
    first_novices_input_repeat.extend_from_slice(slice_subrange(input, 0, max_distance * 2));
    assert(first_novices_input_repeat@ =~= seam_at_start(s, d));
    let mut last_novices_input_repeat: Vec<u8> = Vec::new();
    last_novices_input_repeat.extend_from_slice(
        slice_subrange(input, length - max_distance * 2, length),
    );
    last_novices_input_repeat.extend_from_slice(slice_subrange(input, 0, max_distance));
    assert(last_novices_input_repeat@ =~= seam_at_end(s, d));
    let seam_to = if max_distance == 0 {
        0
    } else {
        2 * max_distance + 1
    };
    let first_novices_knights_repeat = count_near_pairs(
        first_novices_input_repeat.as_slice(),
        max_distance,
        seam_to,
        max_distance,
    );
    let last_novices_knights_repeat = count_near_pairs(
        last_novices_input_repeat.as_slice(),
        max_distance,
        seam_to,
        max_distance,
    );
    let ghost seams = seam_pairs(s, d);
    let ghost ends = end_pairs(s, d);
    let ghost middle = middle_pairs(s, d);
    proof {
        assert(0 <= (repeat - 1) * seams) by (nonlinear_arith)
            requires
                repeat >= 1,
                seams >= 0,
        ;
        assert(0 <= middle * repeat) by (nonlinear_arith)
            requires
                repeat >= 1,
                middle >= 0,
        ;
        assert(middle <= middle * repeat) by (nonlinear_arith)
            requires
                repeat >= 1,
                middle >= 0,
        ;
    }
    let start_pairs = count_near_pairs(input, 0, max_distance, max_distance);
    let tail_pairs = count_near_pairs(input, length - max_distance - 1, length, max_distance);
    let inner_pairs = count_near_pairs(
        input,
        max_distance,
        length - max_distance - 1,
        max_distance,
    );
    Ok(
        (repeat - 1) * (first_novices_knights_repeat + last_novices_knights_repeat) + start_pairs
            + tail_pairs + inner_pairs * repeat,
    )
}

/// Reads the row of knights: the text without the white space round it.
pub fn parse_input(text: &str) -> (knights: Vec<u8>)
    ensures
        knights@ == trimmed(text.spec_bytes()),
{
    to_vec(trim(text.as_bytes()))
}

} // verus!
