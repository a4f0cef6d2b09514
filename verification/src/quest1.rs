//! Walking along a list of names.
//!
//! An instruction moves a marker left or right by a distance. The quest
//! asks for the name under the marker at the end, for three ways of
//! reading the instructions.

use vstd::prelude::*;
use vstd::arithmetic::div_mod::lemma_fundamental_div_mod;
use vstd::arithmetic::div_mod::lemma_fundamental_div_mod_converse;
use vstd::slice::slice_subrange;
use vstd::string::StringSliceAdditionalSpecFns;
use vstd::utf8::decode_utf8;
use vstd::utf8::encode_utf8_valid_utf8;
use crate::text::contents;
use crate::text::fields_of;
use crate::text::all_utf8;
use crate::text::lemma_fields_of_utf8;
use crate::text::lemma_lines_of_utf8;
use crate::text::lemma_trimmed_utf8;
use crate::text::lines;
use crate::text::lines_of;
use crate::text::parse_u32;
use crate::text::parsed_unsigned;
use crate::text::split;
use crate::text::text_of;
use crate::text::trim;
use crate::text::trimmed;
use crate::text::ParseError;

verus! {

/// The direction to the left, `L`.
pub const LEFT: u8 = 76;

/// The direction to the right, `R`.
pub const RIGHT: u8 = 82;

/// A step of `distance` names in `direction`.
#[derive(Debug, Clone, Copy, PartialEq, Eq, Structural)]
pub struct Instruction {
    pub direction: u8,
    pub distance: u32,
}

/// Whether every instruction goes left or right.
pub open spec fn all_directions_known(instructions: Seq<Instruction>) -> bool {
    forall|i: int|
        0 <= i < instructions.len() ==> {
            ||| (#[trigger] instructions[i]).direction == LEFT
            ||| instructions[i].direction == RIGHT
        }
}

/// Where the marker stands after one instruction where the ends of the
/// list stop it: `last` is the last index.
pub open spec fn stopped_step(position: int, last: int, instruction: Instruction) -> int {
    if instruction.direction == LEFT {
        if position - instruction.distance < 0 {
            0
        } else {
            position - instruction.distance
        }
    } else {
        if position + instruction.distance > last {
            last
        } else {
            position + instruction.distance
        }
    }
}

/// Where the marker stands after the instructions where the ends of the
/// list stop it. It starts on the first name.
pub open spec fn stopped_walk(instructions: Seq<Instruction>, last: int) -> int
    decreases instructions.len(),
{
    if instructions.len() == 0 {
        0
    } else {
        stopped_step(stopped_walk(instructions.drop_last(), last), last, instructions.last())
    }
}

/// Where the marker stands after one instruction on a ring of `count`
/// names.
pub open spec fn ring_step(position: int, count: int, instruction: Instruction) -> int {
    if instruction.direction == LEFT {
        (position - instruction.distance) % count
    } else {
        (position + instruction.distance) % count
    }
}

/// Where the marker stands after the instructions on a ring of `count`
/// names. It starts on the first name.
pub open spec fn ring_walk(instructions: Seq<Instruction>, count: int) -> int
    decreases instructions.len(),
{
    if instructions.len() == 0 {
        0
    } else {
        ring_step(ring_walk(instructions.drop_last(), count), count, instructions.last())
    }
}

/// The place on a ring of `count` names that an instruction points to
/// from the first name.
pub open spec fn ring_target(count: int, instruction: Instruction) -> int {
    if instruction.direction == LEFT {
        (-(instruction.distance as int)) % count
    } else {
        (instruction.distance as int) % count
    }
}

/// `order` with the entries at `i` and `j` exchanged.
pub open spec fn exchanged(order: Seq<int>, i: int, j: int) -> Seq<int> {
    order.update(i, order[j]).update(j, order[i])
}

/// The order of the names after the instructions, where each instruction
/// exchanges the first name with the name that it points to: the entry at
/// a place is the index that the name there had at the start.
pub open spec fn exchanges(instructions: Seq<Instruction>, count: int) -> Seq<int>
    decreases instructions.len(),
{
    if instructions.len() == 0 {
        Seq::new(count as nat, |i: int| i)
    } else {
        exchanged(
            exchanges(instructions.drop_last(), count),
            0,
            ring_target(count, instructions.last()),
        )
    }
}

/// The walks stay on the list, and the exchanges keep it a list of its
/// indices.
pub proof fn lemma_walks_in_range(instructions: Seq<Instruction>, count: int)
    requires
        count > 0,
    ensures
        0 <= stopped_walk(instructions, count - 1) < count,
        0 <= ring_walk(instructions, count) < count,
        exchanges(instructions, count).len() == count,
        forall|i: int|
            0 <= i < count ==> 0 <= #[trigger] exchanges(instructions, count)[i] < count,
    decreases instructions.len(),
{
    if instructions.len() > 0 {
        lemma_walks_in_range(instructions.drop_last(), count);
    }
}

/// The place `distance` names to the right of `position` on a ring of
/// `count` names.
fn ring_right(position: usize, distance: u32, count: usize) -> (place: usize)
    requires
        position < count,
    ensures
        place == (position + distance) % (count as int),
        place < count,
{
    let rest = distance as usize % count;
    let place = if rest >= count - position {
        rest - (count - position)
    } else {
        position + rest
    };
    proof {
        let d = distance as int;
        let n = count as int;
        lemma_fundamental_div_mod(d, n);
        if rest >= count - position {
            assert(position + d == (d / n + 1) * n + place) by (nonlinear_arith)
                requires
                    d == n * (d / n) + rest,
                    place == position + rest - n,
            ;
            lemma_fundamental_div_mod_converse(position + d, n, d / n + 1, place as int);
        } else {
            assert(position + d == (d / n) * n + place) by (nonlinear_arith)
                requires
                    d == n * (d / n) + rest,
                    place == position + rest,
            ;
            lemma_fundamental_div_mod_converse(position + d, n, d / n, place as int);
        }
    }
    place
}

/// The place `distance` names to the left of `position` on a ring of
/// `count` names.
fn ring_left(position: usize, distance: u32, count: usize) -> (place: usize)
    requires
        position < count,
    ensures
        place == (position - distance) % (count as int),
        place < count,
{
    let rest = distance as usize % count;
    let place = if rest <= position {
        position - rest
    } else {
        count - (rest - position)
    };
    proof {
        let d = distance as int;
        let n = count as int;
        lemma_fundamental_div_mod(d, n);
        if rest <= position {
            assert(position - d == (-(d / n)) * n + place) by (nonlinear_arith)
                requires
                    d == n * (d / n) + rest,
                    place == position - rest,
            ;
            lemma_fundamental_div_mod_converse(position - d, n, -(d / n), place as int);
        } else {
            assert(position - d == (-(d / n) - 1) * n + place) by (nonlinear_arith)
                requires
                    d == n * (d / n) + rest,
                    place == n - rest + position,
            ;
            lemma_fundamental_div_mod_converse(position - d, n, -(d / n) - 1, place as int);
        }
    }
    place
}

/// The name under the marker after the instructions, where the marker
/// starts on the first name and stops at either end of the list.
pub fn part1(names: &[String], instructions: &[Instruction]) -> (name: String)
    requires
        names@.len() > 0,
        all_directions_known(instructions@),
    ensures
        name == names@[stopped_walk(instructions@, names@.len() - 1)],
{
    proof {
        lemma_walks_in_range(instructions@, names@.len() as int);
    }
    let last = names.len() - 1;
    let mut current_name_index: usize = 0;
    let mut i: usize = 0;
    assert(instructions@.take(0) =~= Seq::<Instruction>::empty());
    while i < instructions.len()
        invariant
            i <= instructions.len(),
            last == names@.len() - 1,
            all_directions_known(instructions@),
            current_name_index <= last,
            current_name_index == stopped_walk(instructions@.take(i as int), last as int),
        decreases instructions.len() - i,
    {
        let instruction = &instructions[i];
        proof {
            assert(instructions@.take(i + 1).drop_last() =~= instructions@.take(i as int));
        }
        let distance = instruction.distance as usize;
        if instruction.direction == LEFT {
            current_name_index = if distance > current_name_index {
                0
            } else {
                current_name_index - distance
            };
        } else {
            current_name_index = if distance > last - current_name_index {
                last
            } else {
                current_name_index + distance
            };
        }
        i += 1;
    }
    assert(instructions@.take(i as int) =~= instructions@);
    names[current_name_index].clone()
}

/// The name under the marker after the instructions, where the marker
/// starts on the first name and the list is a ring.
pub fn part2(names: &[String], instructions: &[Instruction]) -> (name: String)
    requires
        names@.len() > 0,
        all_directions_known(instructions@),
    ensures
        name == names@[ring_walk(instructions@, names@.len() as int)],
{
    proof {
        lemma_walks_in_range(instructions@, names@.len() as int);
    }
    let count = names.len();
    let mut current_name_index: usize = 0;
    let mut i: usize = 0;
    assert(instructions@.take(0) =~= Seq::<Instruction>::empty());
    while i < instructions.len()
        invariant
            i <= instructions.len(),
            count == names@.len(),
            all_directions_known(instructions@),
            current_name_index < count,
            current_name_index == ring_walk(instructions@.take(i as int), count as int),
        decreases instructions.len() - i,
    {
        let instruction = &instructions[i];
        proof {
            assert(instructions@.take(i + 1).drop_last() =~= instructions@.take(i as int));
        }
        if instruction.direction == LEFT {
            current_name_index = ring_left(current_name_index, instruction.distance, count);
        } else {
            current_name_index = ring_right(current_name_index, instruction.distance, count);
        }
        i += 1;
    }
    assert(instructions@.take(i as int) =~= instructions@);
    names[current_name_index].clone()
}

/// The first name after the instructions, where each instruction
/// exchanges the first name with the name that it points to on the ring.
pub fn part3(names: &[String], instructions: &[Instruction]) -> (name: String)
    requires
        names@.len() > 0,
        all_directions_known(instructions@),
    ensures
        name == names@[exchanges(instructions@, names@.len() as int)[0]],
{
    proof {
        lemma_walks_in_range(instructions@, names@.len() as int);
    }
    let count = names.len();
    let mut order: Vec<usize> = Vec::new();
    let mut k: usize = 0;
    while k < count
        invariant
            k <= count,
            order.len() == k,
            forall|j: int| 0 <= j < k ==> order[j] == j,
        decreases count - k,
    {
        order.push(k);
        k += 1;
    }
    let mut i: usize = 0;
    assert(instructions@.take(0) =~= Seq::<Instruction>::empty());
    while i < instructions.len()
        invariant
            i <= instructions.len(),
            count == names@.len(),
            count > 0,
            all_directions_known(instructions@),
            order.len() == count,
            forall|j: int|
                0 <= j < count ==> order[j] == exchanges(
                    instructions@.take(i as int),
                    count as int,
                )[j],
        decreases instructions.len() - i,
    {
        let instruction = &instructions[i];
        proof {
            assert(instructions@.take(i + 1).drop_last() =~= instructions@.take(i as int));
            lemma_walks_in_range(instructions@.take(i as int), count as int);
        }
        let swap_position_with = if instruction.direction == LEFT {
            ring_left(0, instruction.distance, count)
        } else {
            ring_right(0, instruction.distance, count)
        };
        let first = order[0];
        let other = order[swap_position_with];
        order[0] = other;
        order[swap_position_with] = first;
        i += 1;
    }
    assert(instructions@.take(i as int) =~= instructions@);
    proof {
        lemma_walks_in_range(instructions@, count as int);
    }
    names[order[0]].clone()
}

/// The comma.
pub const COMMA: u8 = 44;

/// What a field of the line of instructions holds: its first byte is the
/// direction, the rest the distance.
pub open spec fn instruction_of(field: Seq<u8>) -> Result<Instruction, ParseError> {
    if field.len() == 0 {
        Err(ParseError::EmptyField)
    } else {
        match parsed_unsigned(field.skip(1), u32::MAX as nat) {
            Some(distance) => Ok(Instruction { direction: field[0], distance: distance as u32 }),
            None => Err(ParseError::InvalidNumber),
        }
    }
}

/// Reads one instruction.
pub fn parse_instruction(field: &[u8]) -> (result: Result<Instruction, ParseError>)
    ensures
        result == instruction_of(field@),
{
    if field.len() == 0 {
        return Err(ParseError::EmptyField);
    }
    assert(field@.skip(1) =~= field@.subrange(1, field@.len() as int));
    match parse_u32(slice_subrange(field, 1, field.len())) {
        Some(distance) => Ok(Instruction { direction: field[0], distance }),
        None => Err(ParseError::InvalidNumber),
    }
}

/// The lines of the text of names and instructions: the text is trimmed
/// first.
pub open spec fn quest_lines(text: Seq<u8>) -> Seq<Seq<u8>> {
    lines_of(trimmed(text))
}

/// The fields of the names: the first line, cut at its commas.
pub open spec fn name_fields(text: Seq<u8>) -> Seq<Seq<u8>> {
    fields_of(quest_lines(text)[0], COMMA)
}

/// The fields of the instructions: the last line, cut at its commas.
pub open spec fn instruction_fields(text: Seq<u8>) -> Seq<Seq<u8>> {
    fields_of(quest_lines(text).last(), COMMA)
}

/// Reads the names and the instructions: the names stand on the first
/// line and the instructions on the last, each list with commas between
/// its fields. White space round the text is ignored. A name is the text
/// that the bytes of its field encode.
///
/// Fails with `MissingLine` for a text without a line, and else with the
/// error of the first field that is no instruction: `EmptyField` for a
/// field without a direction, `InvalidNumber` for a distance that is no
/// number of 32 bits.
pub fn parse_input(text: &str) -> (result: Result<(Vec<String>, Vec<Instruction>), ParseError>)
    ensures
        match result {
            Ok((names, instructions)) => {
                &&& quest_lines(text.spec_bytes()).len() > 0
                &&& names@.len() == name_fields(text.spec_bytes()).len()
                &&& forall|i: int|
                    0 <= i < names@.len() ==> (#[trigger] names@[i])@ == decode_utf8(
                        name_fields(text.spec_bytes())[i],
                    )
                &&& instructions@.len() == instruction_fields(text.spec_bytes()).len()
                &&& forall|i: int|
                    0 <= i < instructions@.len() ==> instruction_of(
                        #[trigger] instruction_fields(text.spec_bytes())[i],
                    ) == Ok::<Instruction, ParseError>(instructions@[i])
            },
            Err(e) => if quest_lines(text.spec_bytes()).len() == 0 {
                e == ParseError::MissingLine
            } else {
                exists|i: int|
                    {
                        &&& 0 <= i < instruction_fields(text.spec_bytes()).len()
                        &&& instruction_of(#[trigger] instruction_fields(text.spec_bytes())[i])
                            == Err::<Instruction, ParseError>(e)
                        &&& forall|j: int|
                            0 <= j < i ==> instruction_of(
                                #[trigger] instruction_fields(text.spec_bytes())[j],
                            ) is Ok
                    }
            },
        },
{
    let rows = lines(trim(text.as_bytes()));
    let ghost all = quest_lines(text.spec_bytes());
    assert(all == contents(rows@));
    if rows.len() == 0 {
        return Err(ParseError::MissingLine);
    }
    assert(all[0] == rows@[0]@);
    assert(all.last() == rows@[rows@.len() - 1]@);
    let name_list = split(rows[0], COMMA);
    let ghost name_texts = name_fields(text.spec_bytes());
    proof {
        encode_utf8_valid_utf8(text@);
        lemma_trimmed_utf8(text.spec_bytes());
        lemma_lines_of_utf8(trimmed(text.spec_bytes()));
        lemma_fields_of_utf8(all[0], COMMA);
    }
    let mut names: Vec<String> = Vec::new();
    let mut i: usize = 0;
    while i < name_list.len()
        invariant
            i <= name_list.len(),
            name_texts == contents(name_list@),
            all_utf8(name_texts),
            names.len() == i,
            forall|k: int| 0 <= k < i ==> (#[trigger] names@[k])@ == decode_utf8(name_texts[k]),
        decreases name_list.len() - i,
    {
        assert(name_texts[i as int] == name_list@[i as int]@);
        names.push(text_of(name_list[i]));
        i += 1;
    }
    let step_list = split(rows[rows.len() - 1], COMMA);
    let ghost step_texts = instruction_fields(text.spec_bytes());
    let mut instructions: Vec<Instruction> = Vec::new();
    let mut j: usize = 0;
    while j < step_list.len()
        invariant
            j <= step_list.len(),
            all == quest_lines(text.spec_bytes()),
            all.len() > 0,
            step_texts == contents(step_list@),
            step_texts == instruction_fields(text.spec_bytes()),
            instructions.len() == j,
            forall|k: int|
                0 <= k < j ==> instruction_of(#[trigger] step_texts[k]) == Ok::<
                    Instruction,
                    ParseError,
                >(instructions@[k]),
        decreases step_list.len() - j,
    {
        assert(step_texts[j as int] == step_list@[j as int]@);
        match parse_instruction(step_list[j]) {
            Ok(instruction) => {
                instructions.push(instruction);
            },
            Err(e) => {
                assert(instruction_of(step_texts[j as int]) == Err::<Instruction, ParseError>(e));
                return Err(e);
            },
        }
        j += 1;
    }
    Ok((names, instructions))
}

} // verus!
