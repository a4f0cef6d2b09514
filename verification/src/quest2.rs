//! Arithmetic on pairs of whole numbers, and a picture that it draws.
//!
//! A number is a pair `[x,y]`. One cycle squares a number, divides both
//! parts of the square by a divisor, and adds a fixed number. A point of
//! a grid is engraved where its cycles stay in a box round the origin.

use vstd::prelude::*;
use vstd::slice::slice_subrange;
use vstd::string::StringSliceAdditionalSpecFns;
use crate::text::find_byte;
use crate::text::parse_i64;
use crate::text::parsed_signed;
use crate::text::split_once;
use crate::text::trim;
use crate::text::trimmed;
use crate::text::ParseError;

verus! {

/// A pair of whole numbers.
#[derive(Debug, Clone, Copy, PartialEq, Eq, Structural)]
pub struct ComplexNumber {
    pub x: i64,
    pub y: i64,
}

impl View for ComplexNumber {
    type V = (int, int);

    open spec fn view(&self) -> (int, int) {
        (self.x as int, self.y as int)
    }
}

/// Whether `v` is a 64-bit number.
pub open spec fn fits(v: int) -> bool {
    i64::MIN <= v <= i64::MAX
}

/// `a` divided by `d`, rounded toward zero.
pub open spec fn toward_zero(a: int, d: int) -> int {
    if a >= 0 && d > 0 {
        a / d
    } else if a < 0 && d > 0 {
        -((-a) / d)
    } else if a >= 0 && d < 0 {
        -(a / (-d))
    } else {
        (-a) / (-d)
    }
}

/// The sum of two pairs: part by part.
pub open spec fn sum(a: (int, int), b: (int, int)) -> (int, int) {
    (a.0 + b.0, a.1 + b.1)
}

/// The product of two pairs.
pub open spec fn product(a: (int, int), b: (int, int)) -> (int, int) {
    (a.0 * b.0 - a.1 * b.1, a.0 * b.1 + a.1 * b.0)
}

/// The quotient of two pairs: part by part, each rounded toward zero.
pub open spec fn quotient(a: (int, int), b: (int, int)) -> (int, int) {
    (toward_zero(a.0, b.0), toward_zero(a.1, b.1))
}

/// Whether the machine can add the two pairs.
pub open spec fn can_add(a: (int, int), b: (int, int)) -> bool {
    fits(a.0 + b.0) && fits(a.1 + b.1)
}

/// Whether the machine can multiply the two pairs: each product of two
/// parts, and the difference and the sum of them, is a 64-bit number.
pub open spec fn can_multiply(a: (int, int), b: (int, int)) -> bool {
    &&& fits(a.0 * b.0)
    &&& fits(a.1 * b.1)
    &&& fits(a.0 * b.0 - a.1 * b.1)
    &&& fits(a.0 * b.1)
    &&& fits(a.1 * b.0)
    &&& fits(a.0 * b.1 + a.1 * b.0)
}

/// Whether the machine can divide the first pair by the second: no part
/// of the second is zero, and no part of the quotient is too large.
pub open spec fn can_divide(a: (int, int), b: (int, int)) -> bool {
    &&& b.0 != 0
    &&& b.1 != 0
    &&& !(a.0 == i64::MIN && b.0 == -1)
    &&& !(a.1 == i64::MIN && b.1 == -1)
}

/// One cycle: the square of `p`, divided by `divisor`, plus `c`.
pub open spec fn cycle(p: (int, int), c: (int, int), divisor: int) -> (int, int) {
    sum(quotient(product(p, p), (divisor, divisor)), c)
}

/// Whether the machine can take one cycle from `p`.
pub open spec fn can_cycle(p: (int, int), c: (int, int), divisor: int) -> bool {
    &&& fits(p.0)
    &&& fits(p.1)
    &&& can_multiply(p, p)
    &&& can_divide(product(p, p), (divisor, divisor))
    &&& can_add(quotient(product(p, p), (divisor, divisor)), c)
}

impl vstd::std_specs::ops::AddSpecImpl for ComplexNumber {
    open spec fn obeys_add_spec() -> bool {
        true
    }

    open spec fn add_req(self, other: ComplexNumber) -> bool {
        can_add(self@, other@)
    }

    open spec fn add_spec(self, other: ComplexNumber) -> ComplexNumber {
        ComplexNumber { x: (self.x + other.x) as i64, y: (self.y + other.y) as i64 }
    }
}

impl core::ops::Add for ComplexNumber {
    type Output = ComplexNumber;

    fn add(self, other: ComplexNumber) -> ComplexNumber {
        ComplexNumber { x: self.x + other.x, y: self.y + other.y }
    }
}

impl vstd::std_specs::ops::MulSpecImpl for ComplexNumber {
    open spec fn obeys_mul_spec() -> bool {
        true
    }

    open spec fn mul_req(self, other: ComplexNumber) -> bool {
        can_multiply(self@, other@)
    }

    open spec fn mul_spec(self, other: ComplexNumber) -> ComplexNumber {
        ComplexNumber {
            x: (self.x * other.x - self.y * other.y) as i64,
            y: (self.x * other.y + self.y * other.x) as i64,
        }
    }
}

impl core::ops::Mul for ComplexNumber {
    type Output = ComplexNumber;

    fn mul(self, other: ComplexNumber) -> ComplexNumber {
        ComplexNumber {
            x: self.x * other.x - self.y * other.y,
            y: self.x * other.y + self.y * other.x,
        }
    }
}

impl vstd::std_specs::ops::DivSpecImpl for ComplexNumber {
    open spec fn obeys_div_spec() -> bool {
        true
    }

    open spec fn div_req(self, other: ComplexNumber) -> bool {
        can_divide(self@, other@)
    }

    open spec fn div_spec(self, other: ComplexNumber) -> ComplexNumber {
        ComplexNumber {
            x: toward_zero(self.x as int, other.x as int) as i64,
            y: toward_zero(self.y as int, other.y as int) as i64,
        }
    }
}

impl core::ops::Div for ComplexNumber {
    type Output = ComplexNumber;

    fn div(self, other: ComplexNumber) -> ComplexNumber {
        ComplexNumber {
            x: divide_toward_zero(self.x, other.x),
            y: divide_toward_zero(self.y, other.y),
        }
    }
}

/// `a` divided by `d`, rounded toward zero.
pub fn divide_toward_zero(a: i64, d: i64) -> (q: i64)
    requires
        d != 0,
        !(a == i64::MIN && d == -1),
    ensures
        q == toward_zero(a as int, d as int),
{
    if d > 0 {
        a / d
    } else if d == i64::MIN {
        if a == i64::MIN {
            1
        } else {
            0
        }
    } else {
        let positive = -d;
        let q = a / positive;
        assert(q > i64::MIN) by (nonlinear_arith)
            requires
                positive >= 1,
                a >= i64::MIN,
                !(a == i64::MIN && positive == 1),
                a >= 0 ==> q == (a as int) / (positive as int),
                a < 0 ==> q == -((-(a as int)) / (positive as int)),
        ;
        -q
    }
}

/// The half side of the box that an engraved point stays in.
pub const BOX: i64 = 1_000_000;

/// The divisor of a cycle of the picture.
pub const PICTURE_DIVISOR: i64 = 100_000;

/// The number of cycles that an engraved point stays in the box.
pub const PICTURE_CYCLES: u32 = 99;

/// The side of the picture.
pub const SIDE: i64 = 1_000;

/// Whether `p` lies in the box.
pub open spec fn in_box(p: (int, int)) -> bool {
    -BOX <= p.0 <= BOX && -BOX <= p.1 <= BOX
}

/// Whether each of the next `cycles` cycles from `p` ends in the box.
pub open spec fn stays_in_box(p: (int, int), c: (int, int), cycles: nat) -> bool
    decreases cycles,
{
    cycles == 0 || {
        let q = cycle(p, c, PICTURE_DIVISOR as int);
        in_box(q) && stays_in_box(q, c, (cycles - 1) as nat)
    }
}

/// Whether the point `c` is engraved: its cycles start from `c` itself.
pub open spec fn is_engraved(c: (int, int)) -> bool {
    stays_in_box(c, c, PICTURE_CYCLES as nat)
}

/// The point in column `i` and row `j` of the grid that starts at
/// `corner` and has `step` between neighbours.
pub open spec fn grid_point(corner: (int, int), step: int, i: int, j: int) -> (int, int) {
    (corner.0 + step * i, corner.1 + step * j)
}

/// The number of engraved points among the first `columns` of row `j`.
pub open spec fn engraved_in_row(corner: (int, int), step: int, j: int, columns: int) -> nat
    decreases columns,
{
    if columns <= 0 {
        0
    } else if is_engraved(grid_point(corner, step, columns - 1, j)) {
        engraved_in_row(corner, step, j, columns - 1) + 1
    } else {
        engraved_in_row(corner, step, j, columns - 1)
    }
}

/// The number of engraved points in the first `rows` rows of `columns`
/// points each.
pub open spec fn engraved_in_rows(corner: (int, int), step: int, rows: int, columns: int) -> nat
    decreases rows,
{
    if rows <= 0 {
        0
    } else {
        engraved_in_rows(corner, step, rows - 1, columns) + engraved_in_row(
            corner,
            step,
            rows - 1,
            columns,
        )
    }
}

/// Whether the machine can draw the grid of `count` by `count` points:
/// the far corner is a pair of 64-bit numbers, and the machine can take
/// the first cycle of every point.
pub open spec fn can_draw(corner: (int, int), step: int, count: int) -> bool {
    &&& fits(corner.0 + SIDE)
    &&& fits(corner.1 + SIDE)
    &&& forall|i: int, j: int|
        0 <= i < count && 0 <= j < count ==> can_cycle(
            #[trigger] grid_point(corner, step, i, j),
            grid_point(corner, step, i, j),
            PICTURE_DIVISOR as int,
        )
}

/// A number whose square is a 64-bit number is small.
pub proof fn lemma_root_bounded(v: int)
    requires
        fits(v * v),
    ensures
        -3_037_000_500 < v < 3_037_000_500,
{
    assert(v >= 3_037_000_500 ==> v * v >= 3_037_000_500 * 3_037_000_500) by (nonlinear_arith);
    assert(v <= -3_037_000_500 ==> v * v >= 3_037_000_500 * 3_037_000_500) by (nonlinear_arith);
}

/// The product of two numbers of the box is small.
pub proof fn lemma_box_product(a: int, b: int)
    requires
        -BOX <= a <= BOX,
        -BOX <= b <= BOX,
    ensures
        -1_000_000_000_000 <= a * b <= 1_000_000_000_000,
{
    assert(-1_000_000_000_000 <= a * b <= 1_000_000_000_000) by (nonlinear_arith)
        requires
            -1_000_000 <= a <= 1_000_000,
            -1_000_000 <= b <= 1_000_000,
    ;
}

/// The machine can take a cycle from a point of the box, where it can
/// take one from the point that is added.
pub proof fn lemma_can_cycle_in_box(p: (int, int), c: (int, int))
    requires
        in_box(p),
        can_cycle(c, c, PICTURE_DIVISOR as int),
    ensures
        can_cycle(p, c, PICTURE_DIVISOR as int),
{
    lemma_root_bounded(c.0);
    lemma_root_bounded(c.1);
    lemma_box_product(p.0, p.0);
    lemma_box_product(p.1, p.1);
    lemma_box_product(p.0, p.1);
    lemma_box_product(p.1, p.0);
}

/// The number after three cycles from zero with the divisor ten.
pub fn part_1(complex_number_a: ComplexNumber) -> (result: ComplexNumber)
    requires
        can_cycle((0, 0), complex_number_a@, 10),
        can_cycle(cycle((0, 0), complex_number_a@, 10), complex_number_a@, 10),
        can_cycle(
            cycle(cycle((0, 0), complex_number_a@, 10), complex_number_a@, 10),
            complex_number_a@,
            10,
        ),
    ensures
        result@ == cycle(
            cycle(cycle((0, 0), complex_number_a@, 10), complex_number_a@, 10),
            complex_number_a@,
            10,
        ),
{
    let divisor = ComplexNumber { x: 10, y: 10 };
    let mut result = ComplexNumber { x: 0, y: 0 };
    let mut done: u32 = 0;
    while done < 3
        invariant
            done <= 3,
            divisor@ == (10int, 10int),
            can_cycle((0, 0), complex_number_a@, 10),
            can_cycle(cycle((0, 0), complex_number_a@, 10), complex_number_a@, 10),
            can_cycle(
                cycle(cycle((0, 0), complex_number_a@, 10), complex_number_a@, 10),
                complex_number_a@,
                10,
            ),
            done == 0 ==> result@ == (0int, 0int),
            done == 1 ==> result@ == cycle((0, 0), complex_number_a@, 10),
            done == 2 ==> result@ == cycle(
                cycle((0, 0), complex_number_a@, 10),
                complex_number_a@,
                10,
            ),
            done == 3 ==> result@ == cycle(
                cycle(cycle((0, 0), complex_number_a@, 10), complex_number_a@, 10),
                complex_number_a@,
                10,
            ),
        decreases 3 - done,
    {
        result = result * result;
        result = result / divisor;
        result = result + complex_number_a;
        done += 1;
    }
    result
}

/// Whether the point is engraved.
pub fn should_be_engraved(current_point: ComplexNumber) -> (engraved: bool)
    requires
        can_cycle(current_point@, current_point@, PICTURE_DIVISOR as int),
    ensures
        engraved == is_engraved(current_point@),
{
    let divisor = ComplexNumber { x: PICTURE_DIVISOR, y: PICTURE_DIVISOR };
    let mut current_point_copy = current_point;
    let mut done: u32 = 0;
    while done < PICTURE_CYCLES
        invariant
            done <= PICTURE_CYCLES,
            divisor@ == (PICTURE_DIVISOR as int, PICTURE_DIVISOR as int),
            can_cycle(current_point@, current_point@, PICTURE_DIVISOR as int),
            done == 0 ==> current_point_copy == current_point,
            done > 0 ==> in_box(current_point_copy@),
            is_engraved(current_point@) == stays_in_box(
                current_point_copy@,
                current_point@,
                (PICTURE_CYCLES - done) as nat,
            ),
        decreases PICTURE_CYCLES - done,
    {
        proof {
            if done > 0 {
                lemma_can_cycle_in_box(current_point_copy@, current_point@);
            }
        }
        current_point_copy = current_point_copy * current_point_copy;
        current_point_copy = current_point_copy / divisor;
        current_point_copy = current_point_copy + current_point;
        if current_point_copy.x > BOX || current_point_copy.x < -BOX || current_point_copy.y > BOX
            || current_point_copy.y < -BOX {
            return false;
        }
        done += 1;
    }
    true
}

/// The number of engraved points of the grid of `count` by `count` points
/// that starts at `corner` and has `step` between neighbours.
fn count_engraved(corner: ComplexNumber, step: i64, count: i64) -> (result: usize)
    requires
        0 < step,
        0 < count <= 1001,
        step * (count - 1) == SIDE,
        can_draw(corner@, step as int, count as int),
    ensures
        result == engraved_in_rows(corner@, step as int, count as int, count as int),
{
    let mut result: usize = 0;
    let mut j: i64 = 0;
    while j < count
        invariant
            0 <= j <= count <= 1001,
            0 < step,
            step * (count - 1) == SIDE,
            can_draw(corner@, step as int, count as int),
            result == engraved_in_rows(corner@, step as int, j as int, count as int),
            result <= j * 1001,
        decreases count - j,
    {
        let ghost before = result;
        let mut i: i64 = 0;
        while i < count
            invariant
                0 <= i <= count <= 1001,
                0 <= j < count,
                0 < step,
                step * (count - 1) == SIDE,
                can_draw(corner@, step as int, count as int),
                result == before + engraved_in_row(corner@, step as int, j as int, i as int),
                before <= j * 1001,
                result <= before + i,
            decreases count - i,
        {
            assert(0 <= step * i <= SIDE && 0 <= step * j <= SIDE) by (nonlinear_arith)
                requires
                    0 <= i < count,
                    0 <= j < count,
                    0 < step,
                    step * (count - 1) == SIDE,
            ;
            let current_point = ComplexNumber { x: corner.x + step * i, y: corner.y + step * j };
            assert(current_point@ == grid_point(corner@, step as int, i as int, j as int));
            if should_be_engraved(current_point) {
                result += 1;
            }
            i += 1;
        }
        j += 1;
    }
    result
}

/// The number of engraved points of the picture with ten between
/// neighbours: a grid of 101 by 101 points from `corner`.
pub fn part_2(corner: ComplexNumber) -> (result: usize)
    requires
        can_draw(corner@, 10, 101),
    ensures
        result == engraved_in_rows(corner@, 10, 101, 101),
{
    count_engraved(corner, 10, 101)
}

/// The number of engraved points of the picture with one between
/// neighbours: a grid of 1001 by 1001 points from `corner`.
pub fn part_3(corner: ComplexNumber) -> (result: usize)
    requires
        can_draw(corner@, 1, 1001),
    ensures
        result == engraved_in_rows(corner@, 1, 1001, 1001),
{
    count_engraved(corner, 1, 1001)
}

/// The comma between the two parts of a number.
pub const COMMA: u8 = 44;

/// The bracket that opens a number.
pub const BRACKET_OPEN: u8 = 91;

/// The bracket that closes a number.
pub const BRACKET_CLOSE: u8 = 93;

/// The parenthesis that opens a number.
pub const PARENTHESIS_OPEN: u8 = 40;

/// The parenthesis that closes a number.
pub const PARENTHESIS_CLOSE: u8 = 41;

/// The letter `A` that names the number of the quest.
pub const LETTER_A: u8 = 65;

/// The equals sign.
pub const EQUALS: u8 = 61;

/// `s` without `open` at its start and `close` at its end, where it has
/// both; else `s` as it is.
pub open spec fn unwrapped(s: Seq<u8>, open: u8, close: u8) -> Seq<u8> {
    if s.len() >= 2 && s[0] == open && s.last() == close {
        s.subrange(1, s.len() - 1)
    } else {
        s
    }
}

/// The text of the two parts of a number: what is left of `s` once the
/// white space, the brackets and the parentheses round it are taken away.
pub open spec fn bare_number(s: Seq<u8>) -> Seq<u8> {
    trimmed(
        unwrapped(
            trimmed(unwrapped(trimmed(s), BRACKET_OPEN, BRACKET_CLOSE)),
            PARENTHESIS_OPEN,
            PARENTHESIS_CLOSE,
        ),
    )
}

/// What a text holds as a number: its two parts stand on either side of
/// the first comma, each with or without white space round it; the whole
/// may stand in brackets, in parentheses or bare.
pub open spec fn number_of(s: Seq<u8>) -> Result<(int, int), ParseError> {
    let inner = bare_number(s);
    let at = find_byte(inner, 0, COMMA);
    if at >= inner.len() {
        Err(ParseError::MissingSeparator)
    } else {
        match (
            parsed_signed(trimmed(inner.subrange(0, at))),
            parsed_signed(trimmed(inner.subrange(at + 1, inner.len() as int))),
        ) {
            (Some(x), Some(y)) => Ok((x, y)),
            _ => Err(ParseError::InvalidNumber),
        }
    }
}

/// `s` without `A=` at its start, where it has that; else `s` as it is.
pub open spec fn without_name(s: Seq<u8>) -> Seq<u8> {
    if s.len() >= 2 && s[0] == LETTER_A && s[1] == EQUALS {
        s.skip(2)
    } else {
        s
    }
}

/// The text without `open` at its start and `close` at its end, where it
/// has both.
fn unwrap(text: &[u8], open: u8, close: u8) -> (out: &[u8])
    ensures
        out@ == unwrapped(text@, open, close),
{
    if text.len() >= 2 && text[0] == open && text[text.len() - 1] == close {
        slice_subrange(text, 1, text.len() - 1)
    } else {
        text
    }
}

/// Reads a number: `x,y`, `[x,y]` or `(x,y)`, with white space where it
/// likes. Fails with `MissingSeparator` for a text without a comma, and
/// with `InvalidNumber` where a part is no number of 64 bits.
pub fn parse_number(text: &[u8]) -> (result: Result<ComplexNumber, ParseError>)
    ensures
        match result {
            Ok(number) => number_of(text@) == Ok::<(int, int), ParseError>(number@),
            Err(e) => number_of(text@) == Err::<(int, int), ParseError>(e),
        },
{
    let inner = trim(
        unwrap(
            trim(unwrap(trim(text), BRACKET_OPEN, BRACKET_CLOSE)),
            PARENTHESIS_OPEN,
            PARENTHESIS_CLOSE,
        ),
    );
    match split_once(inner, COMMA) {
        Some((x_str, y_str)) => match parse_i64(trim(x_str)) {
            Some(x) => match parse_i64(trim(y_str)) {
                Some(y) => Ok(ComplexNumber { x, y }),
                None => Err(ParseError::InvalidNumber),
            },
            None => Err(ParseError::InvalidNumber),
        },
        None => Err(ParseError::MissingSeparator),
    }
}

/// Reads the number of the quest: a number, with or without `A=` before
/// it.
pub fn parse_input(text: &str) -> (result: Result<ComplexNumber, ParseError>)
    ensures
        match result {
            Ok(number) => number_of(without_name(trimmed(text.spec_bytes()))) == Ok::<
                (int, int),
                ParseError,
            >(number@),
            Err(e) => number_of(without_name(trimmed(text.spec_bytes()))) == Err::<
                (int, int),
                ParseError,
            >(e),
        },
{
    let content = trim(text.as_bytes());
    let named = content.len() >= 2 && content[0] == LETTER_A && content[1] == EQUALS;
    if named {
        assert(content@.skip(2) =~= content@.subrange(2, content@.len() as int));
        parse_number(slice_subrange(content, 2, content.len()))
    } else {
        parse_number(content)
    }
}

} // verus!
