//! Threads strung between nails on a circle.
//!
//! The nails are numbered round the circle. A list of nails describes one
//! thread that runs from each nail of the list to the next; each such
//! stretch is a line between two nails.

use vstd::prelude::*;
use vstd::string::StringSliceAdditionalSpecFns;
use itertools::Itertools;
use crate::text::all_numbers;
use crate::text::fields_of;
use crate::text::numbers_of;
use crate::text::parse_u16_fields;
use crate::text::split;
use crate::text::trim;
use crate::text::trimmed;
use crate::text::values_u16;
use crate::text::ParseError;

verus! {

/// A line between two nails, the lower number first.
#[derive(Debug, Clone, Copy, PartialEq, Eq, Structural)]
pub struct Line {
    pub a: u16,
    pub b: u16,
}

/// The pairs of neighbours of `s`: each element with the one after it.
pub open spec fn neighbours(s: Seq<u16>) -> Seq<(u16, u16)> {
    Seq::new(
        if s.len() == 0 {
            0
        } else {
            (s.len() - 1) as nat
        },
        |i: int| (s[i], s[i + 1]),
    )
}

/// The predicate that holds of the pairs whose numbers are `distance`
/// apart.
pub open spec fn is_apart(distance: int) -> spec_fn((u16, u16)) -> bool {
    |p: (u16, u16)| p.0 - p.1 == distance || p.1 - p.0 == distance
}

/// The line between the nails of a pair.
pub open spec fn line_between() -> spec_fn((u16, u16)) -> Line {
    |p: (u16, u16)|
        if p.0 <= p.1 {
            Line { a: p.0, b: p.1 }
        } else {
            Line { a: p.1, b: p.0 }
        }
}

/// The lines of the thread that runs along the nails of `s`.
pub open spec fn thread_lines(s: Seq<u16>) -> Seq<Line> {
    neighbours(s).map_values(line_between())
}

/// Whether `first` crosses `second`: exactly one end of `first` lies
/// strictly between the ends of `second`, and the other strictly outside.
pub open spec fn crosses(first: Line, second: Line) -> bool {
    ||| second.a < first.a < second.b && first.b > second.b
    ||| second.a < first.b < second.b && first.a < second.a
}

/// The predicate that holds of the lines that cross `line`.
pub open spec fn crossing(line: Line) -> spec_fn(Line) -> bool {
    |other: Line| crosses(other, line)
}

/// The number of crossings among `lines`: the pairs of an earlier line and
/// a later line that crosses it.
pub open spec fn crossings(lines: Seq<Line>) -> nat
    decreases lines.len(),
{
    if lines.len() == 0 {
        0
    } else {
        lines.skip(1).filter(crossing(lines[0])).len() + crossings(lines.skip(1))
    }
}

/// The predicate that holds of the lines that a cut from nail `i` to nail
/// `j` severs: those that the cut crosses, and those that run along it.
pub open spec fn is_severed(i: u16, j: u16) -> spec_fn(Line) -> bool {
    |line: Line| crosses(Line { a: i, b: j }, line) || (line.a == i && line.b == j)
}

/// The number of lines that a cut from nail `i` to nail `j` severs, as a
/// 32-bit count.
pub open spec fn severed(lines: Seq<Line>, i: u16, j: u16) -> u32 {
    lines.filter(is_severed(i, j)).len() as u32
}

/// There are no more crossings than pairs of lines.
pub proof fn lemma_crossings_bounded(lines: Seq<Line>)
    ensures
        crossings(lines) <= lines.len() * lines.len(),
    decreases lines.len(),
{
    if lines.len() > 0 {
        let rest = lines.skip(1);
        lemma_crossings_bounded(rest);
        rest.lemma_filter_len(crossing(lines[0]));
        assert(rest.len() + rest.len() * rest.len() <= lines.len() * lines.len())
            by (nonlinear_arith)
            requires
                rest.len() + 1 == lines.len(),
        ;
    }
}

impl Line {
    /// The line between nails `a` and `b`, given in either order.
    pub fn new(a: u16, b: u16) -> (line: Line)
        ensures
            line == line_between()((a, b)),
            line.a <= line.b,
    {
        if a <= b {
            Line { a, b }
        } else {
            Line { a: b, b: a }
        }
    }

    /// Whether this line crosses `line`.
    pub fn cuts(&self, line: &Line) -> (cut: bool)
        ensures
            cut == crosses(*self, *line),
    {
        ((self.a < line.b && self.a > line.a) && (self.b > line.b)) || ((self.b > line.a && self.b
            < line.b) && (self.a < line.a))
    }
}

/// The pairs of neighbours of `input`, by `Itertools::tuple_windows`: it
/// hands out each element with the one after it, in order, and nothing for
/// a list of fewer than two.
#[verifier::external_body]
fn tuple_windows(input: &[u16]) -> (pairs: Vec<(u16, u16)>)
    ensures
        pairs@ == neighbours(input@),
{
    input.iter().copied().tuple_windows().collect()
}

/// The lines of the thread that runs along the nails of `input`.
pub fn lines_of_thread(input: &[u16]) -> (lines: Vec<Line>)
    ensures
        lines@ == thread_lines(input@),
{
    let mut lines: Vec<Line> = Vec::new();
    let count: usize = if input.len() == 0 {
        0
    } else {
        input.len() - 1
    };
    let mut i: usize = 0;
    while i < count
        invariant
            i <= count,
            count == thread_lines(input@).len(),
            lines.len() == i,
            forall|k: int| 0 <= k < i ==> #[trigger] lines[k] == thread_lines(input@)[k],
        decreases input.len() - i,
    {
        lines.push(Line::new(input[i], input[i + 1]));
        i += 1;
    }
    assert(lines@ =~= thread_lines(input@));
    lines
}

/// Counts the stretches of the thread that run through the centre of a
/// circle of `nails` nails: those between two nails that are half the
/// circle apart. The count is cut to 32 bits.
pub fn part1(input: &[u16], nails: u16) -> (count: u32)
    ensures
        count == neighbours(input@).filter(is_apart((nails / 2) as int)).len() as u32,
{
    let pairs = tuple_windows(input);
    let ghost apart = is_apart((nails / 2) as int);
    let mut count: usize = 0;
    let mut i: usize = 0;
    assert(pairs@.take(0) =~= Seq::<(u16, u16)>::empty());
    while i < pairs.len()
        invariant
            i <= pairs.len(),
            apart == is_apart((nails / 2) as int),
            count == pairs@.take(i as int).filter(apart).len(),
            count <= i,
        decreases pairs.len() - i,
    {
        let (a, b) = pairs[i];
        proof {
            assert(pairs@.take(i + 1) =~= pairs@.take(i as int).push((a, b)));
            pairs@.take(i as int).lemma_filter_push((a, b), apart);
        }
        let distance = if a >= b {
            a - b
        } else {
            b - a
        };
        if distance == nails / 2 {
            count += 1;
        }
        i += 1;
    }
    assert(pairs@.take(i as int) =~= pairs@);
    #[verifier::truncate]
    (count as u32)
}

/// The number of the lines after index `i` that cross the line at `i`.
fn crossings_of(lines: &Vec<Line>, i: usize) -> (count: usize)
    requires
        i < lines.len(),
    ensures
        count == lines@.skip(i + 1).filter(crossing(lines[i as int])).len(),
        count <= lines.len(),
{
    let ghost later = lines@.skip(i + 1);
    let ghost pred = crossing(lines[i as int]);
    let mut count: usize = 0;
    let mut j: usize = i + 1;
    assert(later.take(0) =~= Seq::<Line>::empty());
    while j < lines.len()
        invariant
            i < j <= lines.len(),
            later == lines@.skip(i + 1),
            pred == crossing(lines[i as int]),
            count == later.take(j - i - 1).filter(pred).len(),
            count <= j - i - 1,
        decreases lines.len() - j,
    {
        proof {
            assert(later.take(j - i) =~= later.take(j - i - 1).push(lines[j as int]));
            later.take(j - i - 1).lemma_filter_push(lines[j as int], pred);
        }
        if lines[j].cuts(&lines[i]) {
            count += 1;
        }
        j += 1;
    }
    assert(later.take(j - i - 1) =~= later);
    count
}

/// Counts the crossings of the thread with itself: the pairs of an earlier
/// stretch and a later stretch that crosses it.
pub fn part2(input: &[u16]) -> (result: u64)
    requires
        crossings(thread_lines(input@)) <= u64::MAX,
    ensures
        result == crossings(thread_lines(input@)),
{
    let lines = lines_of_thread(input);
    let mut result: u64 = 0;
    let mut i: usize = 0;
    assert(lines@.skip(0) =~= lines@);
    while i < lines.len()
        invariant
            i <= lines.len(),
            crossings(lines@) <= u64::MAX,
            result + crossings(lines@.skip(i as int)) == crossings(lines@),
        decreases lines.len() - i,
    {
        let count = crossings_of(&lines, i);
        proof {
            let rest = lines@.skip(i as int);
            assert(rest.skip(1) =~= lines@.skip(i + 1));
            assert(rest[0] == lines[i as int]);
        }
        result = result + count as u64;
        i += 1;
    }
    result
}

/// The number of lines that a cut from nail `i` to nail `j` severs, cut
/// to 32 bits.
fn count_severed(lines: &Vec<Line>, i: u16, j: u16) -> (count: u32)
    ensures
        count == severed(lines@, i, j),
{
    let ghost pred = is_severed(i, j);
    let cut = Line { a: i, b: j };
    let mut count: usize = 0;
    let mut k: usize = 0;
    assert(lines@.take(0) =~= Seq::<Line>::empty());
    while k < lines.len()
        invariant
            k <= lines.len(),
            pred == is_severed(i, j),
            cut == (Line { a: i, b: j }),
            count == lines@.take(k as int).filter(pred).len(),
            count <= k,
        decreases lines.len() - k,
    {
        proof {
            assert(lines@.take(k + 1) =~= lines@.take(k as int).push(lines[k as int]));
            lines@.take(k as int).lemma_filter_push(lines[k as int], pred);
        }
        if cut.cuts(&lines[k]) || (lines[k].a == i && lines[k].b == j) {
            count += 1;
        }
        k += 1;
    }
    assert(lines@.take(k as int) =~= lines@);
    #[verifier::truncate]
    (count as u32)
}

/// Whether `best` is the largest 32-bit count of lines that one cut
/// severs, over the cuts from a nail `i` to a nail `j` with `i < j <=
/// nails`; zero where there is no such cut.
pub open spec fn is_best_cut(lines: Seq<Line>, nails: u16, best: u32) -> bool {
    &&& forall|i: u16, j: u16| i < j <= nails ==> #[trigger] severed(lines, i, j) <= best
    &&& if nails == 0 {
        best == 0
    } else {
        exists|i: u16, j: u16| i < j <= nails && #[trigger] severed(lines, i, j) == best
    }
}

/// Finds the cut between two nails that severs the most stretches of the
/// thread, and says how many it severs.
pub fn part3(input: &[u16], nails: u16) -> (result: u32)
    ensures
        is_best_cut(thread_lines(input@), nails, result),
{
    let lines = lines_of_thread(input);
    let mut result: u32 = 0;
    let ghost mut best_i: u16 = 0;
    let ghost mut best_j: u16 = 1;
    let mut i: u16 = 0;
    while i < nails
        invariant
            i <= nails,
            lines@ == thread_lines(input@),
            forall|x: u16, y: u16| x < i && x < y <= nails ==> #[trigger] severed(lines@, x, y) <= result,
            i == 0 ==> result == 0,
            i > 0 ==> best_i < best_j <= nails && severed(lines@, best_i, best_j) == result,
        decreases nails - i,
    {
        let mut j: u16 = i;
        while j < nails
            invariant
                i <= j <= nails,
                i < nails,
                lines@ == thread_lines(input@),
                forall|x: u16, y: u16|
                    x < i && x < y <= nails ==> #[trigger] severed(lines@, x, y) <= result,
                forall|y: u16| i < y <= j ==> #[trigger] severed(lines@, i, y) <= result,
                i == 0 && j == 0 ==> result == 0,
                i > 0 || j > 0 ==> best_i < best_j <= nails && severed(lines@, best_i, best_j)
                    == result,
            decreases nails - j,
        {
            j += 1;
            let count = count_severed(&lines, i, j);
            if count > result {
                result = count;
            }
            proof {
                if count == result {
                    best_i = i;
                    best_j = j;
                }
            }
        }
        i += 1;
    }
    result
}

/// The comma.
pub const COMMA: u8 = 44;

/// The fields of a list of nails: the text is trimmed and cut at its
/// commas.
pub open spec fn nail_fields(text: Seq<u8>) -> Seq<Seq<u8>> {
    fields_of(trimmed(text), COMMA)
}

/// Reads the nails of a thread: numbers with commas between them. White
/// space round the text is ignored. Fails with `InvalidNumber` where a
/// field is no number of 16 bits.
pub fn parse_input(text: &str) -> (result: Result<Vec<u16>, ParseError>)
    ensures
        match result {
            Ok(nails) => all_numbers(nail_fields(text.spec_bytes()), u16::MAX as nat)
                && values_u16(nails@) == numbers_of(nail_fields(text.spec_bytes()), u16::MAX as nat),
            Err(e) => e == ParseError::InvalidNumber && !all_numbers(
                nail_fields(text.spec_bytes()),
                u16::MAX as nat,
            ),
        },
{
    let fields = split(trim(text.as_bytes()), COMMA);
    match parse_u16_fields(&fields) {
        Some(nails) => Ok(nails),
        None => Err(ParseError::InvalidNumber),
    }
}

} // verus!
