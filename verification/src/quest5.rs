//! Swords told by their fishbones.
//!
//! The numbers of a sword are laid out as a fishbone: a spine of nodes,
//! each with room for a smaller number on its left and for a larger number
//! on its right. The quality of a sword is the number that the values of
//! its spine spell when they are written one after another.

use vstd::prelude::*;
use vstd::string::StringExecFns;
use vstd::string::StringSliceAdditionalSpecFns;
use crate::text::all_numbers;
use crate::text::contents;
use crate::text::fields_of;
use crate::text::find_byte;
use crate::text::lines;
use crate::text::lines_of;
use crate::text::numbers_of;
use crate::text::parse_u32;
use crate::text::parse_u32_fields;
use crate::text::parsed_unsigned;
use crate::text::split;
use crate::text::split_once;
use crate::text::trim;
use crate::text::trimmed;
use crate::text::values_u32;
use crate::text::ParseError;

verus! {

/// A sword as it is given: its number and the numbers to lay out.
#[derive(Debug)]
pub struct SimplifiedFishbone {
    pub id: u32,
    pub nodes: Vec<u32>,
}

/// A node of a spine: its value, and the numbers on its left and on its
/// right where there are any.
#[derive(Debug, Clone, Copy, PartialEq, Eq, Structural)]
pub struct FishboneNode {
    pub value: u32,
    pub lhs: Option<u32>,
    pub rhs: Option<u32>,
}

/// A sword with its numbers laid out.
#[derive(Debug)]
pub struct Fishbone {
    pub id: u32,
    pub nodes: Vec<FishboneNode>,
}

/// The node with `value` and nothing beside it.
pub open spec fn bare(value: u32) -> FishboneNode {
    FishboneNode { value, lhs: None, rhs: None }
}

/// The spine with `num` laid out on it: beside the first node that has
/// room for it on the fitting side, or else as a new node at the end.
pub open spec fn placed(spine: Seq<FishboneNode>, num: u32) -> Seq<FishboneNode>
    decreases spine.len(),
{
    if spine.len() == 0 {
        seq![bare(num)]
    } else if spine[0].lhs is None && num < spine[0].value {
        spine.update(0, FishboneNode { lhs: Some(num), ..spine[0] })
    } else if spine[0].rhs is None && num > spine[0].value {
        spine.update(0, FishboneNode { rhs: Some(num), ..spine[0] })
    } else {
        seq![spine[0]] + placed(spine.skip(1), num)
    }
}

/// The spine that the numbers make when they are laid out one by one.
pub open spec fn spine_of(numbers: Seq<u32>) -> Seq<FishboneNode>
    decreases numbers.len(),
{
    if numbers.len() == 0 {
        Seq::empty()
    } else {
        placed(spine_of(numbers.drop_last()), numbers.last())
    }
}

/// The number of decimal digits of `v`.
pub open spec fn digit_count(v: nat) -> nat
    decreases v,
{
    if v < 10 {
        1
    } else {
        1 + digit_count(v / 10)
    }
}

/// Ten to the power of `n`.
pub open spec fn power_of_ten(n: nat) -> nat
    decreases n,
{
    if n == 0 {
        1
    } else {
        10 * power_of_ten((n - 1) as nat)
    }
}

/// The number that the digits of `head` followed by the digits of `v`
/// spell.
pub open spec fn joined(head: nat, v: nat) -> nat {
    head * power_of_ten(digit_count(v)) + v
}

/// The quality of a spine: the number that the values of its nodes spell
/// when they are written one after another.
pub open spec fn quality(spine: Seq<FishboneNode>) -> nat
    decreases spine.len(),
{
    if spine.len() == 0 {
        0
    } else {
        joined(quality(spine.drop_last()), spine.last().value as nat)
    }
}

/// The decimal digits of `v` as text.
pub open spec fn decimal_text(v: nat) -> Seq<char>
    decreases v,
{
    if v < 10 {
        seq![((48 + v) as u8) as char]
    } else {
        decimal_text(v / 10).push(((48 + v % 10) as u8) as char)
    }
}

/// The values of the nodes of a spine, written one after another.
pub open spec fn quality_text(spine: Seq<FishboneNode>) -> Seq<char>
    decreases spine.len(),
{
    if spine.len() == 0 {
        Seq::empty()
    } else {
        quality_text(spine.drop_last()) + decimal_text(spine.last().value as nat)
    }
}

/// Laying a number out changes nothing before the node that takes it.
pub proof fn lemma_placed_after(spine: Seq<FishboneNode>, num: u32, k: int)
    requires
        0 <= k <= spine.len(),
        forall|i: int|
            0 <= i < k ==> !((#[trigger] spine[i]).lhs is None && num < spine[i].value) && !(
            spine[i].rhs is None && num > spine[i].value),
    ensures
        placed(spine, num) == spine.take(k) + placed(spine.skip(k), num),
    decreases k,
{
    if k == 0 {
        assert(spine.skip(0) =~= spine);
        assert(spine.take(0) + placed(spine, num) =~= placed(spine, num));
    } else {
        let rest = spine.skip(1);
        assert forall|i: int| 0 <= i < k - 1 implies !((#[trigger] rest[i]).lhs is None && num
            < rest[i].value) && !(rest[i].rhs is None && num > rest[i].value) by {
            assert(rest[i] == spine[i + 1]);
        }
        lemma_placed_after(rest, num, k - 1);
        assert(rest.skip(k - 1) =~= spine.skip(k));
        assert(seq![spine[0]] + (rest.take(k - 1) + placed(spine.skip(k), num)) =~= spine.take(k)
            + placed(spine.skip(k), num));
    }
}

/// The quality of a part of a spine is no more than that of the spine.
pub proof fn lemma_quality_grows(spine: Seq<FishboneNode>, count: int)
    requires
        0 <= count <= spine.len(),
    ensures
        quality(spine.take(count)) <= quality(spine),
    decreases spine.len(),
{
    if count < spine.len() {
        lemma_quality_grows(spine.drop_last(), count);
        assert(spine.drop_last().take(count) =~= spine.take(count));
        lemma_joined_grows(quality(spine.drop_last()), spine.last().value as nat);
    } else {
        assert(spine.take(count) =~= spine);
    }
}

/// A number with digits behind it is no smaller than without.
pub proof fn lemma_joined_grows(head: nat, v: nat)
    ensures
        head <= joined(head, v),
        head * power_of_ten(digit_count(v)) <= joined(head, v),
{
    lemma_power_of_ten_positive(digit_count(v));
    assert(head <= head * power_of_ten(digit_count(v))) by (nonlinear_arith)
        requires
            power_of_ten(digit_count(v)) >= 1,
    ;
}

/// A power of ten is at least one.
pub proof fn lemma_power_of_ten_positive(n: nat)
    ensures
        power_of_ten(n) >= 1,
    decreases n,
{
    if n > 0 {
        lemma_power_of_ten_positive((n - 1) as nat);
    }
}

/// Lays `num` out on the spine.
pub fn place(spine: &mut Vec<FishboneNode>, num: u32)
    ensures
        final(spine)@ == placed(old(spine)@, num),
{
    let ghost start = spine@;
    let mut k: usize = 0;
    while k < spine.len()
        invariant
            k <= spine.len(),
            spine@ == start,
            start == old(spine)@,
            forall|i: int|
                0 <= i < k ==> !((#[trigger] start[i]).lhs is None && num < start[i].value) && !(
                start[i].rhs is None && num > start[i].value),
        decreases spine.len() - k,
    {
        let node = spine[k];
        proof {
            lemma_placed_after(start, num, k as int);
            assert(start.skip(k as int)[0] == node);
        }
        if node.lhs.is_none() && num < node.value {
            spine[k] = FishboneNode { value: node.value, lhs: Some(num), rhs: node.rhs };
            assert(spine@ =~= start.take(k as int) + placed(start.skip(k as int), num));
            return;
        } else if node.rhs.is_none() && num > node.value {
            spine[k] = FishboneNode { value: node.value, lhs: node.lhs, rhs: Some(num) };
            assert(spine@ =~= start.take(k as int) + placed(start.skip(k as int), num));
            return;
        }
        k += 1;
    }
    proof {
        lemma_placed_after(start, num, k as int);
        assert(start.skip(k as int) =~= Seq::<FishboneNode>::empty());
        assert(start.take(k as int) =~= start);
    }
    spine.push(FishboneNode { value: num, lhs: None, rhs: None });
    assert(spine@ =~= start + seq![bare(num)]);
}

/// Lays out the numbers of the sword.
pub fn lay_out(sword: &SimplifiedFishbone) -> (fishbone: Fishbone)
    ensures
        fishbone.id == sword.id,
        fishbone.nodes@ == spine_of(sword.nodes@),
{
    let mut nodes: Vec<FishboneNode> = Vec::new();
    let mut i: usize = 0;
    assert(sword.nodes@.take(0) =~= Seq::<u32>::empty());
    while i < sword.nodes.len()
        invariant
            i <= sword.nodes.len(),
            nodes@ == spine_of(sword.nodes@.take(i as int)),
        decreases sword.nodes.len() - i,
    {
        proof {
            assert(sword.nodes@.take(i + 1).drop_last() =~= sword.nodes@.take(i as int));
        }
        place(&mut nodes, sword.nodes[i]);
        i += 1;
    }
    assert(sword.nodes@.take(i as int) =~= sword.nodes@);
    Fishbone { id: sword.id, nodes }
}

/// The decimal digits of `value` as text, by `ToString::to_string` of
/// `u32`: the digits of the number in base ten, the first of them not zero
/// unless the number is zero.
#[verifier::external_body]
fn to_string(value: u32) -> (text: String)
    ensures
        text@ == decimal_text(value as nat),
{
    value.to_string()
}

/// Ten to the power of the number of digits of `v`.
fn shift_of(v: u32) -> (shift: u64)
    ensures
        shift == power_of_ten(digit_count(v as nat)),
        10 <= shift <= 10_000_000_000,
{
    let mut shift: u64 = 10;
    let mut rest: u32 = v;
    let ghost mut dropped: nat = 0;
    proof {
        reveal_with_fuel(power_of_ten, 3);
        assert(rest * power_of_ten(0) == rest) by (nonlinear_arith)
            requires
                power_of_ten(0) == 1,
        ;
    }
    while rest >= 10
        invariant
            shift == power_of_ten(dropped + 1),
            dropped <= 9,
            rest * power_of_ten(dropped) <= 0xffff_ffff,
            digit_count(v as nat) == dropped + digit_count(rest as nat),
            10 <= shift <= 10_000_000_000,
        decreases rest,
    {
        proof {
            reveal_with_fuel(power_of_ten, 12);
            assert(power_of_ten(dropped + 1) == 10 * power_of_ten(dropped));
            assert((rest / 10) * power_of_ten(dropped + 1) <= rest * power_of_ten(dropped))
                by (nonlinear_arith)
                requires
                    power_of_ten(dropped + 1) == 10 * power_of_ten(dropped),
                    power_of_ten(dropped) >= 0,
                    rest >= 0,
            ;
            assert(dropped < 9) by {
                if dropped >= 9 {
                    assert(power_of_ten(9) == 1_000_000_000);
                    assert(rest * power_of_ten(dropped) >= 10 * 1_000_000_000) by (nonlinear_arith)
                        requires
                            rest >= 10,
                            power_of_ten(dropped) >= 1_000_000_000,
                    ;
                }
            }
            assert(power_of_ten(dropped + 2) == 10 * power_of_ten(dropped + 1));
            assert(power_of_ten(dropped + 2) <= 10_000_000_000) by {
                assert(power_of_ten(10) == 10_000_000_000);
                lemma_power_of_ten_grows(dropped + 2, 10);
            }
        }
        rest = rest / 10;
        shift = shift * 10;
        proof {
            dropped = dropped + 1;
        }
    }
    shift
}

/// A larger power of ten is no smaller.
pub proof fn lemma_power_of_ten_grows(smaller: nat, larger: nat)
    requires
        smaller <= larger,
    ensures
        power_of_ten(smaller) <= power_of_ten(larger),
    decreases larger,
{
    if smaller < larger {
        lemma_power_of_ten_grows(smaller, (larger - 1) as nat);
    }
}

/// The quality of the spine as a number.
pub fn quality_of(spine: &Vec<FishboneNode>) -> (result: u64)
    requires
        quality(spine@) <= u64::MAX,
    ensures
        result == quality(spine@),
{
    let mut result: u64 = 0;
    let mut i: usize = 0;
    assert(spine@.take(0) =~= Seq::<FishboneNode>::empty());
    while i < spine.len()
        invariant
            i <= spine.len(),
            quality(spine@) <= u64::MAX,
            result == quality(spine@.take(i as int)),
        decreases spine.len() - i,
    {
        let value = spine[i].value;
        let shift = shift_of(value);
        proof {
            assert(spine@.take(i + 1).drop_last() =~= spine@.take(i as int));
            lemma_quality_grows(spine@, i + 1);
            lemma_joined_grows(result as nat, value as nat);
        }
        result = result * shift + value as u64;
        i += 1;
    }
    assert(spine@.take(i as int) =~= spine@);
    result
}

/// The quality of the first sword, written out.
pub fn part1(input: &[SimplifiedFishbone]) -> (text: String)
    requires
        input@.len() > 0,
        input@[0].nodes@.len() > 0,
    ensures
        text@ == quality_text(spine_of(input@[0].nodes@)),
{
    let fishbone = lay_out(&input[0]);
    let mut text = String::new();
    let mut i: usize = 0;
    assert(fishbone.nodes@.take(0) =~= Seq::<FishboneNode>::empty());
    while i < fishbone.nodes.len()
        invariant
            i <= fishbone.nodes.len(),
            text@ == quality_text(fishbone.nodes@.take(i as int)),
        decreases fishbone.nodes.len() - i,
    {
        proof {
            assert(fishbone.nodes@.take(i + 1).drop_last() =~= fishbone.nodes@.take(i as int));
        }
        let digits = to_string(fishbone.nodes[i].value);
        text.append(digits.as_str());
        i += 1;
    }
    assert(fishbone.nodes@.take(i as int) =~= fishbone.nodes@);
    text
}

/// The quality of the sword at `k` of `swords`.
pub open spec fn quality_at(swords: Seq<SimplifiedFishbone>, k: int) -> nat {
    quality(spine_of(swords[k].nodes@))
}

/// Whether `spread` is the largest quality among `swords` less the
/// smallest.
pub open spec fn is_quality_spread(swords: Seq<SimplifiedFishbone>, spread: int) -> bool {
    exists|high: int, low: int|
        {
            &&& 0 <= high < swords.len()
            &&& 0 <= low < swords.len()
            &&& spread == #[trigger] quality_at(swords, high) - #[trigger] quality_at(swords, low)
            &&& forall|k: int|
                0 <= k < swords.len() ==> quality_at(swords, low) <= #[trigger] quality_at(swords, k)
                    <= quality_at(swords, high)
        }
}

/// Whether the quality of each of `swords` is a 64-bit number.
pub open spec fn qualities_fit(swords: Seq<SimplifiedFishbone>) -> bool {
    forall|k: int| 0 <= k < swords.len() ==> #[trigger] quality_at(swords, k) <= u64::MAX
}

/// The largest quality among the swords less the smallest.
pub fn part2(input: &[SimplifiedFishbone]) -> (spread: u64)
    requires
        input@.len() > 0,
        qualities_fit(input@),
    ensures
        is_quality_spread(input@, spread as int),
{
    let mut highest: u64 = 0;
    let mut lowest: u64 = 0;
    let ghost mut high: int = 0;
    let ghost mut low: int = 0;
    let mut i: usize = 0;
    while i < input.len()
        invariant
            i <= input.len(),
            qualities_fit(input@),
            i > 0 ==> 0 <= high < i && 0 <= low < i && highest == quality_at(input@, high) && lowest
                == quality_at(input@, low),
            forall|k: int| 0 <= k < i ==> lowest <= #[trigger] quality_at(input@, k) <= highest,
        decreases input.len() - i,
    {
        let fishbone = lay_out(&input[i]);
        assert(quality_at(input@, i as int) <= u64::MAX);
        let value = quality_of(&fishbone.nodes);
        if i == 0 || value > highest {
            highest = value;
            proof {
                high = i as int;
            }
        }
        if i == 0 || value < lowest {
            lowest = value;
            proof {
                low = i as int;
            }
        }
        i += 1;
    }
    highest - lowest
}

/// The number that a level spells: the number on the left, the value and
/// the number on the right, written one after another.
pub open spec fn level_number(node: FishboneNode) -> nat {
    let head = match node.lhs {
        Some(left) => joined(left as nat, node.value as nat),
        None => node.value as nat,
    };
    match node.rhs {
        Some(right) => joined(head, right as nat),
        None => head,
    }
}

/// What ranks a sword: its quality, the numbers of its levels from the
/// first down, and its own number.
pub struct Rank {
    pub quality: nat,
    pub levels: Seq<nat>,
    pub id: u32,
}

/// The rank of a sword.
pub open spec fn rank_of(sword: SimplifiedFishbone) -> Rank {
    let spine = spine_of(sword.nodes@);
    Rank {
        quality: quality(spine),
        levels: Seq::new(spine.len(), |i: int| level_number(spine[i])),
        id: sword.id,
    }
}

/// The ranks of the swords.
pub open spec fn ranks_of(swords: Seq<SimplifiedFishbone>) -> Seq<Rank> {
    Seq::new(swords.len(), |k: int| rank_of(swords[k]))
}

/// Whether `a` comes before `b` by its levels from `from` on: the first
/// level at which they differ decides, the larger number first; where the
/// levels of one of the two run out, the larger number of the sword comes
/// first.
pub open spec fn levels_outrank(a: Rank, b: Rank, from: int) -> bool
    decreases a.levels.len() - from,
{
    if from < 0 || from >= a.levels.len() || from >= b.levels.len() {
        a.id > b.id
    } else if a.levels[from] != b.levels[from] {
        a.levels[from] > b.levels[from]
    } else {
        levels_outrank(a, b, from + 1)
    }
}

/// Whether `a` comes before `b`: the better quality first, then by the
/// levels.
pub open spec fn outranks(a: Rank, b: Rank) -> bool {
    if a.quality != b.quality {
        a.quality > b.quality
    } else {
        levels_outrank(a, b, 0)
    }
}

/// `sorted` with `x` put behind the last sword that `x` does not come
/// before.
pub open spec fn inserted_by_rank(sorted: Seq<Rank>, x: Rank) -> Seq<Rank>
    decreases sorted.len(),
{
    if sorted.len() == 0 || !outranks(x, sorted.last()) {
        sorted.push(x)
    } else {
        inserted_by_rank(sorted.drop_last(), x).push(sorted.last())
    }
}

/// The swords from the first in rank to the last; swords of one rank keep
/// their order.
pub open spec fn ranked(ranks: Seq<Rank>) -> Seq<Rank>
    decreases ranks.len(),
{
    if ranks.len() == 0 {
        ranks
    } else {
        inserted_by_rank(ranked(ranks.drop_last()), ranks.last())
    }
}

/// The sum, over the first `count` swords, of the place of the sword,
/// counted from one, times its number.
pub open spec fn checksum(sorted: Seq<Rank>, count: int) -> nat
    decreases count,
{
    if count <= 0 {
        0
    } else {
        checksum(sorted, count - 1) + (count * sorted[count - 1].id) as nat
    }
}

/// Whether the swords can be ranked: each has a number to lay out, the
/// quality and the levels of each are 64-bit numbers, and of two swords of
/// one quality neither has more levels than the other.
pub open spec fn can_rank(swords: Seq<SimplifiedFishbone>) -> bool {
    &&& forall|k: int| 0 <= k < swords.len() ==> (#[trigger] swords[k]).nodes@.len() > 0
    &&& forall|k: int|
        0 <= k < swords.len() ==> (#[trigger] rank_of(swords[k])).quality <= u64::MAX
    &&& forall|k: int, i: int|
        0 <= k < swords.len() && 0 <= i < rank_of(swords[k]).levels.len() ==> #[trigger] rank_of(
            swords[k],
        ).levels[i] <= u64::MAX
    &&& forall|k: int, l: int|
        0 <= k < swords.len() && 0 <= l < swords.len() && (#[trigger] rank_of(swords[k])).quality
            == (#[trigger] rank_of(swords[l])).quality ==> rank_of(swords[k]).levels.len()
            == rank_of(swords[l]).levels.len()
}

/// Where `x` comes before every sword from `at` on and not before the
/// sword before `at`, if there is one, `x` goes in at `at`.
pub proof fn lemma_inserted_by_rank_at(sorted: Seq<Rank>, x: Rank, at: int)
    requires
        0 <= at <= sorted.len(),
        forall|k: int| at <= k < sorted.len() ==> outranks(x, #[trigger] sorted[k]),
        at > 0 ==> !outranks(x, sorted[at - 1]),
    ensures
        inserted_by_rank(sorted, x) == sorted.insert(at, x),
    decreases sorted.len(),
{
    if at == sorted.len() {
        assert(sorted.push(x) =~= sorted.insert(at, x));
    } else {
        lemma_inserted_by_rank_at(sorted.drop_last(), x, at);
        assert(sorted.drop_last().insert(at, x).push(sorted.last()) =~= sorted.insert(at, x));
    }
}

/// The checksum only grows with the swords counted.
pub proof fn lemma_checksum_grows(sorted: Seq<Rank>, fewer: int, more: int)
    requires
        0 <= fewer <= more,
    ensures
        checksum(sorted, fewer) <= checksum(sorted, more),
    decreases more - fewer,
{
    if fewer < more {
        lemma_checksum_grows(sorted, fewer, more - 1);
    }
}

/// A sword with what ranks it worked out.
#[derive(Debug)]
pub struct RankedSword {
    pub id: u32,
    pub quality: u64,
    pub levels: Vec<u64>,
}

impl View for RankedSword {
    type V = Rank;

    open spec fn view(&self) -> Rank {
        Rank {
            quality: self.quality as nat,
            levels: Seq::new(self.levels@.len(), |i: int| self.levels@[i] as nat),
            id: self.id,
        }
    }
}

/// What ranks each of the swords.
pub open spec fn ranks(swords: Seq<RankedSword>) -> Seq<Rank> {
    Seq::new(swords.len(), |k: int| swords[k]@)
}

/// The number that the digits of `head` followed by the digits of `v`
/// spell.
fn join(head: u64, v: u32) -> (result: u64)
    requires
        joined(head as nat, v as nat) <= u64::MAX,
    ensures
        result == joined(head as nat, v as nat),
{
    let shift = shift_of(v);
    proof {
        lemma_joined_grows(head as nat, v as nat);
    }
    head * shift + v as u64
}

/// The number that the level spells.
pub fn level_of(node: &FishboneNode) -> (number: u64)
    requires
        level_number(*node) <= u64::MAX,
    ensures
        number == level_number(*node),
{
    let head: u64 = match node.lhs {
        Some(left) => {
            proof {
                if node.rhs is Some {
                    lemma_joined_grows(
                        joined(left as nat, node.value as nat),
                        node.rhs->Some_0 as nat,
                    );
                }
            }
            join(left as u64, node.value)
        },
        None => node.value as u64,
    };
    match node.rhs {
        Some(right) => join(head, right),
        None => head,
    }
}

/// Works out what ranks the sword.
pub fn rank(sword: &SimplifiedFishbone) -> (ranked_sword: RankedSword)
    requires
        rank_of(*sword).quality <= u64::MAX,
        forall|i: int|
            0 <= i < rank_of(*sword).levels.len() ==> #[trigger] rank_of(*sword).levels[i]
                <= u64::MAX,
    ensures
        ranked_sword@ == rank_of(*sword),
{
    let fishbone = lay_out(sword);
    let quality = quality_of(&fishbone.nodes);
    let mut levels: Vec<u64> = Vec::new();
    let mut i: usize = 0;
    while i < fishbone.nodes.len()
        invariant
            i <= fishbone.nodes.len(),
            fishbone.nodes@ == spine_of(sword.nodes@),
            forall|k: int|
                0 <= k < rank_of(*sword).levels.len() ==> #[trigger] rank_of(*sword).levels[k]
                    <= u64::MAX,
            levels.len() == i,
            forall|k: int| 0 <= k < i ==> levels@[k] == level_number(#[trigger] fishbone.nodes@[k]),
        decreases fishbone.nodes.len() - i,
    {
        assert(rank_of(*sword).levels[i as int] == level_number(fishbone.nodes@[i as int]));
        levels.push(level_of(&fishbone.nodes[i]));
        i += 1;
    }
    let ranked_sword = RankedSword { id: sword.id, quality, levels };
    assert(ranked_sword@.levels =~= rank_of(*sword).levels);
    ranked_sword
}

/// Whether `a` comes before `b`.
pub fn comes_before(a: &RankedSword, b: &RankedSword) -> (before: bool)
    ensures
        before == outranks(a@, b@),
{
    if a.quality != b.quality {
        return a.quality > b.quality;
    }
    let mut i: usize = 0;
    while i < a.levels.len() && i < b.levels.len()
        invariant
            i <= a.levels.len(),
            i <= b.levels.len(),
            outranks(a@, b@) == levels_outrank(a@, b@, i as int),
        decreases a.levels.len() - i,
    {
        assert(a@.levels[i as int] == a.levels@[i as int]);
        assert(b@.levels[i as int] == b.levels@[i as int]);
        if a.levels[i] != b.levels[i] {
            return a.levels[i] > b.levels[i];
        }
        i += 1;
    }
    a.id > b.id
}

/// The checksum of the swords in the order of their ranks: the sum of the
/// place of each sword, counted from one, times its number. The better
/// quality comes first; of two swords of one quality, the one with the
/// larger number at the first level at which they differ; and of two
/// swords with the same levels, the one with the larger number of its own.
pub fn part3(input: &[SimplifiedFishbone]) -> (sum: u64)
    requires
        can_rank(input@),
        checksum(ranked(ranks_of(input@)), input@.len() as int) <= u64::MAX,
    ensures
        sum == checksum(ranked(ranks_of(input@)), input@.len() as int),
{
    let mut sword_fishbones: Vec<RankedSword> = Vec::new();
    let mut i: usize = 0;
    assert(ranks_of(input@).take(0) =~= Seq::<Rank>::empty());
    assert(ranks(sword_fishbones@) =~= ranked(ranks_of(input@).take(0)));
    while i < input.len()
        invariant
            i <= input.len(),
            can_rank(input@),
            sword_fishbones@.len() == i,
            ranks(sword_fishbones@) == ranked(ranks_of(input@).take(i as int)),
        decreases input.len() - i,
    {
        assert(rank_of(input@[i as int]).quality <= u64::MAX);
        assert forall|k: int| 0 <= k < rank_of(input@[i as int]).levels.len() implies #[trigger] rank_of(
            input@[i as int],
        ).levels[k] <= u64::MAX by {}
        let sword = rank(&input[i]);
        let mut at: usize = sword_fishbones.len();
        while at > 0 && comes_before(&sword, &sword_fishbones[at - 1])
            invariant
                at <= sword_fishbones.len(),
                forall|k: int|
                    at <= k < sword_fishbones.len() ==> outranks(
                        sword@,
                        (#[trigger] sword_fishbones@[k])@,
                    ),
            decreases at,
        {
            at -= 1;
        }
        let ghost before = ranks(sword_fishbones@);
        proof {
            assert forall|k: int| at <= k < before.len() implies outranks(
                sword@,
                #[trigger] before[k],
            ) by {
                assert(before[k] == sword_fishbones@[k]@);
            }
            lemma_inserted_by_rank_at(before, sword@, at as int);
            assert(ranks_of(input@).take(i + 1).drop_last() =~= ranks_of(input@).take(i as int));
            assert(ranks_of(input@).take(i + 1).last() == sword@);
        }
        sword_fishbones.insert(at, sword);
        assert(ranks(sword_fishbones@) =~= before.insert(at as int, sword@));
        i += 1;
    }
    assert(ranks_of(input@).take(i as int) =~= ranks_of(input@));
    let ghost sorted = ranks(sword_fishbones@);
    let mut sum: u64 = 0;
    let mut k: usize = 0;
    while k < sword_fishbones.len()
        invariant
            k <= sword_fishbones.len(),
            sorted == ranks(sword_fishbones@),
            checksum(sorted, sword_fishbones@.len() as int) <= u64::MAX,
            sum == checksum(sorted, k as int),
        decreases sword_fishbones.len() - k,
    {
        proof {
            lemma_checksum_grows(sorted, k + 1, sword_fishbones@.len() as int);
            assert(sorted[k as int].id == sword_fishbones@[k as int].id);
            assert(0 <= (k + 1) * sword_fishbones@[k as int].id) by (nonlinear_arith);
        }
        sum = sum + (k as u64 + 1) * (sword_fishbones[k].id as u64);
        k += 1;
    }
    sum
}

/// The colon that stands between the number of a sword and its numbers
/// to lay out.
pub const COLON: u8 = 58;

/// The comma.
pub const COMMA: u8 = 44;

/// What a sword is read as: its number and the numbers to lay out.
pub struct SwordText {
    pub id: nat,
    pub nodes: Seq<nat>,
}

/// What a line of a list of swords holds: the number before its first
/// colon, with or without white space round it, and behind the colon the
/// numbers to lay out with commas between them.
pub open spec fn sword_of(line: Seq<u8>) -> Result<SwordText, ParseError> {
    let at = find_byte(line, 0, COLON);
    if at >= line.len() {
        Err(ParseError::MissingSeparator)
    } else {
        let fields = fields_of(line.subrange(at + 1, line.len() as int), COMMA);
        match parsed_unsigned(trimmed(line.subrange(0, at)), u32::MAX as nat) {
            Some(id) => if all_numbers(fields, u32::MAX as nat) {
                Ok(SwordText { id, nodes: numbers_of(fields, u32::MAX as nat) })
            } else {
                Err(ParseError::InvalidNumber)
            },
            None => Err(ParseError::InvalidNumber),
        }
    }
}

/// What a sword holds as it is read.
pub open spec fn sword_text(sword: SimplifiedFishbone) -> SwordText {
    SwordText { id: sword.id as nat, nodes: values_u32(sword.nodes@) }
}

/// Reads the sword of one line.
pub fn parse_sword(line: &[u8]) -> (result: Result<SimplifiedFishbone, ParseError>)
    ensures
        match result {
            Ok(sword) => sword_of(line@) == Ok::<SwordText, ParseError>(sword_text(sword)),
            Err(e) => sword_of(line@) == Err::<SwordText, ParseError>(e),
        },
{
    match split_once(line, COLON) {
        Some((head, tail)) => match parse_u32(trim(head)) {
            Some(id) => {
                let fields = split(tail, COMMA);
                match parse_u32_fields(&fields) {
                    Some(nodes) => Ok(SimplifiedFishbone { id, nodes }),
                    None => Err(ParseError::InvalidNumber),
                }
            },
            None => Err(ParseError::InvalidNumber),
        },
        None => Err(ParseError::MissingSeparator),
    }
}

/// The lines of a list of swords: the text is trimmed first.
pub open spec fn sword_lines(text: Seq<u8>) -> Seq<Seq<u8>> {
    lines_of(trimmed(text))
}

/// Reads a list of swords: on each line the number of the sword, a colon,
/// and the numbers to lay out with commas between them. White space round
/// the text is ignored. Fails with the error of the first line that holds
/// no sword: `MissingSeparator` for a line without a colon,
/// `InvalidNumber` for a line with a field that is no number of 32 bits.
pub fn parse_input(text: &str) -> (result: Result<Vec<SimplifiedFishbone>, ParseError>)
    ensures
        match result {
            Ok(swords) => {
                &&& swords@.len() == sword_lines(text.spec_bytes()).len()
                &&& forall|i: int|
                    0 <= i < swords@.len() ==> sword_of(
                        #[trigger] sword_lines(text.spec_bytes())[i],
                    ) == Ok::<SwordText, ParseError>(sword_text(swords@[i]))
            },
            Err(e) => exists|i: int|
                {
                    &&& 0 <= i < sword_lines(text.spec_bytes()).len()
                    &&& sword_of(#[trigger] sword_lines(text.spec_bytes())[i]) == Err::<
                        SwordText,
                        ParseError,
                    >(e)
                    &&& forall|j: int|
                        0 <= j < i ==> sword_of(#[trigger] sword_lines(text.spec_bytes())[j]) is Ok
                },
        },
{
    let rows = lines(trim(text.as_bytes()));
    let ghost all = sword_lines(text.spec_bytes());
    assert(all == contents(rows@));
    let mut swords: Vec<SimplifiedFishbone> = Vec::new();
    let mut i: usize = 0;
    while i < rows.len()
        invariant
            i <= rows.len(),
            all == contents(rows@),
            all == sword_lines(text.spec_bytes()),
            swords.len() == i,
            forall|k: int|
                0 <= k < i ==> sword_of(#[trigger] all[k]) == Ok::<SwordText, ParseError>(
                    sword_text(swords@[k]),
                ),
        decreases rows.len() - i,
    {
        assert(all[i as int] == rows@[i as int]@);
        match parse_sword(rows[i]) {
            Ok(sword) => {
                swords.push(sword);
            },
            Err(e) => {
                assert(sword_of(all[i as int]) == Err::<SwordText, ParseError>(e));
                return Err(e);
            },
        }
        i += 1;
    }
    Ok(swords)
}

} // verus!
