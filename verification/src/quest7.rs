//! Names that follow rules.
//!
//! A rule gives, for a letter, the letters that may follow it. A name
//! follows the rules where each of its letters but the last is followed by
//! a letter that its rule allows.

use vstd::prelude::*;
use vstd::slice::slice_subrange;
use vstd::string::StringSliceAdditionalSpecFns;
use vstd::utf8::decode_utf8;
use vstd::utf8::encode_utf8;
use vstd::utf8::encode_utf8_valid_utf8;
use crate::text::contents;
use crate::text::fields_of;
use crate::text::find;
use crate::text::find_byte;
use crate::text::all_utf8;
use crate::text::lemma_fields_of_utf8;
use crate::text::lemma_lines_of_utf8;
use crate::text::lemma_trimmed_utf8;
use crate::text::lines;
use crate::text::lines_of;
use crate::text::split;
use crate::text::text_of;
use crate::text::trim;
use crate::text::trimmed;
use crate::text::ParseError;
use std::collections::HashMap;
use std::collections::HashSet;

verus! {

/// A list of names, and the rules for names.
#[derive(Debug)]
pub struct InstructionSet {
    pub names: Vec<String>,
    pub rules: HashMap<u8, HashSet<u8>>,
}

/// The rules as a map from a letter to the letters that may follow it.
pub open spec fn followers(rules: &HashMap<u8, HashSet<u8>>) -> Map<u8, Set<u8>> {
    Map::new(|letter: u8| rules@.contains_key(letter), |letter: u8| rules@[letter]@)
}

/// The letters of a name: its bytes.
pub open spec fn letters(name: Seq<char>) -> Seq<u8> {
    encode_utf8(name)
}

/// Whether the letter at `i` of `name` is followed by a letter that its
/// rule allows.
pub open spec fn step_allowed(name: Seq<u8>, rules: Map<u8, Set<u8>>, i: int) -> bool {
    rules[name[i]].contains(name[i + 1])
}

/// Whether `name` follows the rules.
#[verifier::opaque]
pub open spec fn follows_rules(name: Seq<u8>, rules: Map<u8, Set<u8>>) -> bool {
    forall|i: int| 0 <= i < name.len() - 1 ==> #[trigger] step_allowed(name, rules, i)
}

/// Whether the rules can judge `name`: the name is not empty, and there is
/// a rule for each of its letters up to the first that is followed by a
/// letter that its rule does not allow; the last letter needs no rule.
#[verifier::opaque]
pub open spec fn can_judge(name: Seq<u8>, rules: Map<u8, Set<u8>>) -> bool {
    &&& name.len() > 0
    &&& forall|i: int|
        0 <= i < name.len() - 1 && (forall|j: int| 0 <= j < i ==> #[trigger] step_allowed(name, rules, j))
            ==> rules.dom().contains(#[trigger] name[i])
}

/// The number of names of at most `max` letters that start with a given
/// name of `length` letters whose last letter is `last`, where a name
/// grows by a letter that the rule of its last letter allows. The given
/// name counts too.
pub open spec fn names_from(rules: Map<u8, Set<u8>>, max: int, last: u8, length: int) -> nat
    decreases max - length, 0int,
{
    if length >= max || !rules.dom().contains(last) {
        1
    } else {
        1 + names_after(rules, max, rules[last], length + 1, 256)
    }
}

/// The number of names of at most `max` letters that start with a given
/// name of `length` letters whose last letter is one of `allowed` and
/// less than `below`.
pub open spec fn names_after(
    rules: Map<u8, Set<u8>>,
    max: int,
    allowed: Set<u8>,
    length: int,
    below: int,
) -> nat
    decreases max - length, below,
{
    if below <= 0 {
        0
    } else if allowed.contains((below - 1) as u8) {
        names_after(rules, max, allowed, length, below - 1) + names_from(
            rules,
            max,
            (below - 1) as u8,
            length,
        )
    } else {
        names_after(rules, max, allowed, length, below - 1)
    }
}

/// The number of names of at least `min` and at most `max` letters that
/// start with `base`.
pub open spec fn names_between(rules: Map<u8, Set<u8>>, min: int, max: int, base: Seq<u8>) -> int {
    names_from(rules, max, base.last(), base.len() as int) - names_from(
        rules,
        min - 1,
        base.last(),
        base.len() as int,
    )
}

/// The count over the letters below a bound grows with the bound.
pub proof fn lemma_names_after_grows(
    rules: Map<u8, Set<u8>>,
    max: int,
    allowed: Set<u8>,
    length: int,
    fewer: int,
    more: int,
)
    requires
        fewer <= more,
    ensures
        names_after(rules, max, allowed, length, fewer) <= names_after(
            rules,
            max,
            allowed,
            length,
            more,
        ),
    decreases more - fewer,
{
    if fewer < more {
        lemma_names_after_grows(rules, max, allowed, length, fewer, more - 1);
    }
}

/// A larger limit on the length admits no fewer names.
pub proof fn lemma_names_from_grows(
    rules: Map<u8, Set<u8>>,
    smaller: int,
    larger: int,
    last: u8,
    length: int,
)
    requires
        smaller <= larger,
    ensures
        names_from(rules, smaller, last, length) <= names_from(rules, larger, last, length),
    decreases larger - length, 0int,
{
    if length >= larger || !rules.dom().contains(last) {
    } else if length >= smaller {
    } else {
        lemma_names_after_grows_in_max(rules, smaller, larger, rules[last], length + 1, 256);
    }
}

/// A larger limit on the length admits no fewer names, over the letters
/// below a bound.
pub proof fn lemma_names_after_grows_in_max(
    rules: Map<u8, Set<u8>>,
    smaller: int,
    larger: int,
    allowed: Set<u8>,
    length: int,
    below: int,
)
    requires
        smaller <= larger,
    ensures
        names_after(rules, smaller, allowed, length, below) <= names_after(
            rules,
            larger,
            allowed,
            length,
            below,
        ),
    decreases larger - length, below,
{
    if below > 0 {
        lemma_names_after_grows_in_max(rules, smaller, larger, allowed, length, below - 1);
        if allowed.contains((below - 1) as u8) {
            lemma_names_from_grows(rules, smaller, larger, (below - 1) as u8, length);
        }
    }
}

/// Whether `name` follows the rules.
pub fn is_name_valid(name: &str, rules: &HashMap<u8, HashSet<u8>>) -> (valid: bool)
    requires
        can_judge(letters(name@), followers(rules)),
    ensures
        valid == follows_rules(letters(name@), followers(rules)),
{
    broadcast use vstd::std_specs::hash::group_hash_axioms;

    reveal(can_judge);
    reveal(follows_rules);
    let bytes = name.as_bytes();
    let mut name_letter_index: usize = 0;
    while name_letter_index < bytes.len() - 1
        invariant
            bytes@ == letters(name@),
            bytes@.len() > 0,
            name_letter_index <= bytes@.len() - 1,
            can_judge(bytes@, followers(rules)),
            forall|j: int|
                0 <= j < name_letter_index ==> #[trigger] step_allowed(bytes@, followers(rules), j),
        decreases bytes.len() - name_letter_index,
    {
        reveal(can_judge);
        reveal(follows_rules);
        let current_letter = bytes[name_letter_index];
        let next_letter = bytes[name_letter_index + 1];
        assert(followers(rules).dom().contains(bytes@[name_letter_index as int]));
        match rules.get(&current_letter) {
            Some(allowed) => {
                if !allowed.contains(&next_letter) {
                    assert(!step_allowed(bytes@, followers(rules), name_letter_index as int));
                    return false;
                }
            },
            None => {},
        }
        name_letter_index += 1;
    }
    true
}

/// The number of names of at most `max_chars` letters that start with a
/// given name of `chars_len` letters whose last letter is `last_byte`. The
/// given name counts too.
pub fn internal_count_possible_unique_names(
    max_chars: u8,
    last_byte: u8,
    chars_len: u8,
    rules: &HashMap<u8, HashSet<u8>>,
) -> (count: u64)
    requires
        chars_len <= max_chars,
        names_from(followers(rules), max_chars as int, last_byte, chars_len as int) <= u64::MAX,
    ensures
        count == names_from(followers(rules), max_chars as int, last_byte, chars_len as int),
    decreases max_chars - chars_len,
{
    broadcast use vstd::std_specs::hash::group_hash_axioms;

    if chars_len == max_chars {
        1
    } else {
        match rules.get(&last_byte) {
            Some(bytes) => {
                let ghost allowed = followers(rules)[last_byte];
                let mut count: u64 = 1;
                let mut byte: u16 = 0;
                while byte < 256
                    invariant
                        byte <= 256,
                        chars_len < max_chars,
                        allowed == bytes@,
                        1 + names_after(
                            followers(rules),
                            max_chars as int,
                            allowed,
                            chars_len + 1,
                            256,
                        ) <= u64::MAX,
                        count == 1 + names_after(
                            followers(rules),
                            max_chars as int,
                            allowed,
                            chars_len + 1,
                            byte as int,
                        ),
                    decreases 256 - byte,
                {
                    proof {
                        lemma_names_after_grows(
                            followers(rules),
                            max_chars as int,
                            allowed,
                            chars_len + 1,
                            byte + 1,
                            256,
                        );
                    }
                    let letter = byte as u8;
                    if bytes.contains(&letter) {
                        count = count + internal_count_possible_unique_names(
                            max_chars,
                            letter,
                            chars_len + 1,
                            rules,
                        );
                    }
                    byte += 1;
                }
                count
            },
            None => 1,
        }
    }
}

/// The number of names of at least `min_chars` and at most `max_chars`
/// letters that start with `base`. The base has to be shorter than
/// `min_chars`.
pub fn count_possible_unique_names(
    min_chars: u8,
    max_chars: u8,
    base: &[u8],
    rules: &HashMap<u8, HashSet<u8>>,
) -> (count: u64)
    requires
        0 < base@.len() < min_chars <= max_chars + 1,
        names_from(followers(rules), max_chars as int, base@.last(), base@.len() as int)
            <= u64::MAX,
    ensures
        count == names_between(followers(rules), min_chars as int, max_chars as int, base@),
{
    let last = base[base.len() - 1];
    let length = base.len() as u8;
    proof {
        lemma_names_from_grows(
            followers(rules),
            min_chars - 1,
            max_chars as int,
            last,
            length as int,
        );
    }
    internal_count_possible_unique_names(max_chars, last, length, rules)
        - internal_count_possible_unique_names(min_chars - 1, last, length, rules)
}

/// The number of letters of a name.
pub open spec fn length_of(name: String) -> nat {
    letters(name@).len()
}

/// `sorted` with `name` put behind the last name that is no longer than
/// it.
pub open spec fn inserted_by_length(sorted: Seq<String>, name: String) -> Seq<String>
    decreases sorted.len(),
{
    if sorted.len() == 0 || length_of(sorted.last()) <= length_of(name) {
        sorted.push(name)
    } else {
        inserted_by_length(sorted.drop_last(), name).push(sorted.last())
    }
}

/// The names from the shortest to the longest; names of one length keep
/// their order.
pub open spec fn by_length(names: Seq<String>) -> Seq<String>
    decreases names.len(),
{
    if names.len() == 0 {
        names
    } else {
        inserted_by_length(by_length(names.drop_last()), names.last())
    }
}

/// Whether `name` starts with `start`.
pub open spec fn starts_with(name: Seq<u8>, start: Seq<u8>) -> bool {
    start.len() <= name.len() && name.take(start.len() as int) == start
}

/// Whether `name` starts with one of the first `count` of `names`.
pub open spec fn extends_one_of(names: Seq<String>, count: int, name: String) -> bool {
    exists|k: int|
        0 <= k < count && k < names.len() && starts_with(
            letters(name@),
            letters((#[trigger] names[k])@),
        )
}

/// The names that the first `rounds` rounds keep of `sorted`: the first
/// name, and then, going from the last name down, each name that starts
/// with none of the names that stand two places or more before it.
pub open spec fn kept(sorted: Seq<String>, rounds: int) -> Seq<String>
    decreases rounds,
{
    if rounds <= 0 {
        seq![sorted[0]]
    } else {
        let at = sorted.len() - rounds;
        if extends_one_of(sorted, at - 1, sorted[at]) {
            kept(sorted, rounds - 1)
        } else {
            kept(sorted, rounds - 1).push(sorted[at])
        }
    }
}

/// What a list of borrowed names holds.
pub open spec fn owned(names: Seq<&String>) -> Seq<String> {
    Seq::new(names.len(), |i: int| *names[i])
}

/// Where every name from `at` on is longer than `name` and the name before
/// `at`, if there is one, is not, the name goes in at `at`.
pub proof fn lemma_inserted_at(sorted: Seq<String>, name: String, at: int)
    requires
        0 <= at <= sorted.len(),
        forall|k: int| at <= k < sorted.len() ==> length_of(#[trigger] sorted[k]) > length_of(name),
        at > 0 ==> length_of(sorted[at - 1]) <= length_of(name),
    ensures
        inserted_by_length(sorted, name) == sorted.insert(at, name),
    decreases sorted.len(),
{
    if at == sorted.len() {
        assert(sorted.push(name) =~= sorted.insert(at, name));
    } else {
        lemma_inserted_at(sorted.drop_last(), name, at);
        assert(sorted.drop_last().insert(at, name).push(sorted.last()) =~= sorted.insert(
            at,
            name,
        ));
    }
}

/// The number of letters of the name.
fn name_length(name: &String) -> (length: usize)
    ensures
        length == length_of(*name),
{
    name.as_str().as_bytes().len()
}

/// Whether `name` starts with `start`.
fn name_starts_with(name: &String, start: &String) -> (found: bool)
    ensures
        found == starts_with(letters(name@), letters(start@)),
{
    let text = name.as_str().as_bytes();
    let head = start.as_str().as_bytes();
    if head.len() > text.len() {
        return false;
    }
    let mut i: usize = 0;
    while i < head.len()
        invariant
            i <= head@.len() <= text@.len(),
            text@ == letters(name@),
            head@ == letters(start@),
            forall|k: int| 0 <= k < i ==> text@[k] == head@[k],
        decreases head.len() - i,
    {
        if text[i] != head[i] {
            assert(text@.take(head@.len() as int)[i as int] != head@[i as int]);
            return false;
        }
        i += 1;
    }
    assert(text@.take(head@.len() as int) =~= head@);
    true
}

/// The names from the shortest to the longest; names of one length keep
/// their order.
pub fn sort_by_length(names: &Vec<&String>) -> (sorted: Vec<String>)
    ensures
        sorted@ == by_length(owned(names@)),
        sorted@.len() == names@.len(),
{
    let mut sorted: Vec<String> = Vec::new();
    let mut i: usize = 0;
    assert(owned(names@).take(0) =~= Seq::<String>::empty());
    while i < names.len()
        invariant
            i <= names.len(),
            sorted@ == by_length(owned(names@).take(i as int)),
            sorted@.len() == i,
        decreases names.len() - i,
    {
        let name: String = names[i].clone();
        let length = name_length(&name);
        let mut at: usize = sorted.len();
        while at > 0 && name_length(&sorted[at - 1]) > length
            invariant
                at <= sorted.len(),
                length == length_of(name),
                forall|k: int|
                    at <= k < sorted.len() ==> length_of(#[trigger] sorted@[k]) > length_of(name),
            decreases at,
        {
            at -= 1;
        }
        proof {
            lemma_inserted_at(sorted@, name, at as int);
            assert(owned(names@).take(i + 1).drop_last() =~= owned(names@).take(i as int));
            assert(owned(names@).take(i + 1).last() == name);
        }
        sorted.insert(at, name);
        i += 1;
    }
    assert(owned(names@).take(i as int) =~= owned(names@));
    sorted
}

/// Drops the names that only extend another name of the list: of the
/// names sorted by length it keeps the first, and then, going from the
/// last name down, each name that starts with none of the names that
/// stand two places or more before it.
pub fn filter_extended_names(names: &Vec<&String>) -> (result: Vec<String>)
    requires
        names@.len() > 0,
    ensures
        result@ == kept(by_length(owned(names@)), names@.len() - 1),
{
    let names_mut = sort_by_length(names);
    let count = names_mut.len();
    let mut result: Vec<String> = Vec::new();
    result.push(names_mut[0].clone());
    assert(result@ =~= kept(names_mut@, 0));
    let mut i: usize = 0;
    while i < count - 1
        invariant
            i <= count - 1,
            count == names_mut@.len(),
            result@ == kept(names_mut@, i as int),
        decreases count - i,
    {
        let at = count - 1 - i;
        let cur_name = &names_mut[at];
        let mut found = false;
        let mut k: usize = 0;
        while k < at - 1
            invariant
                0 < at < count,
                count == names_mut@.len(),
                k <= at - 1,
                *cur_name == names_mut@[at as int],
                found == extends_one_of(names_mut@, k as int, *cur_name),
            decreases at - k,
        {
            if name_starts_with(cur_name, &names_mut[k]) {
                found = true;
            }
            k += 1;
        }
        if !found {
            result.push(cur_name.clone());
        }
        i += 1;
    }
    result
}

/// Whether the rules can judge each of the first `count` names.
pub open spec fn can_judge_all(input: &InstructionSet, count: int) -> bool {
    forall|k: int|
        0 <= k < count ==> can_judge(letters((#[trigger] input.names@[k])@), followers(&input.rules))
}

/// Whether the name at `k` follows the rules.
pub open spec fn is_valid_at(input: &InstructionSet, k: int) -> bool {
    follows_rules(letters(input.names@[k]@), followers(&input.rules))
}

/// The sum, over the names among the first `count` that follow the rules,
/// of the places of these names in the list, counted from one and cut to
/// 32 bits.
pub open spec fn valid_places(input: &InstructionSet, count: int) -> nat
    decreases count,
{
    if count <= 0 {
        0
    } else if is_valid_at(input, count - 1) {
        valid_places(input, count - 1) + (count as u32) as nat
    } else {
        valid_places(input, count - 1)
    }
}

/// The sum only grows with the names counted.
pub proof fn lemma_valid_places_grows(input: &InstructionSet, fewer: int, more: int)
    requires
        fewer <= more,
    ensures
        valid_places(input, fewer) <= valid_places(input, more),
    decreases more - fewer,
{
    if fewer < more {
        lemma_valid_places_grows(input, fewer, more - 1);
    }
}

/// The first name that follows the rules, or `None` if no name does.
pub fn part1(input: &InstructionSet) -> (name: Option<String>)
    requires
        can_judge_all(input, input.names@.len() as int),
    ensures
        match name {
            Some(found) => exists|k: int|
                {
                    &&& 0 <= k < input.names@.len()
                    &&& #[trigger] is_valid_at(input, k)
                    &&& found == input.names@[k]
                    &&& forall|l: int| 0 <= l < k ==> !#[trigger] is_valid_at(input, l)
                },
            None => forall|k: int|
                0 <= k < input.names@.len() ==> !#[trigger] is_valid_at(input, k),
        },
{
    let mut k: usize = 0;
    while k < input.names.len()
        invariant
            k <= input.names.len(),
            can_judge_all(input, input.names@.len() as int),
            forall|l: int| 0 <= l < k ==> !#[trigger] is_valid_at(input, l),
        decreases input.names.len() - k,
    {
        if is_name_valid(input.names[k].as_str(), &input.rules) {
            assert(is_valid_at(input, k as int));
            return Some(input.names[k].clone());
        }
        k += 1;
    }
    None
}

/// The sum of the places in the list, counted from one, of the names that
/// follow the rules.
pub fn part2(input: &InstructionSet) -> (sum: u32)
    requires
        can_judge_all(input, input.names@.len() as int),
        valid_places(input, input.names@.len() as int) <= u32::MAX,
    ensures
        sum == valid_places(input, input.names@.len() as int),
{
    let mut sum: u32 = 0;
    let mut k: usize = 0;
    while k < input.names.len()
        invariant
            k <= input.names.len(),
            can_judge_all(input, input.names@.len() as int),
            valid_places(input, input.names@.len() as int) <= u32::MAX,
            sum == valid_places(input, k as int),
        decreases input.names.len() - k,
    {
        proof {
            lemma_valid_places_grows(input, k + 1, input.names@.len() as int);
        }
        if is_name_valid(input.names[k].as_str(), &input.rules) {
            let place = #[verifier::truncate]
            ((k + 1) as u32);
            sum = sum + place;
        }
        k += 1;
    }
    sum
}

/// The shortest name that the last part of the quest asks for.
pub const SHORTEST: u8 = 7;

/// The longest name that the last part of the quest asks for.
pub const LONGEST: u8 = 11;

/// The predicate that holds of the names that follow the rules.
pub open spec fn is_valid_name(rules: Map<u8, Set<u8>>) -> spec_fn(String) -> bool {
    |name: String| follows_rules(letters(name@), rules)
}

/// The names to start from: the names that follow the rules, without
/// those that only extend another of them.
pub open spec fn bases(input: &InstructionSet) -> Seq<String> {
    let valid = input.names@.filter(is_valid_name(followers(&input.rules)));
    kept(by_length(valid), valid.len() - 1)
}

/// The number of names of at least seven and at most eleven letters that
/// start with one of the first `count` of `starts`, each start counted
/// for itself.
pub open spec fn names_from_all(rules: Map<u8, Set<u8>>, starts: Seq<String>, count: int) -> int
    decreases count,
{
    if count <= 0 {
        0
    } else {
        names_from_all(rules, starts, count - 1) + names_between(
            rules,
            SHORTEST as int,
            LONGEST as int,
            letters(starts[count - 1]@),
        )
    }
}

/// Whether each of `starts` can be counted from: it has a letter, it is
/// shorter than seven letters, and the count of the names that start with
/// it fits in 64 bits.
pub open spec fn can_count_from(rules: Map<u8, Set<u8>>, starts: Seq<String>) -> bool {
    forall|k: int|
        0 <= k < starts.len() ==> {
            &&& 0 < length_of(#[trigger] starts[k]) < SHORTEST
            &&& names_from(
                rules,
                LONGEST as int,
                letters(starts[k]@).last(),
                length_of(starts[k]) as int,
            ) <= u64::MAX
        }
}

/// The count only grows with the starts counted.
pub proof fn lemma_names_from_all_grows(
    rules: Map<u8, Set<u8>>,
    starts: Seq<String>,
    fewer: int,
    more: int,
)
    requires
        0 <= fewer <= more <= starts.len(),
        can_count_from(rules, starts),
    ensures
        0 <= names_from_all(rules, starts, fewer) <= names_from_all(rules, starts, more),
    decreases more,
{
    if fewer < more {
        lemma_names_from_all_grows(rules, starts, fewer, more - 1);
        let base = letters(starts[more - 1]@);
        lemma_names_from_grows(rules, SHORTEST - 1, LONGEST as int, base.last(), base.len() as int);
    } else if more > 0 {
        lemma_names_from_all_grows(rules, starts, fewer - 1, more - 1);
        let base = letters(starts[more - 1]@);
        lemma_names_from_grows(rules, SHORTEST - 1, LONGEST as int, base.last(), base.len() as int);
    }
}

/// The number of names of seven to eleven letters that follow the rules
/// and start with a name of the list that follows the rules. Names of the
/// list that only extend another are left out first, so that no name is
/// counted twice.
pub fn part3(input: &InstructionSet) -> (count: u64)
    requires
        can_judge_all(input, input.names@.len() as int),
        input.names@.filter(is_valid_name(followers(&input.rules))).len() > 0,
        can_count_from(followers(&input.rules), bases(input)),
        names_from_all(followers(&input.rules), bases(input), bases(input).len() as int)
            <= u64::MAX,
    ensures
        count == names_from_all(followers(&input.rules), bases(input), bases(input).len() as int),
{
    let ghost rules = followers(&input.rules);
    let ghost pred = is_valid_name(rules);
    let mut valid_names: Vec<&String> = Vec::new();
    let mut k: usize = 0;
    assert(input.names@.take(0) =~= Seq::<String>::empty());
    assert(owned(valid_names@) =~= input.names@.take(0).filter(pred));
    while k < input.names.len()
        invariant
            k <= input.names.len(),
            rules == followers(&input.rules),
            pred == is_valid_name(rules),
            can_judge_all(input, input.names@.len() as int),
            owned(valid_names@) == input.names@.take(k as int).filter(pred),
        decreases input.names.len() - k,
    {
        let ghost seen = input.names@.take(k as int);
        let ghost before = owned(valid_names@);
        proof {
            assert(input.names@.take(k + 1) =~= seen.push(input.names@[k as int]));
            seen.lemma_filter_push(input.names@[k as int], pred);
        }
        if is_name_valid(input.names[k].as_str(), &input.rules) {
            valid_names.push(&input.names[k]);
            assert(owned(valid_names@) =~= before.push(input.names@[k as int]));
        }
        k += 1;
    }
    assert(input.names@.take(k as int) =~= input.names@);
    let filtered_valid_names = filter_extended_names(&valid_names);
    let ghost starts = filtered_valid_names@;
    assert(starts == bases(input));
    let mut count: u64 = 0;
    let mut i: usize = 0;
    while i < filtered_valid_names.len()
        invariant
            i <= filtered_valid_names.len(),
            rules == followers(&input.rules),
            starts == filtered_valid_names@,
            can_count_from(rules, starts),
            names_from_all(rules, starts, starts.len() as int) <= u64::MAX,
            count == names_from_all(rules, starts, i as int),
        decreases filtered_valid_names.len() - i,
    {
        let name = &filtered_valid_names[i];
        proof {
            lemma_names_from_all_grows(rules, starts, i as int, i + 1);
            lemma_names_from_all_grows(rules, starts, i + 1, starts.len() as int);
        }
        let found = count_possible_unique_names(
            SHORTEST,
            LONGEST,
            name.as_str().as_bytes(),
            &input.rules,
        );
        count = count + found;
        i += 1;
    }
    count
}

/// The comma.
pub const COMMA: u8 = 44;

/// The blank.
pub const BLANK: u8 = 32;

/// The sign `>` of a rule.
pub const GREATER: u8 = 62;

/// Whether the arrow of a rule, a `>` between two blanks, starts at `i`.
pub open spec fn arrow_at(line: Seq<u8>, i: int) -> bool {
    0 <= i && i + 3 <= line.len() && line[i] == BLANK && line[i + 1] == GREATER && line[i + 2]
        == BLANK
}

/// The first index at or after `from` at which an arrow starts, or the
/// length of the line if there is none.
pub open spec fn find_arrow(line: Seq<u8>, from: int) -> int
    decreases line.len() - from,
{
    if from < 0 || from + 3 > line.len() {
        line.len() as int
    } else if arrow_at(line, from) {
        from
    } else {
        find_arrow(line, from + 1)
    }
}

/// The first byte of a field once the white space round it is taken
/// away, if any byte is left.
pub open spec fn first_letter(field: Seq<u8>) -> Option<u8> {
    if trimmed(field).len() > 0 {
        Some(trimmed(field)[0])
    } else {
        None
    }
}

/// Whether each of `fields` holds a letter.
pub open spec fn all_letters(fields: Seq<Seq<u8>>) -> bool {
    forall|i: int| 0 <= i < fields.len() ==> first_letter(#[trigger] fields[i]) is Some
}

/// The letters of the first `count` of `fields`.
pub open spec fn letters_of(fields: Seq<Seq<u8>>, count: int) -> Set<u8>
    decreases count,
{
    if count <= 0 {
        Set::empty()
    } else {
        letters_of(fields, count - 1).insert(first_letter(fields[count - 1])->Some_0)
    }
}

/// What a line with a rule holds: the letter before the arrow and the
/// letters behind it, with commas between them.
pub open spec fn rule_of(line: Seq<u8>) -> Result<(u8, Set<u8>), ParseError> {
    let at = find_arrow(line, 0);
    if at >= line.len() {
        Err(ParseError::MissingSeparator)
    } else {
        let fields = fields_of(line.subrange(at + 3, line.len() as int), COMMA);
        match first_letter(line.subrange(0, at)) {
            Some(key) => if all_letters(fields) {
                Ok((key, letters_of(fields, fields.len() as int)))
            } else {
                Err(ParseError::EmptyField)
            },
            None => Err(ParseError::EmptyField),
        }
    }
}

/// Whether a line holds a rule: it has a `>`.
pub open spec fn is_rule_line(line: Seq<u8>) -> bool {
    find_byte(line, 0, GREATER) < line.len()
}

/// The rules of the first `count` lines. A later rule for a letter takes
/// the place of an earlier one.
pub open spec fn rules_of(lines: Seq<Seq<u8>>, count: int) -> Map<u8, Set<u8>>
    decreases count,
{
    if count <= 0 {
        Map::empty()
    } else if is_rule_line(lines[count - 1]) {
        let (key, allowed) = rule_of(lines[count - 1])->Ok_0;
        rules_of(lines, count - 1).insert(key, allowed)
    } else {
        rules_of(lines, count - 1)
    }
}

/// The first byte of the field once the white space round it is taken
/// away.
fn letter_of(field: &[u8]) -> (letter: Option<u8>)
    ensures
        letter == first_letter(field@),
{
    let inner = trim(field);
    if inner.len() > 0 {
        Some(inner[0])
    } else {
        None
    }
}

/// The first index at which an arrow starts.
fn arrow_of(line: &[u8]) -> (at: usize)
    ensures
        at == find_arrow(line@, 0),
        at <= line@.len(),
        at < line@.len() ==> at + 3 <= line@.len(),
{
    let mut at: usize = 0;
    while at < line.len() && line.len() - at >= 3
        invariant
            at <= line.len(),
            find_arrow(line@, 0) == find_arrow(line@, at as int),
        decreases line.len() - at,
    {
        if line[at] == BLANK && line[at + 1] == GREATER && line[at + 2] == BLANK {
            return at;
        }
        at += 1;
    }
    line.len()
}

/// Reads the rule of one line.
pub fn parse_rule(line: &[u8]) -> (result: Result<(u8, HashSet<u8>), ParseError>)
    ensures
        match result {
            Ok((key, allowed)) => rule_of(line@) == Ok::<(u8, Set<u8>), ParseError>(
                (key, allowed@),
            ),
            Err(e) => rule_of(line@) == Err::<(u8, Set<u8>), ParseError>(e),
        },
{
    broadcast use vstd::std_specs::hash::group_hash_axioms;

    let at = arrow_of(line);
    if at >= line.len() {
        return Err(ParseError::MissingSeparator);
    }
    let key = match letter_of(slice_subrange(line, 0, at)) {
        Some(key) => key,
        None => {
            return Err(ParseError::EmptyField);
        },
    };
    let fields = split(slice_subrange(line, at + 3, line.len()), COMMA);
    let ghost texts = contents(fields@);
    let mut allowed: HashSet<u8> = HashSet::new();
    let mut i: usize = 0;
    while i < fields.len()
        invariant
            i <= fields.len(),
            texts == contents(fields@),
            at == find_arrow(line@, 0),
            at + 3 <= line@.len(),
            texts == fields_of(line@.subrange(at + 3, line@.len() as int), COMMA),
            first_letter(line@.subrange(0, at as int)) == Some(key),
            forall|k: int| 0 <= k < i ==> first_letter(#[trigger] texts[k]) is Some,
            allowed@ == letters_of(texts, i as int),
        decreases fields.len() - i,
    {
        assert(texts[i as int] == fields@[i as int]@);
        match letter_of(fields[i]) {
            Some(letter) => {
                allowed.insert(letter);
            },
            None => {
                assert(first_letter(texts[i as int]) is None);
                return Err(ParseError::EmptyField);
            },
        }
        i += 1;
    }
    Ok((key, allowed))
}

/// The lines of the text of names and rules: the text is trimmed first.
pub open spec fn quest_lines(text: Seq<u8>) -> Seq<Seq<u8>> {
    lines_of(trimmed(text))
}

/// The fields of the names: the first line, cut at its commas.
pub open spec fn name_fields(text: Seq<u8>) -> Seq<Seq<u8>> {
    fields_of(quest_lines(text)[0], COMMA)
}

/// Reads the names and the rules. The names stand on the first line with
/// commas between them; white space round a name is ignored, and a name
/// is the text that the bytes of its field encode. Every line
/// with a `>` holds a rule: a letter, an arrow, and the letters that may
/// follow with commas between them. White space round the text is
/// ignored.
///
/// Fails with `MissingLine` for a text without a line, and else with the
/// error of the first line with a `>` that holds no rule:
/// `MissingSeparator` for a line without an arrow, `EmptyField` for a
/// letter that is missing.
pub fn parse_input(text: &str) -> (result: Result<InstructionSet, ParseError>)
    ensures
        match result {
            Ok(input) => {
                &&& quest_lines(text.spec_bytes()).len() > 0
                &&& input.names@.len() == name_fields(text.spec_bytes()).len()
                &&& forall|i: int|
                    0 <= i < input.names@.len() ==> (#[trigger] input.names@[i])@ == decode_utf8(
                        trimmed(name_fields(text.spec_bytes())[i]),
                    )
                &&& forall|i: int|
                    0 <= i < quest_lines(text.spec_bytes()).len() && is_rule_line(
                        #[trigger] quest_lines(text.spec_bytes())[i],
                    ) ==> rule_of(quest_lines(text.spec_bytes())[i]) is Ok
                &&& followers(&input.rules) == rules_of(
                    quest_lines(text.spec_bytes()),
                    quest_lines(text.spec_bytes()).len() as int,
                )
            },
            Err(e) => if quest_lines(text.spec_bytes()).len() == 0 {
                e == ParseError::MissingLine
            } else {
                exists|i: int|
                    {
                        &&& 0 <= i < quest_lines(text.spec_bytes()).len()
                        &&& is_rule_line(#[trigger] quest_lines(text.spec_bytes())[i])
                        &&& rule_of(quest_lines(text.spec_bytes())[i]) == Err::<
                            (u8, Set<u8>),
                            ParseError,
                        >(e)
                        &&& forall|j: int|
                            0 <= j < i && is_rule_line(
                                #[trigger] quest_lines(text.spec_bytes())[j],
                            ) ==> rule_of(quest_lines(text.spec_bytes())[j]) is Ok
                    }
            },
        },
{
    broadcast use vstd::std_specs::hash::group_hash_axioms;

    let rows = lines(trim(text.as_bytes()));
    let ghost all = quest_lines(text.spec_bytes());
    assert(all == contents(rows@));
    if rows.len() == 0 {
        return Err(ParseError::MissingLine);
    }
    assert(all[0] == rows@[0]@);
    let name_list = split(rows[0], COMMA);
    let ghost name_texts = name_fields(text.spec_bytes());
    proof {
        encode_utf8_valid_utf8(text@);
        lemma_trimmed_utf8(text.spec_bytes());
        lemma_lines_of_utf8(trimmed(text.spec_bytes()));
        lemma_fields_of_utf8(all[0], COMMA);
    }
    let mut names: Vec<String> = Vec::new();
    let mut i: usize = 0;
    while i < name_list.len()
        invariant
            i <= name_list.len(),
            name_texts == contents(name_list@),
            all_utf8(name_texts),
            names.len() == i,
            forall|k: int|
                0 <= k < i ==> (#[trigger] names@[k])@ == decode_utf8(trimmed(name_texts[k])),
        decreases name_list.len() - i,
    {
        assert(name_texts[i as int] == name_list@[i as int]@);
        proof {
            lemma_trimmed_utf8(name_texts[i as int]);
        }
        names.push(text_of(trim(name_list[i])));
        i += 1;
    }
    let mut rules: HashMap<u8, HashSet<u8>> = HashMap::new();
    assert(followers(&rules) =~= rules_of(all, 0));
    let mut j: usize = 0;
    while j < rows.len()
        invariant
            j <= rows.len(),
            all == contents(rows@),
            all == quest_lines(text.spec_bytes()),
            all.len() > 0,
            forall|k: int| 0 <= k < j && is_rule_line(#[trigger] all[k]) ==> rule_of(all[k]) is Ok,
            followers(&rules) == rules_of(all, j as int),
        decreases rows.len() - j,
    {
        assert(all[j as int] == rows@[j as int]@);
        let ghost before = followers(&rules);
        if find(rows[j], 0, GREATER) < rows[j].len() {
            match parse_rule(rows[j]) {
                Ok((key, allowed)) => {
                    let ghost letters = allowed@;
                    rules.insert(key, allowed);
                    assert(followers(&rules) =~= before.insert(key, letters));
                },
                Err(e) => {
                    assert(rule_of(all[j as int]) == Err::<(u8, Set<u8>), ParseError>(e));
                    return Err(e);
                },
            }
        }
        j += 1;
    }
    Ok(InstructionSet { names, rules })
}

} // verus!
