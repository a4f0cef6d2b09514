use quests::quest7::count_possible_unique_names;
use quests::quest7::filter_extended_names;
use quests::quest7::internal_count_possible_unique_names;
use quests::quest7::is_name_valid;
use quests::quest7::part1;
use quests::quest7::part2;
use quests::quest7::part3;
use quests::quest7::sort_by_length;
use quests::quest7::InstructionSet;
use std::collections::HashMap;
use std::collections::HashSet;

fn rules(list: &[(u8, &[u8])]) -> HashMap<u8, HashSet<u8>> {
    list.iter().map(|(letter, allowed)| (*letter, allowed.iter().copied().collect())).collect()
}

fn first_rules() -> HashMap<u8, HashSet<u8>> {
    rules(&[
        (b'r', b"aio"),
        (b'i', b"pw"),
        (b'n', b"er"),
        (b'o', b"nm"),
        (b'k', b"fr"),
        (b'a', b"k"),
        (b'U', b"r"),
        (b'e', b"t"),
        (b'O', b"r"),
        (b't', b"h"),
    ])
}

fn small_rules() -> HashMap<u8, HashSet<u8>> {
    rules(&[(b'r', b"a"), (b'a', b"rb"), (b'b', b"a"), (b'X', b"r")])
}

fn strings(list: &[&str]) -> Vec<String> {
    list.iter().map(|s| s.to_string()).collect()
}

#[test]
fn name_follows_the_rules() {
    let r = first_rules();
    assert!(!is_name_valid("Oronris", &r));
    assert!(!is_name_valid("Urakris", &r));
    assert!(is_name_valid("Oroneth", &r));
    assert!(!is_name_valid("Uraketh", &r));
    assert!(is_name_valid("O", &r));
    assert!(is_name_valid("th", &r));
    assert!(is_name_valid("Z", &r));
}

#[test]
fn first_name_that_follows_the_rules() {
    let input = InstructionSet {
        names: strings(&["Oronris", "Urakris", "Oroneth", "Uraketh"]),
        rules: first_rules(),
    };
    assert_eq!(part1(&input), Some("Oroneth".to_string()));
    let none = InstructionSet { names: strings(&["Oronris", "Urakris"]), rules: first_rules() };
    assert_eq!(part1(&none), None);
    let empty = InstructionSet { names: Vec::new(), rules: first_rules() };
    assert_eq!(part1(&empty), None);
}

#[test]
fn places_of_the_names_that_follow_the_rules() {
    let input = InstructionSet {
        names: strings(&["Oronris", "Urakris", "Oroneth", "Uraketh"]),
        rules: first_rules(),
    };
    assert_eq!(part2(&input), 3);
    let more = InstructionSet {
        names: strings(&["Xr", "Xra", "Xab", "Xrar", "Xrab"]),
        rules: small_rules(),
    };
    assert_eq!(part2(&more), 12);
    let empty = InstructionSet { names: Vec::new(), rules: first_rules() };
    assert_eq!(part2(&empty), 0);
}

#[test]
fn names_are_counted_up_to_a_length() {
    let r = small_rules();
    assert_eq!(internal_count_possible_unique_names(3, b'X', 1, &r), 3);
    assert_eq!(internal_count_possible_unique_names(4, b'X', 1, &r), 5);
    assert_eq!(internal_count_possible_unique_names(11, b'r', 2, &r), 62);
    assert_eq!(internal_count_possible_unique_names(5, b'r', 5, &r), 1);
    assert_eq!(internal_count_possible_unique_names(5, b'?', 1, &r), 1);
}

#[test]
fn names_are_counted_between_two_lengths() {
    let r = small_rules();
    assert_eq!(count_possible_unique_names(7, 11, b"Xr", &r), 52);
    assert_eq!(count_possible_unique_names(7, 11, b"Xra", &r), 52);
    assert_eq!(count_possible_unique_names(2, 3, b"X", &r), 2);
    assert_eq!(count_possible_unique_names(3, 2, b"X", &r), 0);
}

#[test]
fn names_are_sorted_by_length_and_keep_their_order() {
    let names = strings(&["bb", "a", "ab", "abc", "b"]);
    let borrowed: Vec<&String> = names.iter().collect();
    assert_eq!(sort_by_length(&borrowed), strings(&["a", "b", "bb", "ab", "abc"]));
    assert!(sort_by_length(&Vec::new()).is_empty());
}

#[test]
fn names_that_extend_another_are_dropped() {
    let names = strings(&["Xr", "Xra", "Xrab", "X", "Za"]);
    let borrowed: Vec<&String> = names.iter().collect();
    assert_eq!(filter_extended_names(&borrowed), strings(&["X", "Za", "Xr"]));
    let others = strings(&["bb", "a", "ab", "abc", "b"]);
    let borrowed: Vec<&String> = others.iter().collect();
    assert_eq!(filter_extended_names(&borrowed), strings(&["a", "bb", "b"]));
    let one = strings(&["one"]);
    let borrowed: Vec<&String> = one.iter().collect();
    assert_eq!(filter_extended_names(&borrowed), strings(&["one"]));
    let two = strings(&["ab", "a"]);
    let borrowed: Vec<&String> = two.iter().collect();
    assert_eq!(filter_extended_names(&borrowed), strings(&["a", "ab"]));
    let three = strings(&["a", "ab", "abc"]);
    let borrowed: Vec<&String> = three.iter().collect();
    assert_eq!(filter_extended_names(&borrowed), strings(&["a", "ab"]));
}

#[test]
fn names_of_seven_to_eleven_letters_are_counted() {
    let input = InstructionSet { names: strings(&["Xr", "Xra", "Xab", "Xrar"]), rules: small_rules() };
    assert_eq!(part3(&input), 104);
    let single = InstructionSet { names: strings(&["Xr"]), rules: small_rules() };
    assert_eq!(part3(&single), 52);
}

#[test]
fn names_grow_by_the_rules_only() {
    let r = rules(&[
        (b'X', b"ao"),
        (b'a', b"rt"),
        (b'r', b"aey"),
        (b'e', b"ary"),
        (b'y', b"pt"),
        (b't', b"ha"),
        (b'o', b"r"),
    ]);
    let input = InstructionSet { names: strings(&["Xar"]), rules: r };
    assert_eq!(part3(&input), 684);
}
