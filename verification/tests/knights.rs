use quests::quest6::part1;
use quests::quest6::part2;
use quests::quest6::part3;
use quests::quest6::valid_knights;

const ROW: &[u8] = b"AABCBABCABCabcabcABCCBAACBCa";

#[test]
fn pairs_of_the_first_order() {
    assert_eq!(part1(b"ABabACacBCbca"), 5);
    assert_eq!(part1(b""), 0);
    assert_eq!(part1(b"aA"), 0);
    assert_eq!(part1(b"AAaa"), 4);
    assert_eq!(part1(b"BbCc"), 0);
}

#[test]
fn pairs_of_all_orders() {
    assert_eq!(part2(b"ABabACacBCbca"), 11);
    assert_eq!(part2(b""), 0);
    assert_eq!(part2(b"AaBbCc"), 3);
    assert_eq!(part2(b"abcABC"), 0);
    assert_eq!(part2(b"AbBaCxc"), 2);
}

#[test]
fn mentors_near_a_novice() {
    assert_eq!(valid_knights(ROW, 11, 10), Ok(4));
    assert_eq!(valid_knights(ROW, 27, 10), Ok(3));
    assert_eq!(valid_knights(ROW, 12, 2), Ok(0));
    assert_eq!(valid_knights(b"Aa", 1, 5), Ok(1));
    assert_eq!(valid_knights(b"aA", 0, 0), Ok(0));
    assert_eq!(valid_knights(b"aA", 0, 1), Ok(1));
    assert_eq!(valid_knights(b"aA", 0, usize::MAX), Ok(1));
    assert_eq!(valid_knights(b"AcCbC", 1, 1), Ok(1));
}

#[test]
fn mentors_are_asked_of_novices_only() {
    assert_eq!(valid_knights(ROW, 0, 10), Err("Invalid knight type".to_string()));
    assert_eq!(valid_knights(b"x", 0, 1), Err("Invalid knight type".to_string()));
}

#[test]
fn pairs_in_a_repeated_row() {
    assert_eq!(part3(ROW, 10, 1), Ok(34));
    assert_eq!(part3(ROW, 10, 2), Ok(72));
    assert_eq!(part3(ROW, 3, 5), Ok(38));
    assert_eq!(part3(ROW, 0, 3), Ok(0));
}

#[test]
fn repeated_row_needs_a_copy() {
    assert_eq!(part3(ROW, 10, 0), Err("Repeat count must be greater than 0".to_string()));
    assert_eq!(part3(b"", 10, 0), Err("Repeat count must be greater than 0".to_string()));
}
