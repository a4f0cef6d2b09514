use quests::quest3::part1;
use quests::quest3::part2;
use quests::quest3::part3;

const LONG: [u32; 32] = [
    4, 51, 13, 64, 57, 51, 82, 57, 16, 88, 89, 48, 32, 49, 49, 2, 84, 65, 49, 43, 9, 13, 2, 3, 75,
    72, 63, 48, 61, 14, 40, 77,
];

#[test]
fn sizes_are_summed_once_each() {
    assert_eq!(part1(&[10, 5, 1, 10, 3, 8, 5, 2, 2]), 29);
    assert_eq!(part1(&LONG), 1201);
    assert_eq!(part1(&[]), 0);
    assert_eq!(part1(&[7, 7, 7]), 7);
    assert_eq!(part1(&[u32::MAX, u32::MAX, 0]), u32::MAX);
}

#[test]
fn twenty_smallest_sizes_are_summed() {
    assert_eq!(part2(&[10, 5, 1, 10, 3, 8, 5, 2, 2]), 29);
    assert_eq!(part2(&LONG), 781);
    let mut many: Vec<u32> = (1..=25).rev().collect();
    many.push(3);
    many.push(3);
    assert_eq!(part2(&many), 210);
    assert_eq!(part2(&[]), 0);
}

#[test]
fn twenty_smallest_do_not_depend_on_the_order() {
    let mut reversed = LONG.to_vec();
    reversed.reverse();
    assert_eq!(part2(&reversed), 781);
    assert_eq!(part1(&reversed), 1201);
}

#[test]
fn most_frequent_size_is_counted() {
    assert_eq!(part3(&[10, 5, 1, 10, 3, 8, 5, 2, 2]), 2);
    assert_eq!(part3(&LONG), 3);
    assert_eq!(part3(&[9, 9]), 2);
    assert_eq!(part3(&[1, 2, 2, 3, 3, 3, 1, 3]), 4);
}
