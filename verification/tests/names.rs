use quests::quest1::part1;
use quests::quest1::part2;
use quests::quest1::part3;
use quests::quest1::Instruction;
use quests::quest1::LEFT;
use quests::quest1::RIGHT;

fn names() -> Vec<String> {
    ["Vyrdax", "Drakzyph", "Fyrryn", "Elarzris"].iter().map(|s| s.to_string()).collect()
}

fn steps(list: &[(u8, u32)]) -> Vec<Instruction> {
    list.iter().map(|(direction, distance)| Instruction { direction: *direction, distance: *distance }).collect()
}

#[test]
fn directions_are_the_letters_l_and_r() {
    assert_eq!(LEFT, b'L');
    assert_eq!(RIGHT, b'R');
}

#[test]
fn marker_stops_at_the_ends() {
    let walk = steps(&[(b'R', 3), (b'L', 2), (b'R', 3), (b'L', 1)]);
    assert_eq!(part1(&names(), &walk), "Fyrryn");
    assert_eq!(part1(&names(), &steps(&[(b'L', 7)])), "Vyrdax");
    assert_eq!(part1(&names(), &steps(&[(b'R', 7)])), "Elarzris");
    assert_eq!(part1(&names(), &steps(&[(b'R', u32::MAX), (b'L', 1)])), "Fyrryn");
    assert_eq!(part1(&names(), &steps(&[(b'R', 2), (b'L', u32::MAX)])), "Vyrdax");
}

#[test]
fn marker_without_instructions_stays_on_the_first_name() {
    assert_eq!(part1(&names(), &[]), "Vyrdax");
    assert_eq!(part2(&names(), &[]), "Vyrdax");
    assert_eq!(part3(&names(), &[]), "Vyrdax");
}

#[test]
fn marker_goes_round_the_ring() {
    let walk = steps(&[(b'R', 3), (b'L', 2), (b'R', 3), (b'L', 1)]);
    assert_eq!(part2(&names(), &walk), "Elarzris");
    assert_eq!(part2(&names(), &steps(&[(b'L', 1)])), "Elarzris");
    assert_eq!(part2(&names(), &steps(&[(b'L', 4)])), "Vyrdax");
    assert_eq!(part2(&names(), &steps(&[(b'L', 5)])), "Elarzris");
    assert_eq!(part2(&names(), &steps(&[(b'R', 4)])), "Vyrdax");
    assert_eq!(part2(&names(), &steps(&[(b'R', 9)])), "Drakzyph");
    assert_eq!(part2(&names(), &steps(&[(b'R', u32::MAX)])), "Elarzris");
    assert_eq!(part2(&names(), &steps(&[(b'L', u32::MAX)])), "Drakzyph");
}

#[test]
fn first_name_is_exchanged() {
    let swaps = steps(&[(b'R', 3), (b'L', 2), (b'R', 3), (b'L', 3)]);
    assert_eq!(part3(&names(), &swaps), "Drakzyph");
    let other = steps(&[(b'R', 3), (b'L', 2), (b'R', 3), (b'L', 1)]);
    assert_eq!(part3(&names(), &other), "Fyrryn");
    assert_eq!(part3(&names(), &steps(&[(b'R', 4)])), "Vyrdax");
    assert_eq!(part3(&names(), &steps(&[(b'L', 8)])), "Vyrdax");
    assert_eq!(part3(&names(), &steps(&[(b'L', 1)])), "Elarzris");
    assert_eq!(part3(&names(), &steps(&[(b'R', 5)])), "Drakzyph");
}

#[test]
fn single_name_is_always_the_answer() {
    let one = vec!["Solo".to_string()];
    let walk = steps(&[(b'R', 3), (b'L', 20), (b'R', 1)]);
    assert_eq!(part1(&one, &walk), "Solo");
    assert_eq!(part2(&one, &walk), "Solo");
    assert_eq!(part3(&one, &walk), "Solo");
}
