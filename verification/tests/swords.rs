use quests::quest5::comes_before;
use quests::quest5::lay_out;
use quests::quest5::level_of;
use quests::quest5::part1;
use quests::quest5::part2;
use quests::quest5::part3;
use quests::quest5::place;
use quests::quest5::quality_of;
use quests::quest5::rank;
use quests::quest5::FishboneNode;
use quests::quest5::SimplifiedFishbone;

fn sword(id: u32, nodes: &[u32]) -> SimplifiedFishbone {
    SimplifiedFishbone { id, nodes: nodes.to_vec() }
}

fn node(value: u32, lhs: Option<u32>, rhs: Option<u32>) -> FishboneNode {
    FishboneNode { value, lhs, rhs }
}

#[test]
fn numbers_are_laid_out_on_the_spine() {
    let fishbone = lay_out(&sword(58, &[5, 3, 7, 8, 9, 10, 4, 5, 7, 8, 8]));
    assert_eq!(fishbone.id, 58);
    assert_eq!(
        fishbone.nodes,
        vec![
            node(5, Some(3), Some(7)),
            node(8, Some(4), Some(9)),
            node(10, Some(5), None),
            node(7, None, Some(8)),
            node(8, None, None)
        ]
    );
}

#[test]
fn number_goes_to_the_first_node_with_room() {
    let mut spine = vec![node(5, Some(3), None), node(8, None, None)];
    place(&mut spine, 4);
    assert_eq!(spine, vec![node(5, Some(3), None), node(8, Some(4), None)]);
    place(&mut spine, 9);
    assert_eq!(spine, vec![node(5, Some(3), Some(9)), node(8, Some(4), None)]);
    place(&mut spine, 5);
    assert_eq!(spine, vec![node(5, Some(3), Some(9)), node(8, Some(4), None), node(5, None, None)]);
    place(&mut spine, 8);
    assert_eq!(
        spine,
        vec![node(5, Some(3), Some(9)), node(8, Some(4), None), node(5, None, Some(8))]
    );
}

#[test]
fn first_number_starts_the_spine() {
    let mut spine = Vec::new();
    place(&mut spine, 7);
    assert_eq!(spine, vec![node(7, None, None)]);
    assert!(lay_out(&sword(1, &[])).nodes.is_empty());
}

#[test]
fn quality_is_the_spine_written_out() {
    assert_eq!(part1(&[sword(58, &[5, 3, 7, 8, 9, 10, 4, 5, 7, 8, 8])]), "581078");
    assert_eq!(part1(&[sword(1, &[0, 12]), sword(2, &[5])]), "0");
    assert_eq!(part1(&[sword(1, &[10, 10, 10])]), "101010");
    assert_eq!(part1(&[sword(1, &[4000000000, 4000000000, 4000000000])]), "400000000040000000004000000000");
}

#[test]
fn quality_as_a_number() {
    assert_eq!(quality_of(&lay_out(&sword(58, &[5, 3, 7, 8, 9, 10, 4, 5, 7, 8, 8])).nodes), 581078);
    assert_eq!(quality_of(&lay_out(&sword(1, &[0, 0, 0, 7])).nodes), 0);
    assert_eq!(quality_of(&lay_out(&sword(1, &[0, 5, 5])).nodes), 5);
    assert_eq!(quality_of(&lay_out(&sword(1, &[10, 10, 100])).nodes), 1010);
    assert_eq!(quality_of(&lay_out(&sword(1, &[100, 100, 7, 100])).nodes), 100100100);
    assert_eq!(quality_of(&lay_out(&sword(1, &[1844674407, 1844674407])).nodes), 18446744071844674407);
    assert_eq!(quality_of(&Vec::new()), 0);
}

#[test]
fn level_is_written_from_left_to_right() {
    assert_eq!(level_of(&node(10, Some(2), Some(11))), 21011);
    assert_eq!(level_of(&node(10, None, Some(11))), 1011);
    assert_eq!(level_of(&node(10, Some(2), None)), 210);
    assert_eq!(level_of(&node(10, None, None)), 10);
    assert_eq!(level_of(&node(5, Some(0), Some(9))), 59);
}

const TEN_SWORDS: [(u32, [u32; 10]); 10] = [
    (1, [2, 4, 1, 1, 8, 2, 7, 9, 8, 6]),
    (2, [7, 9, 9, 3, 8, 3, 8, 8, 6, 8]),
    (3, [4, 7, 6, 9, 1, 8, 3, 7, 2, 2]),
    (4, [6, 4, 2, 1, 7, 4, 5, 5, 5, 8]),
    (5, [2, 9, 3, 8, 3, 9, 5, 2, 1, 4]),
    (6, [2, 4, 9, 6, 7, 4, 1, 7, 6, 8]),
    (7, [2, 3, 7, 6, 2, 2, 4, 1, 4, 2]),
    (8, [5, 1, 5, 6, 8, 3, 1, 8, 3, 9]),
    (9, [5, 7, 7, 3, 7, 2, 3, 8, 6, 7]),
    (10, [4, 1, 9, 3, 8, 5, 4, 3, 5, 5]),
];

#[test]
fn spread_of_the_qualities() {
    let swords: Vec<SimplifiedFishbone> = TEN_SWORDS.iter().map(|(id, n)| sword(*id, n)).collect();
    assert_eq!(part2(&swords), 77053);
    assert_eq!(part2(&[sword(1, &[5, 3, 7])]), 0);
    assert_eq!(part2(&[sword(1, &[9]), sword(2, &[1, 1])]), 2);
}

const NINE_SWORDS: [(u32, [u32; 10]); 9] = [
    (1, [7, 1, 9, 1, 6, 9, 8, 3, 7, 2]),
    (2, [6, 1, 9, 2, 9, 8, 8, 4, 3, 1]),
    (3, [7, 1, 9, 1, 6, 9, 8, 3, 8, 3]),
    (4, [6, 1, 9, 2, 8, 8, 8, 4, 3, 1]),
    (5, [7, 1, 9, 1, 6, 9, 8, 3, 7, 3]),
    (6, [6, 1, 9, 2, 8, 8, 8, 4, 3, 5]),
    (7, [3, 7, 2, 2, 7, 4, 4, 6, 3, 1]),
    (8, [3, 7, 2, 2, 7, 4, 4, 6, 3, 7]),
    (9, [3, 7, 2, 2, 7, 4, 1, 6, 3, 7]),
];

#[test]
fn checksum_of_the_ranked_swords() {
    let swords: Vec<SimplifiedFishbone> = NINE_SWORDS.iter().map(|(id, n)| sword(*id, n)).collect();
    assert_eq!(part3(&swords), 260);
    assert_eq!(part3(&[]), 0);
    assert_eq!(part3(&[sword(5, &[0, 12]), sword(9, &[10, 2, 11]), sword(7, &[3])]), 38);
}

#[test]
fn swords_of_one_rank_go_by_their_numbers() {
    let twins = [sword(1, &[7, 1, 9, 1, 6, 9, 8, 3, 7, 2]), sword(2, &[7, 1, 9, 1, 6, 9, 8, 3, 7, 2])];
    assert_eq!(part3(&twins), 4);
    let a = rank(&twins[0]);
    let b = rank(&twins[1]);
    assert!(comes_before(&b, &a));
    assert!(!comes_before(&a, &b));
    assert!(!comes_before(&a, &a));
}

#[test]
fn rank_holds_quality_and_levels() {
    let r = rank(&sword(58, &[5, 3, 7, 8, 9, 10, 4, 5, 7, 8, 8]));
    assert_eq!(r.id, 58);
    assert_eq!(r.quality, 581078);
    assert_eq!(r.levels, vec![357, 489, 510, 78, 8]);
}

#[test]
fn better_quality_comes_first_then_the_levels() {
    let high = rank(&sword(1, &[9, 1]));
    let low = rank(&sword(2, &[8, 1]));
    assert!(comes_before(&high, &low));
    assert!(!comes_before(&low, &high));
    let wide = rank(&sword(3, &[5, 3, 7]));
    let narrow = rank(&sword(4, &[5, 3]));
    assert!(comes_before(&wide, &narrow));
    assert!(!comes_before(&narrow, &wide));
}
