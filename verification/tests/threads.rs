use quests::quest8::lines_of_thread;
use quests::quest8::part1;
use quests::quest8::part2;
use quests::quest8::part3;
use quests::quest8::Line;

#[test]
fn line_has_the_lower_nail_first() {
    assert_eq!(Line::new(5, 1), Line { a: 1, b: 5 });
    assert_eq!(Line::new(1, 5), Line { a: 1, b: 5 });
    assert_eq!(Line::new(4, 4), Line { a: 4, b: 4 });
}

#[test]
fn lines_cross_where_one_end_lies_between() {
    let line = Line::new(1, 5);
    assert!(Line::new(3, 7).cuts(&line));
    assert!(line.cuts(&Line::new(3, 7)));
    assert!(Line::new(0, 3).cuts(&line));
    assert!(!Line::new(2, 4).cuts(&line));
    assert!(!Line::new(5, 8).cuts(&line));
    assert!(!Line::new(1, 7).cuts(&line));
    assert!(!Line::new(1, 5).cuts(&line));
    assert!(!Line::new(6, 8).cuts(&line));
}

#[test]
fn thread_has_a_line_between_neighbours() {
    assert_eq!(
        lines_of_thread(&[1, 5, 2, 6]),
        vec![Line { a: 1, b: 5 }, Line { a: 2, b: 5 }, Line { a: 2, b: 6 }]
    );
    assert!(lines_of_thread(&[]).is_empty());
    assert!(lines_of_thread(&[3]).is_empty());
}

#[test]
fn stretches_through_the_centre_are_counted() {
    assert_eq!(part1(&[1, 5, 2, 6, 8, 4, 1, 7, 3], 8), 4);
    assert_eq!(part1(&[], 8), 0);
    assert_eq!(part1(&[3], 8), 0);
    assert_eq!(part1(&[1, 5, 1, 5, 9, 13], 8), 5);
    assert_eq!(part1(&[1, 2, 1], 3), 2);
}

#[test]
fn crossings_of_the_thread_are_counted() {
    assert_eq!(part2(&[1, 5, 2, 6, 8, 4, 1, 7, 3, 5, 7, 8, 2]), 21);
    assert_eq!(part2(&[]), 0);
    assert_eq!(part2(&[1, 2]), 0);
    assert_eq!(part2(&[1, 5, 3, 7]), 1);
}

#[test]
fn best_cut_is_found() {
    assert_eq!(part3(&[1, 5, 2, 6, 8, 4, 1, 7, 3, 6], 8), 7);
    assert_eq!(part3(&[], 8), 0);
    assert_eq!(part3(&[1, 5], 0), 0);
    assert_eq!(part3(&[1, 5, 1, 5], 8), 3);
}
