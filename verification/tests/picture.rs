use quests::quest2::divide_toward_zero;
use quests::quest2::part_1;
use quests::quest2::part_2;
use quests::quest2::part_3;
use quests::quest2::should_be_engraved;
use quests::quest2::ComplexNumber;

fn number(x: i64, y: i64) -> ComplexNumber {
    ComplexNumber { x, y }
}

#[test]
fn numbers_add_part_by_part() {
    assert_eq!(number(1, 1) + number(2, 2), number(3, 3));
    assert_eq!(number(2, 5) + number(3, 7), number(5, 12));
    assert_eq!(number(-2, 5) + number(10, -1), number(8, 4));
}

#[test]
fn numbers_multiply_like_complex_numbers() {
    assert_eq!(number(1, 1) * number(2, 2), number(0, 4));
    assert_eq!(number(2, 5) * number(3, 7), number(-29, 29));
    assert_eq!(number(-2, 5) * number(10, -1), number(-15, 52));
    assert_eq!(number(-1, -2) * number(-3, -4), number(-5, 10));
}

#[test]
fn numbers_divide_part_by_part_toward_zero() {
    assert_eq!(number(10, 12) / number(2, 2), number(5, 6));
    assert_eq!(number(11, 12) / number(3, 5), number(3, 2));
    assert_eq!(number(-10, -12) / number(2, 2), number(-5, -6));
    assert_eq!(number(-11, -12) / number(3, 5), number(-3, -2));
    assert_eq!(number(11, -12) / number(-3, -5), number(-3, 2));
}

#[test]
fn division_rounds_toward_zero() {
    assert_eq!(divide_toward_zero(7, 2), 3);
    assert_eq!(divide_toward_zero(-7, 2), -3);
    assert_eq!(divide_toward_zero(7, -2), -3);
    assert_eq!(divide_toward_zero(-7, -2), 3);
    assert_eq!(divide_toward_zero(0, -5), 0);
    assert_eq!(divide_toward_zero(i64::MIN, 1), i64::MIN);
    assert_eq!(divide_toward_zero(i64::MIN, i64::MIN), 1);
    assert_eq!(divide_toward_zero(i64::MAX, i64::MIN), 0);
    assert_eq!(divide_toward_zero(i64::MIN, 2), i64::MIN / 2);
    assert_eq!(divide_toward_zero(i64::MIN, -2), i64::MIN / -2);
    assert_eq!(divide_toward_zero(i64::MAX, -1), -i64::MAX);
}

#[test]
fn three_cycles_from_zero() {
    assert_eq!(part_1(number(25, 9)), number(357, 862));
    assert_eq!(part_1(number(-7, 3)), number(-7, 3));
    assert_eq!(part_1(number(0, 0)), number(0, 0));
    assert_eq!(part_1(number(164, 56)), number(287357, 961192));
}

#[test]
fn points_are_engraved_where_the_cycles_stay_in_the_box() {
    assert!(should_be_engraved(number(35630, -64880)));
    assert!(should_be_engraved(number(35630, -64870)));
    assert!(!should_be_engraved(number(35460, -64910)));
    assert!(!should_be_engraved(number(35300, -64910)));
    assert!(should_be_engraved(number(0, 0)));
}

#[test]
fn coarse_picture() {
    assert_eq!(part_2(number(35300, -64910)), 4076);
    assert_eq!(part_2(number(0, 0)), 10201);
    assert_eq!(part_2(number(-500, -500)), 10201);
    assert_eq!(part_2(number(1000000, 1000000)), 0);
    assert_eq!(part_2(number(-200500, -500)), 51);
}

#[test]
fn fine_picture() {
    assert_eq!(part_3(number(999000, 999000)), 0);
}

#[test]
fn fine_picture_of_the_example() {
    assert_eq!(part_3(number(35300, -64910)), 406954);
}
