use quests::quest1;
use quests::quest2;
use quests::quest3;
use quests::quest4;
use quests::quest5;
use quests::quest6;
use quests::quest7;
use quests::quest8;
use quests::quest9;
use quests::text::find;
use quests::text::is_space_byte;
use quests::text::lines;
use quests::text::parse_i64;
use quests::text::parse_u16;
use quests::text::parse_u16_fields;
use quests::text::parse_u32;
use quests::text::parse_u32_fields;
use quests::text::parse_unsigned;
use quests::text::split;
use quests::text::split_once;
use quests::text::strip_carriage_return;
use quests::text::to_vec;
use quests::text::trim;
use quests::text::ParseError;
use std::collections::HashSet;

fn letters(list: &[u8]) -> HashSet<u8> {
    list.iter().copied().collect()
}

#[test]
fn white_space_is_the_ascii_white_space() {
    for b in [b' ', b'\t', b'\n', 11, 12, b'\r'] {
        assert!(is_space_byte(b));
    }
    for b in [0, 8, 14, 31, 33, b'a', 0x85, 0xa0, 255] {
        assert!(!is_space_byte(b));
    }
}

#[test]
fn trim_takes_white_space_from_both_ends() {
    assert_eq!(trim(b"  a b \n"), b"a b");
    assert_eq!(trim(b"a b"), b"a b");
    assert_eq!(trim(b" \t\r\n "), b"");
    assert_eq!(trim(b""), b"");
    assert_eq!(trim(b"\x0b\x0cx\x0c"), b"x");
}

#[test]
fn find_gives_the_first_place_of_a_byte() {
    assert_eq!(find(b"a,b,c", 0, b','), 1);
    assert_eq!(find(b"a,b,c", 1, b','), 1);
    assert_eq!(find(b"a,b,c", 2, b','), 3);
    assert_eq!(find(b"a,b,c", 4, b','), 5);
    assert_eq!(find(b"a,b,c", 5, b','), 5);
    assert_eq!(find(b"", 0, b','), 0);
}

#[test]
fn lines_end_at_line_feeds() {
    assert_eq!(lines(b"a\nbc\n\nd"), vec![&b"a"[..], b"bc", b"", b"d"]);
    assert_eq!(lines(b"a\n"), vec![&b"a"[..]]);
    assert_eq!(lines(b"\n"), vec![&b""[..]]);
    assert!(lines(b"").is_empty());
    assert_eq!(lines(b"a\r\nb\r"), vec![&b"a"[..], b"b\r"]);
    assert_eq!(lines(b"a\r\r\nb"), vec![&b"a\r"[..], b"b"]);
}

#[test]
fn carriage_return_is_taken_from_the_end() {
    assert_eq!(strip_carriage_return(b"ab\r"), b"ab");
    assert_eq!(strip_carriage_return(b"ab"), b"ab");
    assert_eq!(strip_carriage_return(b"\r"), b"");
    assert_eq!(strip_carriage_return(b""), b"");
}

#[test]
fn fields_stand_between_separators() {
    assert_eq!(split(b"a,bc,,d", b','), vec![&b"a"[..], b"bc", b"", b"d"]);
    assert_eq!(split(b"", b','), vec![&b""[..]]);
    assert_eq!(split(b",", b','), vec![&b""[..], b""]);
    assert_eq!(split(b"abc", b','), vec![&b"abc"[..]]);
    assert_eq!(split(b"a,", b','), vec![&b"a"[..], b""]);
}

#[test]
fn split_once_cuts_at_the_first_separator() {
    assert_eq!(split_once(b"a:b:c", b':'), Some((&b"a"[..], &b"b:c"[..])));
    assert_eq!(split_once(b":", b':'), Some((&b""[..], &b""[..])));
    assert_eq!(split_once(b"abc", b':'), None);
    assert_eq!(split_once(b"", b':'), None);
}

#[test]
fn numbers_are_read_in_base_ten() {
    assert_eq!(parse_u32(b"0"), Some(0));
    assert_eq!(parse_u32(b"007"), Some(7));
    assert_eq!(parse_u32(b"+12"), Some(12));
    assert_eq!(parse_u32(b"4294967295"), Some(u32::MAX));
    assert_eq!(parse_u32(b"4294967296"), None);
    assert_eq!(parse_u32(b"00000000004294967295"), Some(u32::MAX));
    assert_eq!(parse_u32(b"99999999999999999999999"), None);
    assert_eq!(parse_u32(b""), None);
    assert_eq!(parse_u32(b"+"), None);
    assert_eq!(parse_u32(b"-1"), None);
    assert_eq!(parse_u32(b"++1"), None);
    assert_eq!(parse_u32(b"1 "), None);
    assert_eq!(parse_u32(b" 1"), None);
    assert_eq!(parse_u32(b"1a"), None);
    assert_eq!(parse_u16(b"65535"), Some(u16::MAX));
    assert_eq!(parse_u16(b"65536"), None);
    assert_eq!(parse_unsigned(b"18446744073709551615", u64::MAX), Some(u64::MAX));
    assert_eq!(parse_unsigned(b"18446744073709551616", u64::MAX), None);
    assert_eq!(parse_unsigned(b"11", 10), None);
    assert_eq!(parse_unsigned(b"10", 10), Some(10));
    assert_eq!(parse_unsigned(b"0", 0), Some(0));
    assert_eq!(parse_unsigned(b"1", 0), None);
}

#[test]
fn numbers_with_a_sign_are_read() {
    assert_eq!(parse_i64(b"0"), Some(0));
    assert_eq!(parse_i64(b"-0"), Some(0));
    assert_eq!(parse_i64(b"+5"), Some(5));
    assert_eq!(parse_i64(b"-5"), Some(-5));
    assert_eq!(parse_i64(b"9223372036854775807"), Some(i64::MAX));
    assert_eq!(parse_i64(b"9223372036854775808"), None);
    assert_eq!(parse_i64(b"-9223372036854775808"), Some(i64::MIN));
    assert_eq!(parse_i64(b"-9223372036854775809"), None);
    assert_eq!(parse_i64(b"-"), None);
    assert_eq!(parse_i64(b"-+5"), None);
    assert_eq!(parse_i64(b"+-5"), None);
    assert_eq!(parse_i64(b"--5"), None);
    assert_eq!(parse_i64(b""), None);
    assert_eq!(parse_i64(b"5-"), None);
}

#[test]
fn lists_of_numbers_are_read() {
    assert_eq!(parse_u32_fields(&vec![&b"1"[..], b"22", b"+3"]), Some(vec![1, 22, 3]));
    assert_eq!(parse_u32_fields(&vec![&b"1"[..], b"", b"3"]), None);
    assert_eq!(parse_u32_fields(&Vec::new()), Some(Vec::new()));
    assert_eq!(parse_u16_fields(&vec![&b"1"[..], b"65535"]), Some(vec![1, 65535]));
    assert_eq!(parse_u16_fields(&vec![&b"1"[..], b"65536"]), None);
    assert_eq!(to_vec(b"abc"), b"abc".to_vec());
}

#[test]
fn names_and_instructions_are_read() {
    let (names, instructions) =
        quest1::parse_input("Vyrdax,Drakzyph,Fyrryn,Elarzris\n\nR3,L2,R3,L1\n").unwrap();
    assert_eq!(names, vec!["Vyrdax", "Drakzyph", "Fyrryn", "Elarzris"]);
    let steps: Vec<(u8, u32)> = instructions.iter().map(|i| (i.direction, i.distance)).collect();
    assert_eq!(steps, vec![(b'R', 3), (b'L', 2), (b'R', 3), (b'L', 1)]);
    assert_eq!(quest1::part1(&names, &instructions), "Fyrryn");
}

#[test]
fn names_keep_their_letters() {
    let (names, _) = quest1::parse_input("Zo\u{00eb},\u{4e2d}\u{6587}, x\nR1").unwrap();
    assert_eq!(names, vec!["Zo\u{00eb}", "\u{4e2d}\u{6587}", " x"]);
}

#[test]
fn single_line_holds_names_and_instructions() {
    let (names, instructions) = quest1::parse_input("R1,L2").unwrap();
    assert_eq!(names, vec!["R1", "L2"]);
    assert_eq!(instructions.len(), 2);
    assert_eq!(instructions[1], quest1::Instruction { direction: b'L', distance: 2 });
}

#[test]
fn instructions_need_a_direction_and_a_distance() {
    assert_eq!(quest1::parse_input("").err(), Some(ParseError::MissingLine));
    assert_eq!(quest1::parse_input(" \n ").err(), Some(ParseError::MissingLine));
    assert_eq!(quest1::parse_input("a,b\nR1,,L2").err(), Some(ParseError::EmptyField));
    assert_eq!(quest1::parse_input("a,b\nR1,L").err(), Some(ParseError::InvalidNumber));
    assert_eq!(quest1::parse_input("a,b\nR1,Lx,").err(), Some(ParseError::InvalidNumber));
    assert_eq!(quest1::parse_input("a,b\nR4294967296").err(), Some(ParseError::InvalidNumber));
    assert_eq!(quest1::parse_instruction(b"X12"), Ok(quest1::Instruction { direction: b'X', distance: 12 }));
}

#[test]
fn number_of_the_picture_is_read() {
    let n = |x, y| quest2::ComplexNumber { x, y };
    assert_eq!(quest2::parse_input("A=[25,9]\n"), Ok(n(25, 9)));
    assert_eq!(quest2::parse_input("  A=[35300,-64910]  "), Ok(n(35300, -64910)));
    assert_eq!(quest2::parse_input("[1,2]"), Ok(n(1, 2)));
    assert_eq!(quest2::parse_input("(1,2)"), Ok(n(1, 2)));
    assert_eq!(quest2::parse_input("1,2"), Ok(n(1, 2)));
    assert_eq!(quest2::parse_input(" [ ( -1 , +2 ) ] "), Ok(n(-1, 2)));
    assert_eq!(quest2::parse_number(b"[ 7 ,\t8 ]"), Ok(n(7, 8)));
}

#[test]
fn number_of_the_picture_needs_two_parts() {
    assert_eq!(quest2::parse_input("A=[25]"), Err(ParseError::MissingSeparator));
    assert_eq!(quest2::parse_input(""), Err(ParseError::MissingSeparator));
    assert_eq!(quest2::parse_input("A=[25,]"), Err(ParseError::InvalidNumber));
    assert_eq!(quest2::parse_input("A=[,9]"), Err(ParseError::InvalidNumber));
    assert_eq!(quest2::parse_input("A=[25,9"), Err(ParseError::InvalidNumber));
    assert_eq!(quest2::parse_input("A=[1,2,3]"), Err(ParseError::InvalidNumber));
    assert_eq!(quest2::parse_input("B=[1,2]"), Err(ParseError::InvalidNumber));
    assert_eq!(quest2::parse_number(b"A=[1,2]"), Err(ParseError::InvalidNumber));
    assert_eq!(quest2::parse_input("[9223372036854775808,0]"), Err(ParseError::InvalidNumber));
}

#[test]
fn sizes_of_the_crates_are_read() {
    assert_eq!(quest3::parse_input("10,5,1,10,3,8,5,2,2\n"), Ok(vec![10, 5, 1, 10, 3, 8, 5, 2, 2]));
    assert_eq!(quest3::parse_input(" 7 "), Ok(vec![7]));
    assert_eq!(quest3::parse_input("1, 2"), Err(ParseError::InvalidNumber));
    assert_eq!(quest3::parse_input(""), Err(ParseError::InvalidNumber));
    assert_eq!(quest3::parse_input("1,,2"), Err(ParseError::InvalidNumber));
    assert_eq!(quest3::parse_input("1,2,"), Err(ParseError::InvalidNumber));
    assert_eq!(quest3::part1(&quest3::parse_input("10,5,1,10,3,8,5,2,2").unwrap()), 29);
}

#[test]
fn gears_are_read() {
    assert_eq!(quest4::parse_gears("128\n64\n32\n"), Ok(vec![128, 64, 32]));
    assert_eq!(quest4::parse_gears(""), Ok(Vec::new()));
    assert_eq!(quest4::parse_gears("128\r\n64"), Ok(vec![128, 64]));
    assert_eq!(quest4::parse_gears("128\n\n64"), Err(ParseError::InvalidNumber));
    assert_eq!(quest4::parse_gears(" 128"), Err(ParseError::InvalidNumber));
}

#[test]
fn shafts_are_read() {
    assert_eq!(
        quest4::parse_gear_pairs("5\n5|10\n10|20\n5\n"),
        Ok(vec![(0, 5), (5, 10), (10, 20), (5, 0)])
    );
    assert_eq!(quest4::parse_gear_pairs("5\n7"), Ok(vec![(0, 5), (7, 0)]));
    assert_eq!(quest4::parse_gear_pairs("5"), Err(ParseError::InvalidNumber));
    assert_eq!(quest4::parse_gear_pairs("5\n\n7"), Err(ParseError::MissingSeparator));
    assert_eq!(quest4::parse_gear_pairs("5\nx|1\n7"), Err(ParseError::InvalidNumber));
    assert_eq!(quest4::parse_gear_pairs("5\n1|2|3\n7"), Err(ParseError::InvalidNumber));
    assert_eq!(quest4::parse_shaft(b"12|34"), Ok((12, 34)));
    assert_eq!(quest4::parse_shaft(b"1234"), Err(ParseError::MissingSeparator));
}

#[test]
fn swords_are_read() {
    let swords = quest5::parse_input("58:5,3,7,8,9,10,4,5,7,8,8\n 7 :1\n").unwrap();
    assert_eq!(swords.len(), 2);
    assert_eq!(swords[0].id, 58);
    assert_eq!(swords[0].nodes, vec![5, 3, 7, 8, 9, 10, 4, 5, 7, 8, 8]);
    assert_eq!(swords[1].id, 7);
    assert_eq!(swords[1].nodes, vec![1]);
    assert_eq!(quest5::part1(&swords), "581078");
    assert!(quest5::parse_input("").unwrap().is_empty());
}

#[test]
fn swords_need_a_number_and_numbers() {
    assert_eq!(quest5::parse_input("58 5,3").err(), Some(ParseError::MissingSeparator));
    assert_eq!(quest5::parse_input("x:5,3").err(), Some(ParseError::InvalidNumber));
    assert_eq!(quest5::parse_input("58:5, 3").err(), Some(ParseError::InvalidNumber));
    assert_eq!(quest5::parse_input("58:").err(), Some(ParseError::InvalidNumber));
    assert_eq!(quest5::parse_input("1:2\n58 5,3\nx:1").err(), Some(ParseError::MissingSeparator));
    assert_eq!(quest5::parse_sword(b"3:1:2").err(), Some(ParseError::InvalidNumber));
}

#[test]
fn row_of_knights_is_read() {
    assert_eq!(quest6::parse_input("  ABabACacBCbca\n"), b"ABabACacBCbca".to_vec());
    assert_eq!(quest6::parse_input(""), Vec::<u8>::new());
    assert_eq!(quest6::part2(&quest6::parse_input("ABabACacBCbca\n")), 11);
}

#[test]
fn names_and_rules_are_read() {
    let input = quest7::parse_input(
        "Oronris,Urakris, Oroneth ,Uraketh\n\nr > a,i,o\ni > p,w\nn > e,r\no > n,m\nk > f,r\na > k\nU > r\ne > t\nO > r\nt > h\n",
    )
    .unwrap();
    assert_eq!(input.names, vec!["Oronris", "Urakris", "Oroneth", "Uraketh"]);
    assert_eq!(input.rules.len(), 10);
    assert_eq!(input.rules[&b'r'], letters(b"aio"));
    assert_eq!(input.rules[&b't'], letters(b"h"));
    assert_eq!(quest7::part1(&input), Some("Oroneth".to_string()));
    assert_eq!(quest7::part2(&input), 3);
}

#[test]
fn later_rule_takes_the_place_of_an_earlier() {
    let input = quest7::parse_input("Ab\nA > b,c\nA > d , efg ,d\nB  > x").unwrap();
    assert_eq!(input.rules.len(), 2);
    assert_eq!(input.rules[&b'A'], letters(b"de"));
    assert_eq!(input.rules[&b'B'], letters(b"x"));
    let bare = quest7::parse_input("Ab,Cd").unwrap();
    assert_eq!(bare.names, vec!["Ab", "Cd"]);
    assert!(bare.rules.is_empty());
}

#[test]
fn rules_need_an_arrow_and_letters() {
    assert_eq!(quest7::parse_input("").err(), Some(ParseError::MissingLine));
    assert_eq!(quest7::parse_input("Ab\nA>b").err(), Some(ParseError::MissingSeparator));
    assert_eq!(quest7::parse_input("Ab\nA >b").err(), Some(ParseError::MissingSeparator));
    assert_eq!(quest7::parse_input("Ab\n > b").err(), Some(ParseError::EmptyField));
    assert_eq!(quest7::parse_input("Ab\nA > b,,c").err(), Some(ParseError::EmptyField));
    assert_eq!(quest7::parse_input("Ab\nA >  ").err(), Some(ParseError::MissingSeparator));
    assert_eq!(quest7::parse_input("A>b\nA > b").err(), Some(ParseError::MissingSeparator));
    assert_eq!(quest7::parse_rule(b"x > y,z").map(|(k, v)| (k, v)), Ok((b'x', letters(b"yz"))));
    assert_eq!(quest7::parse_rule(b"a > b > c").map(|(k, v)| (k, v)), Ok((b'a', letters(b"b"))));
}

#[test]
fn nails_are_read() {
    assert_eq!(quest8::parse_input("1,5,2,6,8,4,1,7,3\n"), Ok(vec![1, 5, 2, 6, 8, 4, 1, 7, 3]));
    assert_eq!(quest8::parse_input("65535"), Ok(vec![65535]));
    assert_eq!(quest8::parse_input("65536"), Err(ParseError::InvalidNumber));
    assert_eq!(quest8::parse_input("1;2"), Err(ParseError::InvalidNumber));
    assert_eq!(quest8::part1(&quest8::parse_input("1,5,2,6,8,4,1,7,3").unwrap(), 8), 4);
}

#[test]
fn dna_is_read() {
    let ducks = quest9::parse_input("1:CAAG\n22:CTTG\n3:\n").unwrap();
    assert_eq!(ducks.len(), 3);
    assert_eq!(ducks[0], quest9::DeoxyribonucleicAcid { id: 1, sequence: b"CAAG".to_vec() });
    assert_eq!(ducks[1], quest9::DeoxyribonucleicAcid { id: 22, sequence: b"CTTG".to_vec() });
    assert_eq!(ducks[2], quest9::DeoxyribonucleicAcid { id: 3, sequence: Vec::new() });
    assert!(quest9::parse_input("").unwrap().is_empty());
    assert_eq!(
        quest9::parse_dna(b"7:A:B"),
        Ok(quest9::DeoxyribonucleicAcid { id: 7, sequence: b"A:B".to_vec() })
    );
}

#[test]
fn dna_needs_a_number_and_a_colon() {
    assert_eq!(quest9::parse_input("1 CAAG").err(), Some(ParseError::MissingSeparator));
    assert_eq!(quest9::parse_input("x:CAAG").err(), Some(ParseError::InvalidNumber));
    assert_eq!(quest9::parse_input(":CAAG").err(), Some(ParseError::InvalidNumber));
    assert_eq!(quest9::parse_input("1:A\n2 B\nx:C").err(), Some(ParseError::MissingSeparator));
    assert_eq!(quest9::parse_input("1:A\n\n2:B").err(), Some(ParseError::MissingSeparator));
}
