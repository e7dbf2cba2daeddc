use circuits::jbox::JBox;
use circuits::machine::Machine;
use circuits::parse::{
    collect_lists, find_comma, parse_digits, parse_list, parse_row, parse_signed, parse_unsigned, skip_space_bytes,
    trim_brackets, word_end_bytes,
};

#[test]
fn a_point_is_three_integers() {
    assert_eq!(JBox::new("162,817,812"), Some(JBox { x: 162, y: 817, z: 812 }));
    assert_eq!(JBox::new("0,0,0"), Some(JBox { x: 0, y: 0, z: 0 }));
    assert_eq!(JBox::new("-5,+7,-0"), Some(JBox { x: -5, y: 7, z: 0 }));
    assert_eq!(JBox::new("007,08,9"), Some(JBox { x: 7, y: 8, z: 9 }));
}

#[test]
fn a_point_at_the_limits() {
    assert_eq!(
        JBox::new("-9223372036854775808,9223372036854775807,1"),
        Some(JBox { x: i64::MIN, y: i64::MAX, z: 1 })
    );
    assert_eq!(JBox::new("9223372036854775808,0,0"), None);
    assert_eq!(JBox::new("-9223372036854775809,0,0"), None);
    assert_eq!(JBox::new("0,0,99999999999999999999999999"), None);
}

#[test]
fn text_that_is_no_point() {
    assert_eq!(JBox::new(""), None);
    assert_eq!(JBox::new("1,2"), None);
    assert_eq!(JBox::new("1,2,3,4"), None);
    assert_eq!(JBox::new("1,,3"), None);
    assert_eq!(JBox::new("1, 2,3"), None);
    assert_eq!(JBox::new("a,b,c"), None);
    assert_eq!(JBox::new("1,2,-"), None);
    assert_eq!(JBox::new("1,2,+"), None);
    assert_eq!(JBox::new("1,2,--3"), None);
    assert_eq!(JBox::new("1,2,3 "), None);
}

#[test]
fn numbers_between_brackets() {
    assert_eq!(Machine::parse_numbers("(1,3)"), Some(vec![1, 3]));
    assert_eq!(Machine::parse_numbers("{3,5,4,7}"), Some(vec![3, 5, 4, 7]));
    assert_eq!(Machine::parse_numbers("(3)"), Some(vec![3]));
    assert_eq!(Machine::parse_numbers("1,2"), Some(vec![1, 2]));
    assert_eq!(Machine::parse_numbers("({(1,2)}"), Some(vec![1, 2]));
    assert_eq!(Machine::parse_numbers("(+7,007)"), Some(vec![7, 7]));
    assert_eq!(Machine::parse_numbers("(18446744073709551615)"), Some(vec![usize::MAX]));
}

#[test]
fn text_that_is_no_list_of_numbers() {
    assert_eq!(Machine::parse_numbers("()"), None);
    assert_eq!(Machine::parse_numbers(""), None);
    assert_eq!(Machine::parse_numbers("(1,,2)"), None);
    assert_eq!(Machine::parse_numbers("(1,2,)"), None);
    assert_eq!(Machine::parse_numbers("(1,a)"), None);
    assert_eq!(Machine::parse_numbers("(-7)"), None);
    assert_eq!(Machine::parse_numbers("(1(2)"), None);
    assert_eq!(Machine::parse_numbers("[1,2]"), None);
    assert_eq!(Machine::parse_numbers("(18446744073709551616)"), None);
}

#[test]
fn lights_are_read_with_the_first_as_bit_zero() {
    assert_eq!(Machine::parse_lights("[.##.]"), 0b0110);
    assert_eq!(Machine::parse_lights("[...#.]"), 0b01000);
    assert_eq!(Machine::parse_lights("[.###.#]"), 0b101110);
    assert_eq!(Machine::parse_lights("[#]"), 1);
    assert_eq!(Machine::parse_lights("[]"), 0);
    assert_eq!(Machine::parse_lights(""), 0);
    assert_eq!(Machine::parse_lights("#.#"), 0b101);
    assert_eq!(Machine::parse_lights("[[#.]]]"), 1);
}

#[test]
fn lights_after_the_32nd_are_left_out() {
    assert_eq!(Machine::parse_lights("[...............................#]"), 0x8000_0000);
    assert_eq!(Machine::parse_lights("[#...............................#]"), 1);
    assert_eq!(parse_row(b"[................................#]"), 0);
}

#[test]
fn fields_and_commas() {
    let text = b"12,+34,x5";
    assert_eq!(find_comma(text, 0), 2);
    assert_eq!(find_comma(text, 2), 2);
    assert_eq!(find_comma(text, 3), 6);
    assert_eq!(find_comma(text, 7), 9);
    assert_eq!(find_comma(text, 20), 9);
    assert_eq!(parse_digits(text, 0, 2), Some(12));
    assert_eq!(parse_digits(text, 0, 0), Some(0));
    assert_eq!(parse_digits(text, 3, 6), None);
    assert_eq!(parse_unsigned(text, 3, 6), Some(34));
    assert_eq!(parse_unsigned(text, 0, 0), None);
    assert_eq!(parse_unsigned(text, 7, 9), None);
    assert_eq!(parse_signed(text, 3, 6), Some(34));
    assert_eq!(parse_signed(b"-34", 0, 3), Some(-34));
    assert_eq!(parse_signed(b"-", 0, 1), None);
    assert_eq!(parse_list(b"{10,20}"), Some(vec![10, 20]));
    assert_eq!(trim_brackets(b"((1))", false), (2, 3));
    assert_eq!(trim_brackets(b"(())", false), (4, 4));
    assert_eq!(trim_brackets(b"[1]", false), (0, 3));
    assert_eq!(trim_brackets(b"[1]", true), (1, 2));
}

#[test]
fn a_machine_is_a_line_of_words() {
    let m = Machine::from("[.##.] (3) (1,3) (2) (2,3) (0,2) (0,1) {3,5,4,7}").unwrap();
    assert_eq!(m.goal, 0b0110);
    assert_eq!(
        m.button_group,
        vec![vec![3], vec![1, 3], vec![2], vec![2, 3], vec![0, 2], vec![0, 1]]
    );
    assert_eq!(m.joltages, vec![3, 5, 4, 7]);
    assert_eq!(m.fewest_presses(), 2);
}

#[test]
fn a_machine_with_white_space_around_its_words() {
    let m = Machine::from("  [#.]\t(0)   {1,2} \n").unwrap();
    assert_eq!(m.goal, 1);
    assert_eq!(m.button_group, vec![vec![0]]);
    assert_eq!(m.joltages, vec![1, 2]);
    let bare = Machine::from("[.#] {7}").unwrap();
    assert_eq!(bare.goal, 2);
    assert!(bare.button_group.is_empty());
    assert_eq!(bare.joltages, vec![7]);
}

#[test]
fn a_line_that_is_no_machine() {
    assert!(Machine::from("").is_none());
    assert!(Machine::from("   ").is_none());
    assert!(Machine::from("[.##.]").is_none());
    assert!(Machine::from("[.##.] (1,x) {1}").is_none());
    assert!(Machine::from("[.##.] (1) {}").is_none());
    assert!(Machine::from("[.##.] (1) [2]").is_none());
}

#[test]
fn words_and_lists() {
    let text = b" ab  (1,2)\t{3} ";
    assert_eq!(skip_space_bytes(text, 0), 1);
    assert_eq!(skip_space_bytes(text, 1), 1);
    assert_eq!(word_end_bytes(text, 1), 3);
    assert_eq!(skip_space_bytes(text, 3), 5);
    assert_eq!(word_end_bytes(text, 5), 10);
    let mut lists: Vec<Vec<usize>> = vec![vec![9]];
    assert!(collect_lists(text, 3, &mut lists));
    assert_eq!(lists, vec![vec![9], vec![1, 2], vec![3]]);
    let mut none: Vec<Vec<usize>> = Vec::new();
    assert!(!collect_lists(text, 0, &mut none));
    assert!(collect_lists(text, text.len(), &mut none));
}
