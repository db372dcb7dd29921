use chomp_board::text::{parse_number, parse_turn};
use chomp_board::{BoardSize, Position};

#[test]
fn numbers_are_read_as_std_reads_them() {
    for text in [
        "0", "1", "9", "10", "12", "99", "100", "255", "256", "999", "007", "0000255", "0000256",
        "+7", "+", "++7", "-1", "-0", "", " 1", "1 ", "1a", "a", "1_0", "٣", "2٣",
        "99999999999999999999999999",
    ] {
        assert_eq!(parse_number(text), text.parse::<u8>().ok());
    }
}

#[test]
fn every_number_reads_back_from_its_text() {
    for n in 0..=255u8 {
        let text = Position('a', n).to_text();
        assert_eq!(text, format!("(a, {})", n));
        assert_eq!(parse_number(&format!("{}", n)), Some(n));
    }
}

#[test]
fn board_size_is_read_from_two_numbers() {
    assert_eq!(BoardSize::parse("3", "4"), Some(BoardSize(3, 4)));
    assert_eq!(BoardSize::parse("0", "200"), Some(BoardSize(0, 200)));
    assert_eq!(BoardSize::parse("3", "x"), None);
    assert_eq!(BoardSize::parse("", "4"), None);
    assert_eq!(BoardSize::parse("300", "4"), None);
}

#[test]
fn position_is_read_in_either_case() {
    assert_eq!(Position::parse("b", "2"), Some(Position('b', 2)));
    assert_eq!(Position::parse("B", "2"), Some(Position('b', 2)));
    assert_eq!(Position::parse("Cd", "12"), Some(Position('c', 12)));
    assert_eq!(Position::parse("É", "1"), Some(Position('é', 1)));
    assert_eq!(Position::parse("", "2"), None);
    assert_eq!(Position::parse("b", "two"), None);
}

#[test]
fn position_from_text_keeps_the_case() {
    assert_eq!(Position::from_text("B", "2"), Some(Position('B', 2)));
    assert_eq!(Position::from_text("b", "+2"), Some(Position('b', 2)));
    assert_eq!(Position::from_text("", "2"), None);
    assert_eq!(Position::from_text("b", ""), None);
}

#[test]
fn turn_is_read_from_a_chomp_command() {
    assert_eq!(parse_turn(b"chomp b 2\n"), Some(Position('b', 2)));
    assert_eq!(parse_turn(b"chomp B 2\n"), Some(Position('b', 2)));
    assert_eq!(parse_turn(b"chompa1"), Some(Position('a', 1)));
    assert_eq!(parse_turn(b"  c h o m p  j 9 and more"), Some(Position('j', 9)));
    assert_eq!(parse_turn(b"chomp c 12\n"), Some(Position('c', 1)));
    assert_eq!(parse_turn(b"chomp 3 0\n"), Some(Position('3', 0)));
}

#[test]
fn turn_with_another_command_takes_the_poison_square() {
    assert_eq!(parse_turn(b"hello world\n"), Some(Position('a', 1)));
    assert_eq!(parse_turn(b"CHOMP b 2\n"), Some(Position('a', 1)));
    assert_eq!(parse_turn(b"bite!x"), Some(Position('a', 1)));
}

#[test]
fn turn_that_cannot_be_cut_is_refused() {
    assert_eq!(parse_turn(b""), None);
    assert_eq!(parse_turn(b"chomp"), None);
    assert_eq!(parse_turn(b"chomp     "), None);
    assert_eq!(parse_turn(b"bite"), None);
    assert_eq!(parse_turn(b"chompb"), None);
    assert_eq!(parse_turn(b"chomp b x\n"), None);
    assert_eq!(parse_turn(b"chomp b +\n"), None);
    assert_eq!(parse_turn("chomp é 2\n".as_bytes()), None);
    assert_eq!(parse_turn("chomp b é\n".as_bytes()), None);
    assert_eq!(parse_turn("chomp b 2é\n".as_bytes()), Some(Position('b', 2)));
    assert_eq!(parse_turn("chomé b 2\n".as_bytes()), None);
    assert_eq!(parse_turn("bite! b é\n".as_bytes()), None);
}

#[test]
fn text_of_a_position() {
    assert_eq!(Position('a', 1).to_text(), "(a, 1)");
    assert_eq!(Position('j', 10).to_text(), "(j, 10)");
    assert_eq!(Position('Z', 255).to_text(), "(Z, 255)");
    assert_eq!(Position('é', 0).to_text(), "(é, 0)");
    assert_eq!(Position('c', 100).to_text(), "(c, 100)");
}

#[test]
fn text_of_a_board_size() {
    assert_eq!(BoardSize(4, 5).to_text(), "Board Size: 4 x 5");
    assert_eq!(BoardSize(0, 255).to_text(), "Board Size: 0 x 255");
    assert_eq!(BoardSize(120, 10).to_text(), "Board Size: 120 x 10");
}
