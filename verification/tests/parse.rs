use sudoku_solver::{parse_puzzle, Cell, ParseError};

const EXAMPLE: &str =
    "9.4..5...25.6..1..31......8.7...9...4..26......147....7.......2...3..8.6.4.....9.";

#[test]
fn dots_are_open_cells_and_digits_are_known_cells() {
    let p = parse_puzzle(EXAMPLE).unwrap();
    let chars: Vec<char> = EXAMPLE.chars().collect();
    for i in 0..81 {
        if chars[i] == '.' {
            assert_eq!(p[i], Cell(0b1111111110));
        } else {
            assert_eq!(p[i], Cell::singleton(chars[i].to_digit(10).unwrap() as usize));
        }
    }
    assert_eq!(p[0], Cell(512));
    assert_eq!(p[2], Cell(16));
    assert_eq!(p[9], Cell(4));
    assert_eq!(p[79], Cell(512));
    assert_eq!(p[80], Cell(1022));
}

#[test]
fn each_digit_is_read() {
    let text = "123456789".repeat(9);
    let p = parse_puzzle(&text).unwrap();
    for i in 0..81 {
        assert_eq!(p[i].get_value(), i % 9 + 1);
    }
}

#[test]
fn wrong_length_is_rejected() {
    assert_eq!(parse_puzzle("").err(), Some(ParseError::WrongLength));
    assert_eq!(parse_puzzle(&EXAMPLE[..80]).err(), Some(ParseError::WrongLength));
    assert_eq!(parse_puzzle(&".".repeat(82)).err(), Some(ParseError::WrongLength));
    assert_eq!(parse_puzzle(&format!("{} ", EXAMPLE)).err(), Some(ParseError::WrongLength));
}

#[test]
fn invalid_character_is_rejected() {
    for bad in ['0', 'x', ' ', '-', ':', '/', '_', '\n'] {
        let mut text = String::from(&EXAMPLE[..40]);
        text.push(bad);
        text.push_str(&EXAMPLE[41..]);
        assert_eq!(parse_puzzle(&text).err(), Some(ParseError::InvalidCharacter));
    }
    let first = format!("a{}", &EXAMPLE[1..]);
    assert_eq!(parse_puzzle(&first).err(), Some(ParseError::InvalidCharacter));
    let last = format!("{}0", &EXAMPLE[..80]);
    assert_eq!(parse_puzzle(&last).err(), Some(ParseError::InvalidCharacter));
}

#[test]
fn length_is_checked_before_the_characters() {
    assert_eq!(parse_puzzle("x").err(), Some(ParseError::WrongLength));
    assert_eq!(parse_puzzle(&"0".repeat(80)).err(), Some(ParseError::WrongLength));
}

#[test]
fn length_is_counted_in_characters() {
    // 81 characters, one of them of two bytes
    let text = format!("{}\u{e9}", ".".repeat(80));
    assert_eq!(text.len(), 82);
    assert_eq!(parse_puzzle(&text).err(), Some(ParseError::InvalidCharacter));
    // 81 bytes, 80 characters
    let short = format!("{}\u{e9}", ".".repeat(79));
    assert_eq!(short.len(), 81);
    assert_eq!(parse_puzzle(&short).err(), Some(ParseError::WrongLength));
}
