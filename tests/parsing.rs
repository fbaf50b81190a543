use dndtools::{DiceToRoll, Die, ParseError};

fn parse(s: &str) -> Result<DiceToRoll, ParseError> {
    DiceToRoll::from_string(s.to_string())
}

#[test]
fn parse_two_d_six() {
    assert_eq!(parse("2d6"), Ok(DiceToRoll::new(2, Die::D6)));
}

#[test]
fn parse_without_count_is_one_die() {
    assert_eq!(parse("d20"), Ok(DiceToRoll::new(1, Die::D20)));
    assert_eq!(parse("d4"), Ok(DiceToRoll::new(1, Die::D4)));
}

#[test]
fn parse_every_supported_die() {
    assert_eq!(parse("3d4"), Ok(DiceToRoll::new(3, Die::D4)));
    assert_eq!(parse("3d6"), Ok(DiceToRoll::new(3, Die::D6)));
    assert_eq!(parse("3d8"), Ok(DiceToRoll::new(3, Die::D8)));
    assert_eq!(parse("3d10"), Ok(DiceToRoll::new(3, Die::D10)));
    assert_eq!(parse("3d12"), Ok(DiceToRoll::new(3, Die::D12)));
    assert_eq!(parse("3d20"), Ok(DiceToRoll::new(3, Die::D20)));
    assert_eq!(parse("3d100"), Ok(DiceToRoll::new(3, Die::D100)));
}

#[test]
fn parse_upper_case_separator() {
    assert_eq!(parse("4D8"), Ok(DiceToRoll::new(4, Die::D8)));
    assert_eq!(parse("D12"), Ok(DiceToRoll::new(1, Die::D12)));
}

#[test]
fn parse_zero_and_large_counts() {
    assert_eq!(parse("0d6"), Ok(DiceToRoll::new(0, Die::D6)));
    assert_eq!(parse("007d10"), Ok(DiceToRoll::new(7, Die::D10)));
    assert_eq!(parse("4294967295d4"), Ok(DiceToRoll::new(4294967295, Die::D4)));
    assert_eq!(parse("4294967296d4"), Err(ParseError::InvalidCount));
}

#[test]
fn parse_plus_sign_is_read_as_by_integer_parsing() {
    assert_eq!(parse("+2d6"), Ok(DiceToRoll::new(2, Die::D6)));
    assert_eq!(parse("2d+6"), Ok(DiceToRoll::new(2, Die::D6)));
    assert_eq!(parse("+d6"), Err(ParseError::InvalidCount));
    assert_eq!(parse("2d+"), Err(ParseError::InvalidSize));
}

#[test]
fn parse_unsupported_die() {
    assert_eq!(parse("1d7"), Err(ParseError::UnsupportedDie));
    assert_eq!(parse("1d0"), Err(ParseError::UnsupportedDie));
    assert_eq!(parse("d3"), Err(ParseError::UnsupportedDie));
    assert_eq!(parse("2d1000"), Err(ParseError::UnsupportedDie));
}

#[test]
fn parse_invalid_count() {
    assert_eq!(parse("xd6"), Err(ParseError::InvalidCount));
    assert_eq!(parse("2 d6"), Err(ParseError::InvalidCount));
    assert_eq!(parse("-1d6"), Err(ParseError::InvalidCount));
    assert_eq!(parse(""), Err(ParseError::InvalidCount));
    assert_eq!(parse("x"), Err(ParseError::InvalidCount));
}

#[test]
fn parse_invalid_size() {
    assert_eq!(parse("2dZ"), Err(ParseError::InvalidSize));
    assert_eq!(parse("2d"), Err(ParseError::InvalidSize));
    assert_eq!(parse("d"), Err(ParseError::InvalidSize));
    assert_eq!(parse("6"), Err(ParseError::InvalidSize));
    assert_eq!(parse("2d6d"), Err(ParseError::InvalidSize));
    assert_eq!(parse("2d 6"), Err(ParseError::InvalidSize));
    assert_eq!(parse("1d4294967296"), Err(ParseError::InvalidSize));
}

#[test]
fn parse_checks_count_before_size() {
    assert_eq!(parse("xdZ"), Err(ParseError::InvalidCount));
    assert_eq!(parse("xd7"), Err(ParseError::InvalidCount));
    assert_eq!(parse("2dx7"), Err(ParseError::InvalidSize));
}

#[test]
fn die_sides_round_trip() {
    let all = [Die::D4, Die::D6, Die::D8, Die::D10, Die::D12, Die::D20, Die::D100];
    let sides = [4u32, 6, 8, 10, 12, 20, 100];
    for i in 0..7 {
        assert_eq!(all[i].sides(), sides[i]);
        assert_eq!(Die::from_sides(sides[i]), Some(all[i]));
    }
    assert_eq!(Die::from_sides(7), None);
    assert_eq!(Die::from_sides(0), None);
}
