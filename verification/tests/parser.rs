use keysig::parser::PositionStringParser;
use keysig::positions::Positions;

const END_WORD: i32 = -1;
const BAD_VALUE: i32 = -3;
const EOS: i32 = -2;

fn parser_for(s: &str) -> PositionStringParser {
    PositionStringParser::new(s.as_bytes().to_vec(), 1, 10, END_WORD, BAD_VALUE, EOS)
}

#[test]
fn list_and_range() {
    let mut p = parser_for("1,2,4,6-8");
    assert_eq!(p.nextPosition(), 1);
    assert_eq!(p.nextPosition(), 2);
    assert_eq!(p.nextPosition(), 4);
    assert_eq!(p.nextPosition(), 6);
    assert_eq!(p.nextPosition(), 7);
    assert_eq!(p.nextPosition(), 8);
    assert_eq!(p.nextPosition(), EOS);
    assert_eq!(p.nextPosition(), EOS);
}

#[test]
fn dollar_yields_end_word_marker() {
    let mut p = parser_for("$");
    assert_eq!(p.nextPosition(), END_WORD);
    assert_eq!(p.nextPosition(), EOS);
}

#[test]
fn dollar_among_positions() {
    let mut p = parser_for("$,1,2");
    assert_eq!(p.nextPosition(), END_WORD);
    assert_eq!(p.nextPosition(), 1);
    assert_eq!(p.nextPosition(), 2);
    assert_eq!(p.nextPosition(), EOS);
}

#[test]
fn inverted_range_is_an_error() {
    let mut p = parser_for("3-2");
    assert_eq!(p.nextPosition(), BAD_VALUE);
    assert_eq!(p.nextPosition(), BAD_VALUE);
}

#[test]
fn star_bypasses_the_parser() {
    // `*` is handled by the option layer through set_useall, never parsed.
    let mut p = Positions::default();
    p.set_useall(true);
    assert!(p.is_useall());
}

#[test]
fn value_above_bounds_is_an_error() {
    let mut p = parser_for("11");
    assert_eq!(p.nextPosition(), BAD_VALUE);
}

#[test]
fn value_below_bounds_is_an_error() {
    let mut p = parser_for("0");
    assert_eq!(p.nextPosition(), BAD_VALUE);
}

#[test]
fn range_upper_bound_checked() {
    let mut p = parser_for("2-11");
    assert_eq!(p.nextPosition(), BAD_VALUE);
}

#[test]
fn huge_number_is_an_error() {
    let mut p = parser_for("99999999999999999999");
    assert_eq!(p.nextPosition(), BAD_VALUE);
}

#[test]
fn stray_character_is_an_error() {
    let mut p = parser_for("1,x");
    assert_eq!(p.nextPosition(), 1);
    assert_eq!(p.nextPosition(), BAD_VALUE);
}

#[test]
fn empty_input_is_end() {
    let mut p = parser_for("");
    assert_eq!(p.nextPosition(), EOS);
}

#[test]
fn tokens_after_a_range() {
    let mut p = parser_for("6-8,2");
    assert_eq!(p.nextPosition(), 6);
    assert_eq!(p.nextPosition(), 7);
    assert_eq!(p.nextPosition(), 8);
    assert_eq!(p.nextPosition(), 2);
    assert_eq!(p.nextPosition(), EOS);
}
