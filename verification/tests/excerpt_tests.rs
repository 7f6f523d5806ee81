use conf_lang::excerpt::error_excerpt;
use conf_lang::lexer::Loc;

fn at(row: usize, col: usize) -> Loc {
    Loc { pos: 0, row, col, byte_pos: 0 }
}

#[test]
fn excerpt_shows_the_line_and_a_caret() {
    assert_eq!(error_excerpt("a b\ncd ef\n", at(2, 4)), Some("cd ef\n   ^".to_string()));
}

#[test]
fn excerpt_drops_a_carriage_return_before_the_line_feed() {
    assert_eq!(error_excerpt("x\r\ny\r\n", at(1, 1)), Some("x\n^".to_string()));
}

#[test]
fn excerpt_of_a_missing_line_is_none() {
    assert_eq!(error_excerpt("a\n", at(2, 1)), None);
    assert_eq!(error_excerpt("", at(1, 1)), None);
}

#[test]
fn excerpt_of_row_zero_is_the_first_line() {
    assert_eq!(error_excerpt("first\nsecond", at(0, 0)), Some("first\n^".to_string()));
}

#[test]
fn excerpt_of_an_empty_line() {
    assert_eq!(error_excerpt("a\n\nb", at(2, 1)), Some("\n^".to_string()));
}
