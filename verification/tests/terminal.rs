use bitruler::terminal::display_width;

#[test]
fn display_width_counts_rendered_columns() {
    assert_eq!(display_width("abc"), 3);
    assert_eq!(display_width("┌─ 16"), 5);
    assert_eq!(display_width("\x1b[1m0\x1b[0m"), 1);
}

#[test]
fn display_width_ignores_multiple_ansi_sequences() {
    assert_eq!(display_width("\x1b[31mab\x1b[0m\x1b[1mcd\x1b[0m"), 4);
}

#[test]
fn display_width_of_an_unterminated_escape_is_zero() {
    assert_eq!(display_width("\x1b[31"), 0);
    assert_eq!(display_width(""), 0);
}
