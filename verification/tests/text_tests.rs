use gptube::text::trim_line;

#[test]
fn trim_removes_surrounding_whitespace() {
    assert_eq!(trim_line("  a b \t\r\n"), "a b");
    assert_eq!(trim_line("y\n"), "y");
    assert_eq!(trim_line("no-edges"), "no-edges");
}

#[test]
fn trim_keeps_inner_whitespace() {
    assert_eq!(trim_line(" a  b "), "a  b");
}

#[test]
fn trim_of_blank_input_is_empty() {
    assert_eq!(trim_line(""), "");
    assert_eq!(trim_line(" \t\r\n"), "");
}
