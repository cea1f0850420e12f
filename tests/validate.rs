use gol_core::validate::is_valid_rle_content;

#[test]
fn header_with_rule_is_valid() {
    assert!(is_valid_rle_content("x = 3, y = 3, rule = B3/S23\nbob$2bo$3o!"));
}

#[test]
fn header_with_cells_but_no_rule_is_valid() {
    assert!(is_valid_rle_content("  x = 2, y = 1\n2o!  "));
}

#[test]
fn comment_starts_are_valid() {
    assert!(is_valid_rle_content("\n#N Glider\n"));
    assert!(is_valid_rle_content("#C made by hand"));
}

#[test]
fn terminated_text_needs_three_lines() {
    assert!(is_valid_rle_content("2\n3\n4!"));
    assert!(!is_valid_rle_content("2\n3!\n\n\n"));
}

#[test]
fn html_is_not_valid() {
    assert!(!is_valid_rle_content("<html><body>Not found</body></html>"));
    assert!(!is_valid_rle_content(""));
    assert!(!is_valid_rle_content("x=3, y=3\nbo!"));
}
