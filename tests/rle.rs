use gol_core::rle::{decode_rle, infer_dims_from_rle, next_token, parse_rle, parse_u32_trim, RleError};
use gol_core::text::chars_of;

fn glider() -> Vec<bool> {
    vec![
        false, true, false, //
        false, false, true, //
        true, true, true, //
    ]
}

#[test]
fn utils_test_glider() {
    let glider_text = "x = 3, y = 3\nbob$2bo$3o!";
    let (cells, width, height) = parse_rle(glider_text).unwrap();
    assert_eq!(width, 3);
    assert_eq!(height, 3);
    assert_eq!(cells, glider());
}

#[test]
fn read_rle_my_very_first_test_glider() {
    let glider_text = "x = 3, y = 3\nbob$2bo$3o!";
    let (cells, width, height) = parse_rle(glider_text).unwrap();
    assert_eq!(width, 3);
    assert_eq!(height, 3);
    assert_eq!(cells, glider());
}

#[test]
fn header_with_comments_rule_and_split_data_lines() {
    let text = "#N Glider\n#C Classic 3x3 glider\nx = 3, y = 3, rule = B3/S23\nbo\nb$2bo$\n3o!\n";
    let (cells, w, h) = parse_rle(text).unwrap();
    assert_eq!((w, h), (3, 3));
    assert_eq!(cells, glider());
}

#[test]
fn header_without_spaces_and_crlf_lines() {
    let text = "x=3,y=3\r\nbob$2bo$3o!\r\n";
    let (cells, w, h) = parse_rle(text).unwrap();
    assert_eq!((w, h), (3, 3));
    assert_eq!(cells, glider());
}

#[test]
fn header_dimensions_are_kept_when_data_is_shorter() {
    let (cells, w, h) = parse_rle("x = 4, y = 2\no!").unwrap();
    assert_eq!((w, h), (4, 2));
    assert_eq!(cells.len(), 8);
    assert_eq!(cells, vec![true, false, false, false, false, false, false, false]);
}

#[test]
fn runs_and_row_skips() {
    let (cells, w, h) = parse_rle("x = 5, y = 3\n5o$4bo$o4b!").unwrap();
    assert_eq!((w, h), (5, 3));
    let expected = vec![
        true, true, true, true, true, //
        false, false, false, false, true, //
        true, false, false, false, false, //
    ];
    assert_eq!(cells, expected);
}

#[test]
fn multi_row_skip_and_clipping() {
    // "2$" skips two rows; the run of 4 is clipped at the width of 3.
    let (cells, w, h) = parse_rle("x = 3, y = 3\no2$4o!").unwrap();
    assert_eq!((w, h), (3, 3));
    assert_eq!(cells, vec![true, false, false, false, false, false, true, true, true]);
}

#[test]
fn headerless_payload_infers_dimensions() {
    let (cells, w, h) = parse_rle(".b.$..o$ooo!").unwrap();
    assert_eq!((w, h), (3, 3));
    // '.' is not a cell symbol, so only b, o and $ place cells.
    assert_eq!(cells, vec![false, false, false, true, false, false, true, true, true]);
}

#[test]
fn headerless_glider_decodes_like_the_headed_one() {
    let (cells, w, h) = parse_rle("bob$2bo$3o!").unwrap();
    assert_eq!((w, h), (3, 3));
    assert_eq!(cells, glider());
}

#[test]
fn no_data_is_an_error() {
    assert_eq!(parse_rle("#C only a comment\nx = 3, y = 3\n\n"), Err(RleError::NoData));
    assert_eq!(parse_rle(""), Err(RleError::NoData));
}

#[test]
fn bad_header_number_is_an_error() {
    assert_eq!(parse_rle("x = abc, y = 3\nbo!"), Err(RleError::InvalidNumber));
    assert_eq!(parse_rle("x = 99999999999, y = 3\nbo!"), Err(RleError::InvalidNumber));
}

#[test]
fn unresolvable_dimensions_is_an_error() {
    assert_eq!(parse_rle("!"), Err(RleError::UnknownDimensions));
    assert_eq!(parse_rle("$$!"), Err(RleError::UnknownDimensions));
}

#[test]
fn oversized_inferred_dimensions_are_an_error() {
    assert_eq!(parse_rle("99999999999b!"), Err(RleError::TooLarge));
}

#[test]
fn uppercase_header_falls_back_to_inference() {
    // "X = 9" does not set the width (only a lower-case field name does).
    let (cells, w, h) = parse_rle("X = 9, Y = 9\n2o!").unwrap();
    assert_eq!((w, h), (2, 1));
    assert_eq!(cells, vec![true, true]);
}

#[test]
fn tokens_carry_counts_and_skip_whitespace() {
    let chars = chars_of("12o 3 b\t$!");
    let mut pos = 0usize;
    assert_eq!(next_token(&chars, &mut pos), Some((12, 'o')));
    assert_eq!(pos, 3);
    // the count before whitespace is dropped
    assert_eq!(next_token(&chars, &mut pos), Some((1, 'b')));
    assert_eq!(next_token(&chars, &mut pos), Some((1, '$')));
    assert_eq!(next_token(&chars, &mut pos), Some((1, '!')));
    assert_eq!(next_token(&chars, &mut pos), None);
    let zero = chars_of("0o");
    let mut p = 0usize;
    assert_eq!(next_token(&zero, &mut p), Some((1, 'o')));
}

#[test]
fn inference_counts_an_unterminated_last_row() {
    assert_eq!(infer_dims_from_rle(&chars_of("3o$o")), Some((3, 2)));
    assert_eq!(infer_dims_from_rle(&chars_of("2b$3$")), Some((2, 4)));
    assert_eq!(infer_dims_from_rle(&chars_of("")), None);
}

#[test]
fn decode_stops_at_the_terminator() {
    let cells = decode_rle(&chars_of("o!o"), 2, 1);
    assert_eq!(cells, vec![true, false]);
}

#[test]
fn header_value_parsing() {
    let c = chars_of(" = 42 ");
    assert_eq!(parse_u32_trim(&c, 0, c.len()), Some(42));
    let c = chars_of("==+7");
    assert_eq!(parse_u32_trim(&c, 0, c.len()), Some(7));
    let c = chars_of("4294967296");
    assert_eq!(parse_u32_trim(&c, 0, c.len()), None);
    let c = chars_of("-1");
    assert_eq!(parse_u32_trim(&c, 0, c.len()), None);
    let c = chars_of("");
    assert_eq!(parse_u32_trim(&c, 0, c.len()), None);
}
