use cutr::extract::{extract_bytes, extract_chars};

#[test]
fn chars_skip_out_of_range_positions() {
    assert_eq!(extract_chars("ab", &[0, 5, 1]), "ab");
}

#[test]
fn chars_follow_selection_order_and_repeats() {
    assert_eq!(extract_chars("hello", &[4, 0, 0]), "ohh");
    assert_eq!(extract_chars("hello", &[1, 1, 1]), "eee");
}

#[test]
fn chars_on_empty_line_yield_empty_output() {
    assert_eq!(extract_chars("", &[0, 1, 2]), "");
    assert_eq!(extract_bytes("", &[0, 1, 2]), "");
}

#[test]
fn bytes_follow_selection_order() {
    assert_eq!(extract_bytes("hello", &[4, 0]), "oh");
    assert_eq!(extract_bytes("hello", &[0, 9, 1]), "he");
}

#[test]
fn byte_and_char_modes_diverge_on_multibyte() {
    // Two copies of a 2-byte character: the second sits at byte offsets
    // {2, 3} but at character offset {1}.
    let line = "\u{e9}\u{e9}";
    assert_eq!(extract_chars(line, &[1]), "\u{e9}");
    assert_eq!(extract_bytes(line, &[2]), "\u{fffd}");
    assert_eq!(extract_bytes(line, &[2, 3]), "\u{e9}");
}

#[test]
fn extraction_is_idempotent() {
    let line = "caf\u{e9} au lait";
    let pos = [3usize, 0, 7, 3, 42];
    assert_eq!(extract_chars(line, &pos), extract_chars(line, &pos));
    assert_eq!(extract_bytes(line, &pos), extract_bytes(line, &pos));
}
