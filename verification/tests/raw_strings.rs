use kanata_mapping_viewer_core::display;
use kanata_mapping_viewer_core::render::keyboard;

#[test]
fn display_unicode_plain() {
    assert_eq!(display::extract_raw_string_content(">"), ">");
}

#[test]
fn display_unicode_raw_string() {
    assert_eq!(display::extract_raw_string_content("r#\"\"\"#"), "\"");
}

#[test]
fn keyboard_unicode_plain() {
    assert_eq!(keyboard::extract_raw_string_content(">"), ">");
}

#[test]
fn keyboard_unicode_raw_string() {
    assert_eq!(keyboard::extract_raw_string_content("r#\"\"\"#"), "\"");
}

#[test]
fn raw_string_content_plain_quotes() {
    assert_eq!(display::extract_raw_string_content("  \"é\"  "), "é");
}

#[test]
fn raw_string_content_two_hashes() {
    assert_eq!(display::extract_raw_string_content("r##\"a\"#b\"##"), "a\"#b");
}

#[test]
fn raw_string_content_unbalanced_left_as_is() {
    assert_eq!(display::extract_raw_string_content("r#\"abc\""), "r#\"abc\"");
}
