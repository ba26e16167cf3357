use maze_wars::names::{is_whitespace, validate_name, NameError, MAX_NAME_CHARS};

#[test]
fn empty_and_oversized_names_are_prompted_again() {
    let oversized = "x".repeat(MAX_NAME_CHARS + 1);
    let source = format!("   \n{oversized}\n alice \n");
    let mut lines = source.lines();

    assert_eq!(validate_name(lines.next().unwrap()), Err(NameError::Empty));
    assert_eq!(validate_name(lines.next().unwrap()), Err(NameError::TooLong));
    assert_eq!(validate_name(lines.next().unwrap()), Ok("alice".to_string()));
}

#[test]
fn a_name_of_exactly_the_limit_is_accepted() {
    let name = "y".repeat(MAX_NAME_CHARS);
    assert_eq!(validate_name(&format!("\t{name}\r\n")), Ok(name));
}

#[test]
fn the_limit_counts_characters_not_bytes() {
    let name = "é".repeat(MAX_NAME_CHARS);
    assert_eq!(validate_name(&name), Ok(name.clone()));
    let longer = "é".repeat(MAX_NAME_CHARS + 1);
    assert_eq!(validate_name(&longer), Err(NameError::TooLong));
}

#[test]
fn inner_spaces_are_kept() {
    assert_eq!(validate_name("  bob the builder "), Ok("bob the builder".to_string()));
}

#[test]
fn unicode_whitespace_is_trimmed_like_str_trim() {
    let line = "\u{3000}\u{a0}zoë\u{2003}\u{85}";
    assert_eq!(validate_name(line), Ok(line.trim().to_string()));
    assert_eq!(validate_name("\u{2028}\u{205f}"), Err(NameError::Empty));
}

#[test]
fn whitespace_matches_char_is_whitespace() {
    for code in 0u32..0x3100 {
        if let Some(c) = char::from_u32(code) {
            assert_eq!(is_whitespace(c), c.is_whitespace(), "U+{code:04X}");
        }
    }
}

#[test]
fn refusals_explain_themselves_as_the_prompt_prints_them() {
    assert_eq!(NameError::Empty.message(), "Name must not be empty.");
    assert_eq!(
        NameError::TooLong.message(),
        format!("Name must be at most {MAX_NAME_CHARS} characters.")
    );
}
