use devtriage::text::is_whitespace;

#[test]
fn white_space_agrees_with_the_standard_library_on_every_char() {
    for c in '\0'..=char::MAX {
        assert_eq!(is_whitespace(c), c.is_whitespace(), "{:?}", c);
    }
}
