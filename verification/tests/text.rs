use whisper_ct2::text::{
    decimal, ends_with_space, has_char, is_white_space, same_text, sole_char,
    starts_with_space, to_lower, trim, trim_start,
};

#[test]
fn white_space_is_that_of_unicode() {
    for code in 0_u32..=0x10ffff {
        if let Some(c) = char::from_u32(code) {
            assert_eq!(is_white_space(c), c.is_whitespace(), "{code:#x}");
        }
    }
}

#[test]
fn trimming_takes_white_space_from_the_ends() {
    for s in ["", " ", " a b ", "\u{3000}ö\u{a0}", "x", "\t\n", "a ", " a"] {
        assert_eq!(trim(s), s.trim());
        assert_eq!(trim_start(s), s.trim_start());
    }
}

#[test]
fn a_sole_character_may_have_white_space_around_it() {
    assert_eq!(sole_char(" ö "), Some('ö'));
    assert_eq!(sole_char("ab"), None);
    assert_eq!(sole_char(" "), None);
}

#[test]
fn spaces_at_the_ends_are_seen() {
    assert!(starts_with_space(" a"));
    assert!(!starts_with_space("\ta"));
    assert!(!starts_with_space(""));
    assert!(ends_with_space("a "));
    assert!(!ends_with_space("a\u{a0}"));
    assert!(!ends_with_space(""));
}

#[test]
fn characters_and_texts_compare() {
    assert!(has_char("aö", 'ö'));
    assert!(!has_char("", 'a'));
    assert!(same_text("aö", "aö"));
    assert!(!same_text("a", "A"));
}

#[test]
fn lower_case_is_that_of_ascii() {
    assert_eq!(to_lower("CUDA_Ä9z"), "CUDA_Ä9z".to_ascii_lowercase());
    assert_eq!(to_lower("@AZ[`az{"), "@az[`az{");
}

#[test]
fn numbers_are_written_in_base_ten() {
    for n in [0_u128, 7, 10, 19, 100, 4_294_967_296, u128::MAX] {
        assert_eq!(decimal(n), n.to_string());
    }
}
