use board_placement::slug::{conv, slugfy};

#[test]
fn conv_accented_letter() {
    assert_eq!(conv('è'), 'e');
}

#[test]
fn conv_not_accente_letter() {
    assert_eq!(conv('è'), 'e');
}

#[test]
fn conv_unknown_letter() {
    assert_eq!(conv('漢'), '-');
}

#[test]
fn conv_uknown_eccented_letter() {
    assert_eq!(conv('ῶ'), '-');
}

#[test]
fn conv_multiple_words_string() {
    assert_eq!(slugfy("ciao come va"), "ciao-come-va");
}

#[test]
fn conv_accented_string() {
    assert_eq!(slugfy("lllàlll"), "lllalll");
}

#[test]
fn conv_empty_string() {
    assert_eq!(slugfy(""), "");
}

#[test]
fn conv_consecutive_spaces_string() {
    assert_eq!(slugfy("ciao   bre"), "ciao-bre");
}

#[test]
fn conv_more_unknown_chars_string() {
    assert_eq!(slugfy("漢漢漢 hdsbfhb èhbdì"), "-hdsbfhb-ehbdi");
}

#[test]
fn conv_only_unknown_chars_string() {
    assert_eq!(slugfy("漢漢漢"), "-");
}

#[test]
fn conv_end_space_string() {
    assert_eq!(slugfy("hola "), "hola");
}

#[test]
fn conv_more_unknown_chars_at_the_end_string() {
    assert_eq!(slugfy("ciao漢漢漢"), "ciao");
}

#[test]
fn conv_uppercase_accented_letter_is_lowercased_and_folded() {
    assert_eq!(conv('È'), 'e');
    assert_eq!(conv('A'), 'a');
}

#[test]
fn conv_keeps_ascii_digits() {
    assert_eq!(conv('3'), '3');
}

#[test]
fn conv_rejects_non_alphanumeric_ascii() {
    assert_eq!(conv('?'), '-');
    assert_eq!(conv(' '), '-');
    assert_eq!(conv('$'), '-');
}

#[test]
fn slugfy_single_dash_is_kept() {
    assert_eq!(slugfy("$"), "-");
}
