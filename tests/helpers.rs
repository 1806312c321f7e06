use substring_search::helpers::preprocess_string;

#[test]
fn test_preprocess_substring() {
    let s = "\rThis is a \r\n\r test string.   - Normal Person\n";
    let expected = "This is a test string. - Normal Person";

    assert_eq!(preprocess_string(s), expected);
}

#[test]
fn test_preprocess_newlines_only() {
    let s = "\n\r\r\n\r";
    let expected = String::new();

    assert_eq!(preprocess_string(s), expected);
}

#[test]
fn test_preprocess_spaces_only() {
    let s = "       ";
    let expected = " ";

    assert_eq!(preprocess_string(s), expected);
}

#[test]
fn preprocess_empty_string() {
    assert_eq!(preprocess_string(""), "");
}

#[test]
fn preprocess_keeps_multibyte_characters() {
    assert_eq!(preprocess_string("€  ›\n\n …"), "€ › …");
}

#[test]
fn preprocess_leading_space_is_kept() {
    assert_eq!(preprocess_string("  a\r\n  b  "), " a b ");
}
