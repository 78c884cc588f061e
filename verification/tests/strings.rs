use track::string_ext::StringExt;

#[test]
fn pad_start_prepends_the_padding() {
    assert_eq!(String::from("ab").pad_start(3, None), "   ab");
    assert_eq!(String::from("ab").pad_start(2, Some('0')), "00ab");
    assert_eq!(String::from("ab").pad_start(0, Some('0')), "ab");
}

#[test]
fn pad_end_appends_the_padding() {
    assert_eq!(String::from("ab").pad_end(3, None), "ab   ");
    assert_eq!(String::from("ab").pad_end(2, Some('.')), "ab..");
    assert_eq!(String::from("").pad_end(2, Some('.')), "..");
}

#[test]
fn pad_start_to_length_reaches_the_target() {
    assert_eq!(String::from("7").pad_start_to_length(3, Some('0')), "007");
    assert_eq!(String::from("abc").pad_start_to_length(3, Some('0')), "abc");
    assert_eq!(String::from("abcd").pad_start_to_length(3, None), "abcd");
}

#[test]
fn pad_end_to_length_reaches_the_target() {
    assert_eq!(String::from("7").pad_end_to_length(3, Some(' ')), "7  ");
    assert_eq!(String::from("abc").pad_end_to_length(3, Some(' ')), "abc");
    assert_eq!(String::from("abcd").pad_end_to_length(2, None), "abcd");
}
