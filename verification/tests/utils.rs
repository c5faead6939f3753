use splitter::utils::get_values_by_delim;

#[test]
fn test_split_names_handles_leading_comma() {
    assert_eq!(
        get_values_by_delim(String::from(",Anthony,Caroline"), ","),
        vec!["Anthony", "Caroline"]
    );
}

#[test]
fn test_split_names_handles_trailing_comma() {
    assert_eq!(
        get_values_by_delim(String::from("Anthony,Caroline,"), ","),
        vec!["Anthony", "Caroline"]
    );
}

#[test]
fn test_split_names_handles_leading_and_trailing_comma() {
    assert_eq!(
        get_values_by_delim(String::from(",Anthony,Caroline,"), ","),
        vec!["Anthony", "Caroline"]
    );
}

#[test]
fn split_without_delimiter_in_the_text() {
    assert_eq!(get_values_by_delim(String::from("Anthony"), ","), vec!["Anthony"]);
    assert_eq!(get_values_by_delim(String::new(), ","), Vec::<String>::new());
    assert_eq!(get_values_by_delim(String::from(",,,"), ","), Vec::<String>::new());
}

#[test]
fn split_at_a_longer_delimiter() {
    assert_eq!(get_values_by_delim(String::from("a, b,c, d"), ", "), vec!["a", "b,c", "d"]);
    assert_eq!(get_values_by_delim(String::from("aaa"), "aa"), vec!["a"]);
    assert_eq!(get_values_by_delim(String::from("xaaaay"), "aa"), vec!["x", "y"]);
    assert_eq!(get_values_by_delim(String::from("ab"), "abc"), vec!["ab"]);
}

#[test]
fn split_at_the_empty_delimiter() {
    assert_eq!(get_values_by_delim(String::from("abc"), ""), vec!["a", "b", "c"]);
    assert_eq!(get_values_by_delim(String::from("héé"), ""), vec!["h", "é", "é"]);
}

#[test]
fn split_is_what_std_split_gives_without_empty_pieces() {
    let cases = [
        (",Anthony,,Caroline,", ","),
        ("a--b---c", "--"),
        ("ééaébé", "é"),
        ("line one\nline two\n\nline three", "\n"),
        ("abc", ""),
    ];
    for (text, delim) in cases {
        let expected: Vec<String> =
            text.split(delim).filter(|s| !s.is_empty()).map(|s| s.to_string()).collect();
        assert_eq!(get_values_by_delim(text.to_string(), delim), expected, "{text:?} {delim:?}");
    }
}
