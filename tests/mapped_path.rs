use warpalib::MappedPath;

#[test]
fn should_parse_entry_with_value_from_target() {
    let entry = "left/path=right/path".parse::<MappedPath>().unwrap();
    let expected = MappedPath {
        key: String::from("left/path"),
        value: Some(String::from("right/path")),
    };

    assert_eq!(entry, expected);
}

#[test]
fn should_parse_entry_from_string() {
    let entry = "only/path".parse::<MappedPath>().unwrap();
    let expected = MappedPath {
        key: String::from("only/path"),
        value: None,
    };

    assert_eq!(entry, expected);
}

#[test]
fn mapped_path_splits_at_first_equals() {
    let entry = MappedPath::parse("a=b=c");
    assert_eq!(entry.key, "a");
    assert_eq!(entry.value, Some(String::from("b=c")));
    assert_eq!(entry.to_text(), "a=b=c");
    let (archive_path, file_path) = MappedPath::parse("x/y").into_pair();
    assert_eq!(archive_path, "x/y");
    assert_eq!(file_path, "x/y");
}
