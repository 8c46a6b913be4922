use recent_registry::codec::serialize_registry;
use recent_registry::entry::RecentFile;
use recent_registry::parse::parse_registry;

fn entry(path: &str, name: &str, last_opened: i64) -> RecentFile {
    RecentFile { path: path.to_string(), name: name.to_string(), last_opened }
}

#[test]
fn serializes_empty_registry_as_empty_array() {
    let files: Vec<RecentFile> = Vec::new();
    assert_eq!(serialize_registry(&files), "[]");
}

#[test]
fn serializes_one_entry_pretty_printed() {
    let files = vec![entry("/a.draw", "A", 5)];
    let expected = "[\n  {\n    \"path\": \"/a.draw\",\n    \"name\": \"A\",\n    \"last_opened\": 5\n  }\n]";
    assert_eq!(serialize_registry(&files), expected);
}

#[test]
fn serializes_two_entries_with_comma_between_objects() {
    let files = vec![entry("/a.draw", "A", 1), entry("/b.draw", "B", 2)];
    let expected = "[\n  {\n    \"path\": \"/a.draw\",\n    \"name\": \"A\",\n    \"last_opened\": 1\n  },\n  {\n    \"path\": \"/b.draw\",\n    \"name\": \"B\",\n    \"last_opened\": 2\n  }\n]";
    assert_eq!(serialize_registry(&files), expected);
}

#[test]
fn escapes_quote_backslash_and_control_characters() {
    let files = vec![entry("/a\"b\\c.draw", "tab\there", 0)];
    let out = serialize_registry(&files);
    assert!(out.contains("\"/a\\\"b\\\\c.draw\""));
    assert!(out.contains("\"tab\\u0009here\""));
}

#[test]
fn round_trips_through_parse() {
    let files = vec![
        entry("/plain.draw", "Plain", 1700000000),
        entry("/esc\"\\\n.draw", "name with spaces", -42),
        entry("/unicode\u{e9}\u{4e16}.draw", "caf\u{e9}", 0),
        entry("/min.draw", "min", i64::MIN),
        entry("/max.draw", "max", i64::MAX),
    ];
    let text = serialize_registry(&files);
    let back = parse_registry(&text).unwrap();
    assert_eq!(back.len(), files.len());
    for (a, b) in files.iter().zip(back.iter()) {
        assert_eq!(a.path, b.path);
        assert_eq!(a.name, b.name);
        assert_eq!(a.last_opened, b.last_opened);
    }
}

#[test]
fn parses_with_flexible_whitespace_and_short_escapes() {
    let text = " [ \n { \"path\" : \"/a.draw\" , \"name\" : \"A\\n\\t\\\"\" , \"last_opened\" : -7 } ] ";
    let files = parse_registry(text).unwrap();
    assert_eq!(files.len(), 1);
    assert_eq!(files[0].path, "/a.draw");
    assert_eq!(files[0].name, "A\n\t\"");
    assert_eq!(files[0].last_opened, -7);
}

#[test]
fn parses_byte_escapes() {
    let text = "[{\"path\":\"\\u0041\\u00e9\",\"name\":\"\\u0007\",\"last_opened\":0}]";
    let files = parse_registry(text).unwrap();
    assert_eq!(files[0].path, "A\u{e9}");
    assert_eq!(files[0].name, "\u{7}");
}

#[test]
fn rejects_malformed_content() {
    assert!(parse_registry("{not json").is_err());
    assert!(parse_registry("").is_err());
    assert!(parse_registry("[").is_err());
    assert!(parse_registry("[]]").is_err());
    assert!(parse_registry("[{}]").is_err());
    assert!(parse_registry("[{\"path\":\"/a\",\"name\":\"A\"}]").is_err());
    assert!(parse_registry("[{\"path\":\"/a\",\"name\":\"A\",\"last_opened\":1},]").is_err());
    assert!(parse_registry("[{\"path\":\"/a\",\"name\":\"A\",\"last_opened\":1} trailing").is_err());
    assert!(parse_registry("[{\"name\":\"A\",\"path\":\"/a\",\"last_opened\":1}]").is_err());
}

#[test]
fn rejects_numbers_outside_i64_range() {
    assert!(parse_registry("[{\"path\":\"/a\",\"name\":\"A\",\"last_opened\":9223372036854775808}]").is_err());
    assert!(parse_registry("[{\"path\":\"/a\",\"name\":\"A\",\"last_opened\":-9223372036854775809}]").is_err());
    let ok = parse_registry("[{\"path\":\"/a\",\"name\":\"A\",\"last_opened\":9223372036854775807}]").unwrap();
    assert_eq!(ok[0].last_opened, i64::MAX);
    let ok = parse_registry("[{\"path\":\"/a\",\"name\":\"A\",\"last_opened\":-9223372036854775808}]").unwrap();
    assert_eq!(ok[0].last_opened, i64::MIN);
}

#[test]
fn rejects_unescaped_control_characters_and_wide_unicode_escapes() {
    assert!(parse_registry("[{\"path\":\"a\nb\",\"name\":\"A\",\"last_opened\":1}]").is_err());
    assert!(parse_registry("[{\"path\":\"\\u1234\",\"name\":\"A\",\"last_opened\":1}]").is_err());
}

#[test]
fn accepts_escaped_characters_inside_keys() {
    let text = "[{\"pat\\u0068\":\"/a.draw\",\"name\":\"A\",\"last_opened\":3}]";
    let files = parse_registry(text).unwrap();
    assert_eq!(files[0].path, "/a.draw");
}

#[test]
fn parses_empty_array_with_whitespace() {
    assert_eq!(parse_registry("  [ \n ]  ").unwrap().len(), 0);
    assert_eq!(parse_registry("[]").unwrap().len(), 0);
}
