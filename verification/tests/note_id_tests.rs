use zk::note_id::NoteId;

#[test]
fn parse() {
    let cases = vec![
        ("a-b", "a", "b"),
        ("a-b.md", "a", "b"),
        ("a-", "a", ""),
        ("a", "a", ""),
        ("a.md", "a", ""),
        ("a-b-c.md", "a", "b-c"),
        ("a.b-c-d.md", "a.b", "c-d"),
        ("a b.md", "a", "b"),
        ("a b c.md", "a", "b c"),
        ("", "", ""),
    ];

    for case in cases {
        let (test, prefix, name) = case;
        let id = NoteId::parse(test).unwrap();
        assert_eq!(id.prefix, prefix);
        assert_eq!(id.name, name);
    }
}

#[test]
fn parse_no_separator_boundary() {
    let id = NoteId::parse("abc123.md").unwrap();
    assert_eq!(id.prefix, "abc123");
    assert_eq!(id.name, "");
    assert_eq!(id.extension, "md");
}

#[test]
fn parse_extension() {
    let id = NoteId::parse("1700000000-recipe.md").unwrap();
    assert_eq!(id.prefix, "1700000000");
    assert_eq!(id.name, "recipe");
    assert_eq!(id.extension, "md");
}

#[test]
fn format_roundtrip() {
    let cases = vec![
        ("123", "b", "md"),
        ("1700000000", "x-y", "md"),
        ("9", "a b", "md"),
        ("42", "n.a", "md"),
        ("7", "", "md"),
    ];
    for (prefix, name, extension) in cases {
        let id = NoteId {
            prefix: prefix.to_owned(),
            name: name.to_owned(),
            extension: extension.to_owned(),
        };
        let formatted = id.format();
        let back = NoteId::parse(&formatted).unwrap();
        assert_eq!(back, id);
    }
}

#[test]
fn format_shape() {
    let id = NoteId {
        prefix: "123".to_owned(),
        name: "b".to_owned(),
        extension: "md".to_owned(),
    };
    assert_eq!(id.format(), "123-b.md");
}

#[test]
fn fresh_id_is_timestamped() {
    let id = NoteId::new("b");
    assert_eq!(id.name, "b");
    assert_eq!(id.extension, "md");
    assert!(!id.prefix.is_empty());
    assert!(id.prefix.chars().all(|c| c.is_ascii_digit()));
    assert!(id.format().ends_with("-b.md"));
}
