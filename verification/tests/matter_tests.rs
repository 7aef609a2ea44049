use zk::error::Error;
use zk::matter::Matter;

fn cases() -> Vec<(Matter, &'static str)> {
    vec![
        (
            Matter {
                name: "a".to_owned(),
                tags: vec![String::from("code"), String::from("software")],
                links: vec![String::from("b"), String::from("c")],
            },
            "---\nname: a\ntags:\n  - code\n  - software\nlinks:\n  - b\n  - c\n---\n",
        ),
        (
            Matter {
                name: "b".to_owned(),
                tags: vec![],
                links: vec![String::from("b"), String::from("c")],
            },
            "---\nname: b\ntags: []\nlinks:\n  - b\n  - c\n---\n",
        ),
        (
            Matter {
                name: "c".to_owned(),
                tags: vec![String::from("code"), String::from("software")],
                links: vec![],
            },
            "---\nname: c\ntags:\n  - code\n  - software\nlinks: []\n---\n",
        ),
        (
            Matter { name: "d".to_owned(), tags: vec![], links: vec![] },
            "---\nname: d\ntags: []\nlinks: []\n---\n",
        ),
    ]
}

#[test]
fn serialize() {
    for (have, want) in cases() {
        assert_eq!(have.serialize(), want);
    }
}

#[test]
fn deserialize() {
    for (want, have) in cases() {
        assert_eq!(Matter::parse(have).unwrap(), want);
    }
}

#[test]
fn serialize_parse_roundtrip() {
    let samples = vec![
        Matter { name: String::new(), tags: vec![], links: vec![] },
        Matter {
            name: "with - dash: and [brackets]".to_owned(),
            tags: vec![String::from(""), String::from("  x")],
            links: vec![String::from("1-a.md")],
        },
        Matter {
            name: "tags:".to_owned(),
            tags: vec![String::from("- tricky")],
            links: vec![String::from("---")],
        },
    ];
    for m in samples {
        let text = m.serialize();
        assert_eq!(Matter::parse(&text).unwrap(), m);
    }
}

#[test]
fn parse_minimal_block() {
    let m = Matter::parse("---\nname: recipe\n---\n").unwrap();
    assert_eq!(m.name, "recipe");
    assert!(m.tags.is_empty());
    assert!(m.links.is_empty());
}

#[test]
fn parse_accepts_mixed_section_forms() {
    let m = Matter::parse("---\nname: a\ntags: []\n---\n").unwrap();
    assert_eq!(m.name, "a");
    assert!(m.tags.is_empty());
    assert!(m.links.is_empty());

    let m = Matter::parse("---\nname: a\ntags:\n---\n").unwrap();
    assert!(m.tags.is_empty());

    let m = Matter::parse("---\nname: a\nlinks:\n  - b\n---\n").unwrap();
    assert!(m.tags.is_empty());
    assert_eq!(m.links, vec![String::from("b")]);

    let m = Matter::parse("---\nname: a\nlinks: []\n---\n").unwrap();
    assert!(m.tags.is_empty());
    assert!(m.links.is_empty());
}

#[test]
fn parse_rejects_malformed() {
    let bad = vec![
        "",
        "---\nname: a\n",
        "name: a\n",
        "---\nname: a\n--\n",
        "---\ntags: []\n---\n",
        "---\nname: a\ntags: []\nlinks: []\n---",
        "---\nname: a\nextra: b\n---\n",
    ];
    for text in bad {
        let r = Matter::parse(text);
        assert!(matches!(r, Err(Error::Frontmatter)), "accepted: {:?}", text);
    }
}

#[test]
fn default_is_minimal() {
    assert_eq!(Matter::default("recipe"), "---\nname: recipe\n---\n");
}
