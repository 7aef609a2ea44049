use zk::error::Error;
use zk::matter::Matter;
use zk::note::Note;
use zk::note_id::NoteId;

fn create_note(name: &str) -> Result<Note, Error> {
    Note::create(&NoteId::new(name).format())
}

#[test]
fn add_link() {
    let mut a = create_note("a").unwrap();

    let link = NoteId::new("b").format();

    a.add_link(&link).unwrap();

    assert!(a.has_link(&link));
}

#[test]
fn add_tag() {
    let mut a = create_note("a").unwrap();

    a.add_tag("software").unwrap();
    assert!(a.has_tag("software"));
}

#[test]
fn remove_link() {
    let mut a = create_note("a").unwrap();
    let link = NoteId::new("b").format();

    a.add_link(&link).unwrap();
    assert!(a.has_link(&link));

    a.remove_link(&link).unwrap();
    assert!(!a.has_link(&link));
}

#[test]
fn remove_tag() {
    let mut a = create_note("a").unwrap();

    a.add_tag("software").unwrap();
    assert!(a.has_tag("software"));

    a.remove_tag("software").unwrap();
    assert!(!a.has_tag("software"));
}

#[test]
fn add_tag_existing() {
    let mut a = create_note("a").unwrap();

    a.add_tag("software").unwrap();

    assert!(a.has_tag("software"));
    assert!(a.add_tag("software").is_err());
}

#[test]
fn add_link_existing() {
    let mut a = create_note("a").unwrap();

    let link = NoteId::new("b").format();

    a.add_link(&link).unwrap();

    assert!(a.has_link(&link));
    assert!(a.add_link(&link).is_err());
}

#[test]
fn remove_tag_missing() {
    let mut a = create_note("a").unwrap();
    assert!(a.remove_tag("software").is_err());
}

#[test]
fn remove_link_missing() {
    let mut a = create_note("a").unwrap();
    assert!(a.remove_link("b").is_err());
}

#[test]
fn add_tag_twice_signals_exists() {
    let mut a = create_note("a").unwrap();
    let tags_after_first = {
        a.add_tag("x").unwrap();
        a.matter.tags.clone()
    };
    let second = a.add_tag("x");
    assert!(matches!(second, Err(Error::TagExists { .. })));
    assert_eq!(a.matter.tags, tags_after_first);
}

#[test]
fn create_rejects_empty_name() {
    let r = Note::create("abc123.md");
    assert!(matches!(r, Err(Error::InvalidNoteId { .. })));
}

#[test]
fn created_note_parses_back() {
    let a = create_note("recipe").unwrap();
    assert_eq!(a.matter.name, "recipe");
    assert!(a.matter.tags.is_empty());
    assert!(a.matter.links.is_empty());

    let on_disk = Matter::default(&a.id.name);
    let loaded = Note::from(&a.path, &on_disk).unwrap();
    assert_eq!(loaded.matter.name, "recipe");
    assert!(loaded.matter.tags.is_empty());
    assert!(loaded.matter.links.is_empty());
    assert_eq!(loaded.content, "");
}

#[test]
fn from_splits_matter_and_content() {
    let text = "---\nname: a\ntags:\n  - t\nlinks: []\n---\nbody line\nmore --- text";
    let n = Note::from("dir/1-a.md", text).unwrap();
    assert_eq!(n.id.prefix, "1");
    assert_eq!(n.id.name, "a");
    assert_eq!(n.matter.name, "a");
    assert_eq!(n.matter.tags, vec![String::from("t")]);
    assert_eq!(n.content, "body line\nmore --- text");
}

#[test]
fn from_rejects_missing_block() {
    assert!(matches!(Note::from("1-a.md", "no frontmatter"), Err(Error::Frontmatter)));
    assert!(matches!(Note::from("1-a.md", "---\nname: a\n"), Err(Error::Frontmatter)));
}

#[test]
fn text_roundtrips_through_load() {
    let mut a = create_note("a").unwrap();
    a.add_tag("software").unwrap();
    a.add_link("1-b.md").unwrap();
    let mut with_body = a;
    with_body.content = "the body\n".to_owned();

    let text = with_body.to_text();
    let back = Note::from(&with_body.path, &text).unwrap();
    assert_eq!(back.matter, with_body.matter);
    assert_eq!(back.content, with_body.content);
}
