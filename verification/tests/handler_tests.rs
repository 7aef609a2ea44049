use zk::config::Config;
use zk::directory::Directory;
use zk::error::Error;
use zk::handler::Handler;
use zk::note::Note;
use zk::note_id::NoteId;

fn handler() -> Handler {
    Handler::new(Config::default(), Directory::new(".".to_owned()))
}

fn create_note(name: &str) -> Note {
    Note::create(&NoteId::new(name).format()).unwrap()
}

#[test]
fn handler_create_builds_note() {
    let h = handler();
    let n = h.create("recipe").unwrap();
    assert_eq!(n.matter.name, "recipe");
    assert!(n.matter.tags.is_empty());
    assert!(n.matter.links.is_empty());
    assert_eq!(n.content, "");
    assert_eq!(n.id.name, "recipe");
    assert!(n.path.starts_with("./"));
    assert!(n.path.ends_with("-recipe.md"));
}

#[test]
fn handler_create_rejects_empty_name() {
    let h = handler();
    assert!(matches!(h.create(""), Err(Error::InvalidNoteId { .. })));
}

#[test]
fn link_is_symmetric() {
    let h = handler();
    let mut a = create_note("a");
    let mut b = create_note("b");

    h.link(&mut a, &mut b);

    assert!(a.has_link(&b.id.format()));
    assert!(b.has_link(&a.id.format()));
}

#[test]
fn link_tolerates_one_existing_side() {
    let h = handler();
    let mut a = create_note("a");
    let mut b = create_note("b");

    a.add_link(&b.id.format()).unwrap();
    h.link(&mut a, &mut b);

    assert!(a.has_link(&b.id.format()));
    assert!(b.has_link(&a.id.format()));
    assert_eq!(a.matter.links.len(), 1);
}

#[test]
fn link_then_unlink_restores_links() {
    let h = handler();
    let mut a = create_note("a");
    let mut b = create_note("b");
    a.add_link("0-other.md").unwrap();

    let a_before = a.matter.links.clone();
    let b_before = b.matter.links.clone();

    h.link(&mut a, &mut b);
    h.remove_link(&mut a, &mut b);

    assert_eq!(a.matter.links, a_before);
    assert_eq!(b.matter.links, b_before);
}

#[test]
fn remove_cascades_over_backlinks() {
    let h = handler();
    let a = create_note("a");
    let mut b = create_note("b");
    let mut c = create_note("c");

    b.add_link(&a.id.format()).unwrap();
    c.add_link(&a.id.format()).unwrap();
    c.add_link("0-keep.md").unwrap();

    let notes = vec![b, c];
    let stripped = h.remove(&a, &notes);

    assert_eq!(stripped.len(), 2);
    for n in &stripped {
        assert!(!n.has_link(&a.id.format()));
    }
    assert!(stripped[1].has_link("0-keep.md"));
}

#[test]
fn tag_and_remove_tag_are_tolerant() {
    let h = handler();
    let mut a = create_note("a");

    h.tag(&mut a, "software");
    assert!(a.has_tag("software"));
    h.tag(&mut a, "software");
    assert_eq!(a.matter.tags.len(), 1);

    h.remove_tag(&mut a, "software");
    assert!(!a.has_tag("software"));
    h.remove_tag(&mut a, "software");
    assert!(a.matter.tags.is_empty());
}
