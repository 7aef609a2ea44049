use zk::directory::{Directory, FileEntry};
use zk::error::Error;
use zk::matter::Matter;
use zk::note::Note;

fn entry(filename: &str, name: &str) -> FileEntry {
    FileEntry { path: filename.to_owned(), text: Matter::default(name) }
}

#[test]
fn notes() {
    let files = vec![entry("1-a.md", "a"), entry("2-b.md", "b"), entry("3-c.md", "c")];

    assert_eq!(Directory::new(".".to_owned()).notes(&files).unwrap().len(), 3);
}

#[test]
fn notes_filters_extension() {
    let files = vec![
        entry("1-a.md", "a"),
        FileEntry { path: "notes.txt".to_owned(), text: "not a note".to_owned() },
        entry("2-b.md", "b"),
    ];
    let ns = Directory::new(".".to_owned()).notes(&files).unwrap();
    assert_eq!(ns.len(), 2);
    assert_eq!(ns[0].id.name, "a");
    assert_eq!(ns[1].id.name, "b");
}

#[test]
fn notes_fails_fast() {
    let files = vec![entry("1-a.md", "a"), FileEntry {
        path: "2-b.md".to_owned(),
        text: "garbage".to_owned(),
    }];
    assert!(Directory::new(".".to_owned()).notes(&files).is_err());
}

#[test]
fn find() {
    let mut files: Vec<FileEntry> = Vec::new();
    for i in 0..5 {
        files.push(entry(&format!("{}-a.md", i), "a"));
    }

    let dir = Directory::new(".".to_owned());
    let all = dir.notes(&files).unwrap();
    let notes = dir.find(&all, "a").unwrap();

    assert_eq!(notes.len(), 5);

    for note in notes {
        assert_eq!(note.id.name, "a");
    }
}

#[test]
fn find_by_tag() {
    let dir = Directory::new(".".to_owned());
    let files = vec![entry("1-a.md", "a"), entry("2-b.md", "b")];
    let mut all: Vec<Note> = dir.notes(&files).unwrap();

    all[0].add_tag("software").unwrap();
    all[1].add_tag("software").unwrap();

    let notes = dir.find_by_tag(&all, "software").unwrap();

    assert_eq!(notes.len(), 2);

    for note in notes {
        assert!(note.has_tag("software"));
    }
}

#[test]
fn find_by_tag_returns_exactly_the_tagged() {
    let dir = Directory::new(".".to_owned());
    let files = vec![
        entry("1-a.md", "a"),
        entry("2-b.md", "b"),
        entry("3-c.md", "c"),
        entry("4-d.md", "d"),
        entry("5-e.md", "e"),
    ];
    let mut all: Vec<Note> = dir.notes(&files).unwrap();
    all[1].add_tag("software").unwrap();
    all[3].add_tag("software").unwrap();

    let notes = dir.find_by_tag(&all, "software").unwrap();
    assert_eq!(notes.len(), 2);
    assert_eq!(notes[0].id.name, "b");
    assert_eq!(notes[1].id.name, "d");
}

#[test]
fn find_signals_not_found() {
    let dir = Directory::new(".".to_owned());
    let all = dir.notes(&vec![entry("1-a.md", "a")]).unwrap();
    assert!(matches!(dir.find(&all, "zzz"), Err(Error::NoteNotFound { .. })));
    assert!(matches!(dir.find_by_tag(&all, "zzz"), Err(Error::TagNotFound { .. })));
}
