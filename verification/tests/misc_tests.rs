use zk::config::Config;
use zk::error::Error;
use zk::new::new;
use zk::prompt::Prompt;
use zk::search::Search;
use zk::note::Note;
use zk::note_id::NoteId;

#[test]
fn test_new() {
    let note_name = String::from("test");

    let result = new(note_name);

    assert!(result.is_ok());
    let filename = result.unwrap();
    assert!(filename.ends_with("-test.md"));
}

#[test]
fn unwrapped_extension() {
    assert_eq!(zk::path_ext::unwrapped_extension("c.md"), "md");
}

#[test]
fn unwrapped_filename() {
    assert_eq!(zk::path_ext::unwrapped_filename("a/b/c.md"), "c.md");
}

#[test]
fn path_helpers_fall_back_to_empty() {
    assert_eq!(zk::path_ext::unwrapped_filename("c.md"), "c.md");
    assert_eq!(zk::path_ext::unwrapped_extension("a/b/c"), "");
}

#[test]
fn default() {
    let config = Config::default();
    assert_eq!(config.path, "~/.zk");
    assert_eq!(config.editor, "vim");
}

#[test]
fn config_filename() {
    assert_eq!(Config::filename(), ".zk.toml");
}

#[test]
fn prompt_interact_maps_selections() {
    let p = Prompt::new(
        "pick".to_owned(),
        vec!["a".to_owned(), "b".to_owned(), "c".to_owned()],
    );
    assert_eq!(p.interact(&vec![]), None);
    assert_eq!(
        p.interact(&vec![2, 0]),
        Some(vec!["c".to_owned(), "a".to_owned()])
    );
}

#[test]
fn prompt_choose_first() {
    let single = Prompt::new("pick".to_owned(), vec!["only".to_owned()]);
    assert_eq!(single.interact_choose_first(&vec![]), Some("only".to_owned()));

    let many = Prompt::new("pick".to_owned(), vec!["a".to_owned(), "b".to_owned()]);
    assert_eq!(many.interact_choose_first(&vec![]), None);
    assert_eq!(many.interact_choose_first(&vec![1]), Some("b".to_owned()));
}

#[test]
fn search_takes_single_candidate_without_asking() {
    let a = Note::create(&NoteId::new("a").format()).unwrap();
    let s = Search::new(vec![a]);
    let picked = s.run(&vec![]).unwrap();
    assert_eq!(picked.len(), 1);
    assert_eq!(picked[0].id.name, "a");
}

#[test]
fn search_requires_a_choice() {
    let a = Note::create(&NoteId::new("a").format()).unwrap();
    let b = Note::create(&NoteId::new("b").format()).unwrap();
    let s = Search::new(vec![a, b]);
    assert!(matches!(s.run(&vec![]), Err(Error::NoteNotSelected)));
    let picked = s.run(&vec![1]).unwrap();
    assert_eq!(picked.len(), 1);
    assert_eq!(picked[0].id.name, "b");
}

#[test]
fn error_messages_name_the_subject() {
    let e = Error::TagExists { tag: "software".to_owned() };
    assert_eq!(e.message(), "Note already contains the tag `software`");
    let e = Error::LinkMissing { link: "1-a.md".to_owned(), name: "2-b.md".to_owned() };
    assert_eq!(e.message(), "Link `1-a.md` does not exist on note `2-b.md`");
    let e = Error::NoteNotFound { name: "a".to_owned() };
    assert_eq!(e.message(), "Note with name `a` does not exist");
}
