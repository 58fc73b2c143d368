use noki::vcs::{is_note_file, sort_paths, MemoryBackend, VcsError, VersionControl};

#[test]
fn memory_backend_round_trips() {
    let mut backend = MemoryBackend::new();
    backend.write_file("a/b.md", "hello", "msg").unwrap();
    assert_eq!(backend.read_file("a/b.md").unwrap(), "hello");
    assert_eq!(backend.list_files().unwrap(), vec!["a/b.md".to_string()]);
}

#[test]
fn memory_backend_read_missing_is_error() {
    let backend = MemoryBackend::new();
    assert!(backend.read_file("nope.md").is_err());
}

#[test]
fn missing_note_error_names_the_path() {
    let backend = MemoryBackend::new();
    let err = backend.read_file("nope.md").unwrap_err();
    assert!(matches!(&err, VcsError::NoNote { path } if path == "nope.md"));
    assert_eq!(err.message(), "No note at nope.md");
}

#[test]
fn candidates_are_the_note_paths() {
    let backend = MemoryBackend::with_files(&[("b/c.md", "y"), ("a.md", "x")]);
    assert_eq!(backend.list_files().unwrap(), vec!["a.md".to_string(), "b/c.md".to_string()]);
}

#[test]
fn no_notes_yields_no_candidates() {
    let backend = MemoryBackend::new();
    assert!(backend.list_files().unwrap().is_empty());
}

#[test]
fn later_write_replaces_contents() {
    let mut backend = MemoryBackend::with_files(&[("n.md", "one"), ("m.md", "x"), ("n.md", "two")]);
    assert_eq!(backend.read_file("n.md").unwrap(), "two");
    backend.write_file("n.md", "three", "update").unwrap();
    assert_eq!(backend.read_file("n.md").unwrap(), "three");
    assert_eq!(backend.read_file("m.md").unwrap(), "x");
    assert_eq!(backend.list_files().unwrap(), vec!["m.md".to_string(), "n.md".to_string()]);
}

#[test]
fn listing_is_sorted_like_str() {
    let backend = MemoryBackend::with_files(&[("b.md", ""), ("a/z.md", ""), ("a.md", ""), ("B.md", ""), ("é.md", "")]);
    assert_eq!(
        backend.list_files().unwrap(),
        vec!["B.md".to_string(), "a.md".to_string(), "a/z.md".to_string(), "b.md".to_string(), "é.md".to_string()]
    );
}

#[test]
fn refresh_changes_nothing() {
    let mut backend = MemoryBackend::with_files(&[("a.md", "x")]);
    assert!(backend.refresh().is_ok());
    assert_eq!(backend.read_file("a.md").unwrap(), "x");
}

#[test]
fn note_files_are_visible_markdown() {
    assert!(is_note_file("a.md"));
    assert!(is_note_file("x.tar.md"));
    assert!(!is_note_file(".hidden.md"));
    assert!(!is_note_file(".md"));
    assert!(!is_note_file("md"));
    assert!(!is_note_file("a.MD"));
    assert!(!is_note_file("a.mdx"));
}

#[test]
fn sort_paths_orders_like_str() {
    let paths = vec!["b/a.md".to_string(), "a.md".to_string(), "a/b.md".to_string(), "a.md".to_string()];
    let mut expected = paths.clone();
    expected.sort();
    assert_eq!(sort_paths(paths), expected);
}

#[test]
fn backend_failure_message_is_kept() {
    let err = VcsError::Failed { message: "Failed to push to origin".to_string() };
    assert_eq!(err.message(), "Failed to push to origin");
}

#[test]
fn run_errors_when_note_is_missing() {
    let backend = MemoryBackend::new();
    let err = backend.read_file("nope.md").unwrap_err();
    assert_eq!(err.message(), "No note at nope.md");
}

#[test]
fn show_missing_note_errors() {
    let backend = MemoryBackend::with_files(&[("a.md", "x")]);
    let err = backend.read_file("nope.md").unwrap_err();
    assert_eq!(err.message(), "No note at nope.md");
}

#[test]
fn run_returns_ok() {
    let mut backend = MemoryBackend::new();
    assert!(backend.refresh().is_ok());
}

#[test]
fn clone_dir_name_keeps_only_letters_and_digits() {
    assert_eq!(noki::vcs::clone_dir_name("git@github.com:you/notes.git"), "git_github_com_you_notes_git");
    assert_eq!(noki::vcs::clone_dir_name("Repo9"), "Repo9");
}
