use noki::editor::{editor_argv, editor_command};
use noki::io::clean_stdin;
use noki::note::{assemble_raw, split_frontmatter, title_from_content, FrontmatterFormat, NoteError};

#[test]
fn clean_stdin_trims_and_empties_to_none() {
    assert_eq!(clean_stdin("  hello \n"), Some("hello".to_string()));
    assert_eq!(clean_stdin("   \n"), None);
}

#[test]
fn editor_prefers_visual_then_editor() {
    assert_eq!(editor_command(Some(" code -w "), Some("vim")), Some("code -w".to_string()));
    assert_eq!(editor_command(Some("  "), Some("vim")), Some("vim".to_string()));
    assert_eq!(editor_command(None, Some(" nano\n")), Some("nano".to_string()));
    assert_eq!(editor_command(None, Some("")), None);
    assert_eq!(editor_command(None, None), None);
}

#[test]
fn editor_command_splits_at_spaces() {
    assert_eq!(editor_argv("code -w"), vec!["code".to_string(), "-w".to_string()]);
    assert_eq!(editor_argv("vim"), vec!["vim".to_string()]);
    assert_eq!(editor_argv("a  b"), vec!["a".to_string(), String::new(), "b".to_string()]);
}

#[test]
fn missing_frontmatter_is_an_error() {
    let err = split_frontmatter("no frontmatter here").unwrap_err();
    assert_eq!(err, NoteError::MissingFrontmatter);
    assert_eq!(err.message(), "Note is missing frontmatter");
}

#[test]
fn parses_frontmatter_and_body() {
    let raw = "---\ntitle: My new note\npath: 2026/06/02/10:00:00-my-new-note.md\nlabels:\n- needs-review\ncreated: 2026-06-02T10:00:00+01:00\nupdated: 2026-06-02T10:00:02+01:00\n---\n\nHello, World!\n";
    let front = split_frontmatter(raw).unwrap();
    assert_eq!(front.format, FrontmatterFormat::Yaml);
    assert!(front.header.starts_with("title: My new note\n"));
    assert!(front.header.ends_with("updated: 2026-06-02T10:00:02+01:00"));
    assert_eq!(front.body, "Hello, World!\n");
}

#[test]
fn toml_frontmatter_is_recognised() {
    let raw = "+++\ntitle = \"My note\"\n+++\n\nOriginal body\n";
    let front = split_frontmatter(raw).unwrap();
    assert_eq!(front.format, FrontmatterFormat::Toml);
    assert_eq!(front.header, "title = \"My note\"");
    assert_eq!(front.body, "Original body\n");
}

#[test]
fn unterminated_frontmatter_is_an_error() {
    let err = split_frontmatter("---\ntitle: x\nbody").unwrap_err();
    assert_eq!(err, NoteError::Unterminated);
}

#[test]
fn round_trips_through_to_raw() {
    let raw = assemble_raw("title: T\n", "Body\n");
    assert_eq!(raw, "---\ntitle: T\n---\n\nBody\n");
    let front = split_frontmatter(&raw).unwrap();
    assert_eq!(front.header, "title: T");
    assert_eq!(front.body, "Body\n");
}

#[test]
fn title_comes_from_the_first_heading_or_line() {
    assert_eq!(title_from_content("# My new note\n\nHello, World!"), "My new note");
    assert_eq!(title_from_content("just a line\nmore"), "just a line");
}

#[test]
fn note_error_messages() {
    assert_eq!(NoteError::Unterminated.message(), "Note frontmatter is not terminated");
    assert_eq!(NoteError::InvalidFrontmatter.message(), "Invalid note frontmatter");
}
