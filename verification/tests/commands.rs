use noki::commands::create::{assemble_note, build_note, clean_label_list};
use noki::commands::daily::{
    add_daily_label, append_and_save, append_body, daily_label, daily_path, daily_title, plan_daily, save_new_daily,
    save_update, DailyPlan,
};
use noki::commands::edit::edit_note;
use noki::commands::list::newest_first;
use noki::commands::show::{cap_width, show_table_width};
use noki::config::{Config, ConfigEntry, ConfigValue};
use noki::note::{Meta, MetaEntry, MetaValue, Note};
use noki::output::TableWidth;
use noki::timestamp::Timestamp;
use noki::vcs::{MemoryBackend, VersionControl};

fn at(s: &str) -> Timestamp {
    let dt = chrono::DateTime::parse_from_rfc3339(s).unwrap();
    Timestamp { secs: dt.timestamp(), nanos: dt.timestamp_subsec_nanos(), offset: dt.offset().local_minus_utc() }
}

fn create_now() -> Timestamp {
    at("2026-06-02T10:00:00+01:00")
}

fn daily_now() -> Timestamp {
    at("2026-07-03T09:00:00+02:00")
}

fn strings(items: &[&str]) -> Vec<String> {
    items.iter().map(|s| s.to_string()).collect()
}

fn author(config: &mut Config, value: &str) {
    config.note.meta.push(ConfigEntry { key: "author".to_string(), value: ConfigValue::Text(value.to_string()) });
}

fn extra_text<'a>(note: &'a Note, key: &str) -> Option<&'a str> {
    note.meta.extra.iter().find(|e| e.key == key).and_then(|e| match &e.value {
        MetaValue::Text(s) => Some(s.as_str()),
        MetaValue::Yaml(_) => None,
    })
}

/// The note stored as the daily note of 2026-07-03 before the tests run.
fn existing_daily() -> Note {
    Note {
        meta: Meta {
            title: "Daily note for 2026-07-03".to_string(),
            path: "2026/07/03.md".to_string(),
            labels: vec![],
            created: at("2026-07-03T08:00:00+02:00"),
            updated: at("2026-07-03T08:00:00+02:00"),
            extra: vec![],
        },
        content: "Morning notes\n".to_string(),
    }
}

/// The note a user edits in the edit tests.
fn my_note() -> Note {
    Note {
        meta: Meta {
            title: "My note".to_string(),
            path: "2026/06/02/my-note.md".to_string(),
            labels: strings(&["work"]),
            created: at("2026-06-02T10:00:00+01:00"),
            updated: at("2026-06-02T10:00:00+01:00"),
            extra: vec![MetaEntry { key: "author".to_string(), value: MetaValue::Text("Paul".to_string()) }],
        },
        content: "Original body\n".to_string(),
    }
}

#[test]
fn build_note_returns_none_for_empty_content() {
    let config = Config::default();
    assert!(build_note("   \n", &config, None, &[], create_now()).unwrap().is_none());
}

#[test]
fn build_note_produces_path_and_frontmatter() {
    let config = Config::default();
    let (path, note) = build_note("# My new note\n\nHello, World!", &config, None, &[], create_now()).unwrap().unwrap();
    assert_eq!(path, "2026/06/02/10:00:00-my-new-note.md");
    assert_eq!(note.meta.title, "My new note");
    assert_eq!(note.meta.path, path);
    assert_eq!(note.content, "# My new note\n\nHello, World!\n");
}

#[test]
fn build_note_uses_custom_title_over_content() {
    let config = Config::default();
    let (path, note) =
        build_note("# Content Heading\n\nbody", &config, Some("Custom Title"), &[], create_now()).unwrap().unwrap();
    assert_eq!(path, "2026/06/02/10:00:00-custom-title.md");
    assert_eq!(note.meta.title, "Custom Title");
}

#[test]
fn build_note_falls_back_to_content_title_when_none() {
    let config = Config::default();
    let (_, note) = build_note("# Real Title\n\nbody", &config, None, &[], create_now()).unwrap().unwrap();
    assert_eq!(note.meta.title, "Real Title");
}

#[test]
fn build_note_falls_back_when_title_is_blank() {
    let config = Config::default();
    let (_, note) = build_note("# Real Title\n\nbody", &config, Some("   "), &[], create_now()).unwrap().unwrap();
    assert_eq!(note.meta.title, "Real Title");
}

#[test]
fn build_note_sets_labels_from_arguments() {
    let config = Config::default();
    let labels = strings(&["work", "urgent"]);
    let (_, note) = build_note("body", &config, None, &labels, create_now()).unwrap().unwrap();
    assert_eq!(note.meta.labels, strings(&["work", "urgent"]));
}

#[test]
fn build_note_trims_and_drops_blank_labels() {
    let config = Config::default();
    let labels = strings(&["  work  ", "", "   ", "urgent"]);
    let (_, note) = build_note("body", &config, None, &labels, create_now()).unwrap().unwrap();
    assert_eq!(note.meta.labels, strings(&["work", "urgent"]));
}

#[test]
fn build_note_merges_static_meta_but_ignores_reserved_keys() {
    let mut config = Config::default();
    author(&mut config, "Paul");
    config.note.meta.push(ConfigEntry { key: "title".to_string(), value: ConfigValue::Text("hacked".to_string()) });
    let (_, note) = build_note("# Real Title\n\nbody", &config, None, &[], create_now()).unwrap().unwrap();
    assert_eq!(note.meta.title, "Real Title");
    assert_eq!(extra_text(&note, "author"), Some("Paul"));
    assert!(!note.meta.extra.iter().any(|e| e.key == "title"));
}

#[test]
fn assemble_note_builds_at_explicit_path_with_given_title() {
    let mut config = Config::default();
    author(&mut config, "Paul");
    let note = assemble_note(
        "2026/07/03.md".to_string(),
        "Daily note for 2026-07-03".to_string(),
        "Body text",
        &config,
        &strings(&["work"]),
        create_now(),
    );
    assert_eq!(note.meta.path, "2026/07/03.md");
    assert_eq!(note.meta.title, "Daily note for 2026-07-03");
    assert_eq!(note.content, "Body text\n");
    assert_eq!(note.meta.labels, strings(&["work"]));
    assert_eq!(note.meta.created, create_now());
    assert_eq!(note.meta.updated, create_now());
    assert_eq!(extra_text(&note, "author"), Some("Paul"));
}

#[test]
fn build_note_uses_the_configured_filename_template() {
    let mut config = Config::default();
    config.note.filename = Some("{labels}/{title}".to_string());
    let (path, _) = build_note("Hello", &config, Some("A Title"), &strings(&["work"]), create_now()).unwrap().unwrap();
    assert_eq!(path, "work/a-title.md");
}

#[test]
fn build_note_reports_a_bad_filename_template() {
    let mut config = Config::default();
    config.note.filename = Some("{title".to_string());
    let err = build_note("Hello", &config, None, &[], create_now()).unwrap_err();
    assert!(err.message().contains("unterminated"));
}

#[test]
fn non_string_config_meta_keeps_its_yaml() {
    let mut config = Config::default();
    config.note.meta.push(ConfigEntry {
        key: "priority".to_string(),
        value: ConfigValue::Other { toml: "3".to_string(), yaml: Some("3\n".to_string()) },
    });
    config.note.meta.push(ConfigEntry {
        key: "when".to_string(),
        value: ConfigValue::Other { toml: "1979-05-27".to_string(), yaml: None },
    });
    let (_, note) = build_note("body", &config, None, &[], create_now()).unwrap().unwrap();
    assert_eq!(note.meta.extra.len(), 1);
    assert_eq!(note.meta.extra[0].key, "priority");
    assert!(matches!(&note.meta.extra[0].value, MetaValue::Yaml(y) if y == "3\n"));
}

#[test]
fn clean_label_list_trims_and_drops_blanks() {
    assert_eq!(clean_label_list(&strings(&[" a ", "\t", "b"])), strings(&["a", "b"]));
}

#[test]
fn daily_path_uses_default_template() {
    let config = Config::default();
    assert_eq!(daily_path(&config, daily_now()).unwrap(), "2026/07/03.md");
}

#[test]
fn daily_path_uses_configured_template() {
    let mut config = Config::default();
    config.note.daily_filename = Some("journal/{created:%Y-%m-%d}".to_string());
    assert_eq!(daily_path(&config, daily_now()).unwrap(), "journal/2026-07-03.md");
}

#[test]
fn daily_path_resolves_title_and_labels_to_daily_values() {
    let mut config = Config::default();
    config.note.daily_filename = Some("{labels}/{title}".to_string());
    assert_eq!(daily_path(&config, daily_now()).unwrap(), "daily/daily-note-for-2026-07-03.md");
}

#[test]
fn daily_title_defaults_to_dated_label() {
    let config = Config::default();
    assert_eq!(daily_title(&config, daily_now()).unwrap(), "Daily note for 2026-07-03");
}

#[test]
fn daily_title_uses_configured_template() {
    let mut config = Config::default();
    config.note.daily_title = Some("Journal for {created:%d %B %Y}".to_string());
    assert_eq!(daily_title(&config, daily_now()).unwrap(), "Journal for 03 July 2026");
}

#[test]
fn daily_title_keeps_meta_verbatim() {
    let mut config = Config::default();
    author(&mut config, "Paul van der Meijs");
    config.note.daily_title = Some("Journal by {author}".to_string());
    assert_eq!(daily_title(&config, daily_now()).unwrap(), "Journal by Paul van der Meijs");
}

#[test]
fn daily_label_defaults_to_daily() {
    let config = Config::default();
    assert_eq!(daily_label(&config), "daily");
}

#[test]
fn daily_label_uses_configured_value() {
    let mut config = Config::default();
    config.note.daily_label = Some("journal".to_string());
    assert_eq!(daily_label(&config), "journal");
}

#[test]
fn append_body_separates_with_a_blank_line() {
    assert_eq!(append_body("Morning notes\n", "did X"), "Morning notes\n\ndid X");
}

#[test]
fn save_new_daily_creates_note_with_date_title() {
    let config = Config::default();
    let note = save_new_daily(&config, "2026/07/03.md", "Hello", None, &[], daily_now()).unwrap().unwrap();
    assert_eq!(note.meta.path, "2026/07/03.md");
    assert_eq!(note.meta.title, "Daily note for 2026-07-03");
    assert_eq!(note.meta.created, daily_now());
    assert_eq!(note.meta.updated, daily_now());
    assert_eq!(note.content, "Hello\n");
}

#[test]
fn save_new_daily_uses_explicit_title() {
    let config = Config::default();
    let note = save_new_daily(&config, "2026/07/03.md", "Hello", Some("Standup"), &[], daily_now()).unwrap().unwrap();
    assert_eq!(note.meta.title, "Standup");
}

#[test]
fn save_new_daily_skips_empty_content() {
    let config = Config::default();
    assert!(save_new_daily(&config, "2026/07/03.md", "   \n", None, &[], daily_now()).unwrap().is_none());
}

#[test]
fn save_new_daily_applies_labels_and_config_meta() {
    let mut config = Config::default();
    author(&mut config, "Paul");
    let note = save_new_daily(&config, "2026/07/03.md", "Hello", None, &strings(&["work"]), daily_now()).unwrap().unwrap();
    assert_eq!(note.meta.labels, strings(&["work", "daily"]));
    assert_eq!(extra_text(&note, "author"), Some("Paul"));
}

#[test]
fn save_new_daily_adds_the_daily_label() {
    let config = Config::default();
    let note = save_new_daily(&config, "2026/07/03.md", "Hello", None, &[], daily_now()).unwrap().unwrap();
    assert_eq!(note.meta.labels, strings(&["daily"]));
}

#[test]
fn save_new_daily_does_not_duplicate_the_daily_label() {
    let config = Config::default();
    let note = save_new_daily(&config, "2026/07/03.md", "Hello", None, &strings(&["daily"]), daily_now()).unwrap().unwrap();
    assert_eq!(note.meta.labels, strings(&["daily"]));
}

#[test]
fn append_and_save_appends_and_bumps_updated() {
    let config = Config::default();
    let saved = append_and_save(&config, existing_daily(), "did X", daily_now()).unwrap();
    assert_eq!(saved.meta.path, "2026/07/03.md");
    assert_eq!(saved.content, "Morning notes\n\ndid X\n");
    assert_eq!(saved.meta.updated, daily_now());
    assert_eq!(saved.meta.created, at("2026-07-03T08:00:00+02:00"));
    assert_eq!(saved.meta.title, "Daily note for 2026-07-03");
    assert_eq!(saved.meta.labels, strings(&["daily"]));
}

#[test]
fn save_update_adds_the_daily_label_once() {
    let mut config = Config::default();
    config.note.daily_label = Some("journal".to_string());
    let mut note = existing_daily();
    note.meta.labels = strings(&["work", " journal "]);
    let saved = save_update(&config, note, "Edited", daily_now()).unwrap();
    assert_eq!(saved.meta.labels, strings(&["work", " journal "]));
    assert_eq!(saved.content, "Edited\n");
}

#[test]
fn save_update_of_blank_body_is_none() {
    let config = Config::default();
    assert!(save_update(&config, existing_daily(), " \n ", daily_now()).is_none());
}

#[test]
fn add_daily_label_appends_when_missing() {
    let mut labels = strings(&["work"]);
    add_daily_label(&mut labels, "daily");
    assert_eq!(labels, strings(&["work", "daily"]));
    add_daily_label(&mut labels, "daily");
    assert_eq!(labels, strings(&["work", "daily"]));
}

#[test]
fn plan_daily_covers_every_case() {
    assert!(matches!(plan_daily(Some("Body\n"), true, Some("x")), DailyPlan::Append { addition } if addition == "x"));
    assert!(matches!(plan_daily(Some("Body\n"), true, None), DailyPlan::NothingToAdd));
    assert!(matches!(plan_daily(Some("Body\n"), false, Some("x")), DailyPlan::EditExisting { prefill } if prefill == "Body\n\nx"));
    assert!(matches!(plan_daily(Some("Body\n"), false, None), DailyPlan::EditExisting { prefill } if prefill == "Body\n"));
    assert!(matches!(plan_daily(None, true, Some("x")), DailyPlan::CreateFromInput { content } if content == "x"));
    assert!(matches!(plan_daily(None, true, None), DailyPlan::CreateFromInput { content } if content.is_empty()));
    assert!(matches!(plan_daily(None, false, Some("x")), DailyPlan::CreateInEditor { prefill: Some(p) } if p == "x"));
    assert!(matches!(plan_daily(None, false, None), DailyPlan::CreateInEditor { prefill: None }));
}

#[test]
fn save_edit_updates_body_and_updated_but_keeps_created() {
    let now = at("2026-06-03T12:00:00+01:00");
    let saved = edit_note(my_note(), "New body", now).unwrap();
    assert_eq!(saved.meta.path, "2026/06/02/my-note.md");
    assert_eq!(saved.content, "New body\n");
    assert_eq!(saved.meta.updated, now);
    assert_eq!(saved.meta.created, at("2026-06-02T10:00:00+01:00"));
}

#[test]
fn save_edit_preserves_title_labels_and_extra() {
    let now = at("2026-06-03T12:00:00+01:00");
    let saved = edit_note(my_note(), "New body", now).unwrap();
    assert_eq!(saved.meta.title, "My note");
    assert_eq!(saved.meta.labels, strings(&["work"]));
    assert_eq!(extra_text(&saved, "author"), Some("Paul"));
}

#[test]
fn save_edit_skips_empty_content_and_leaves_note_unchanged() {
    let now = at("2026-06-03T12:00:00+01:00");
    assert!(edit_note(my_note(), "   \n", now).is_none());
}

#[test]
fn cap_width_uses_available_when_no_cap() {
    assert_eq!(cap_width(120, None), 120);
}

#[test]
fn cap_width_caps_to_smaller_of_available_and_max() {
    assert_eq!(cap_width(120, Some(80)), 80);
    assert_eq!(cap_width(50, Some(80)), 50);
}

#[test]
fn cap_width_never_returns_zero() {
    assert_eq!(cap_width(120, Some(0)), 1);
}

#[test]
fn show_table_width_is_fixed_only_with_a_cap() {
    assert_eq!(show_table_width(120, None), TableWidth::Fit(120));
    assert_eq!(show_table_width(120, Some(60)), TableWidth::Fixed(60));
    assert_eq!(show_table_width(50, Some(60)), TableWidth::Fixed(50));
    assert_eq!(TableWidth::Fixed(60).columns(), 60);
    assert_eq!(TableWidth::Fit(7).columns(), 7);
}

fn created_at(title: &str, when: &str) -> Note {
    let mut note = existing_daily();
    note.meta.title = title.to_string();
    note.meta.created = at(when);
    note
}

#[test]
fn newest_first_sorts_by_created_descending() {
    let notes = vec![
        created_at("old", "2026-01-01T00:00:00+00:00"),
        created_at("new", "2026-03-01T00:00:00+00:00"),
        created_at("mid", "2026-02-01T00:00:00+00:00"),
    ];
    let titles: Vec<String> = newest_first(notes).into_iter().map(|n| n.meta.title).collect();
    assert_eq!(titles, strings(&["new", "mid", "old"]));
}

#[test]
fn newest_first_keeps_ties_in_order_and_compares_instants() {
    // 10:00+01:00 and 09:00+00:00 are the same instant.
    let notes = vec![
        created_at("a", "2026-06-02T10:00:00+01:00"),
        created_at("b", "2026-06-02T09:00:00+00:00"),
        created_at("c", "2026-06-02T09:30:00+01:00"),
    ];
    let titles: Vec<String> = newest_first(notes).into_iter().map(|n| n.meta.title).collect();
    assert_eq!(titles, strings(&["a", "b", "c"]));
}

#[test]
fn save_note_writes_to_backend() {
    let config = Config::default();
    let mut backend = MemoryBackend::new();
    let (path, note) = build_note("Hello", &config, None, &[], create_now()).unwrap().unwrap();
    let raw = noki::note::assemble_raw("title: Hello\n", &note.content);
    backend.write_file(&path, &raw, &format!("Add note {path}")).unwrap();
    let stored = backend.read_file(&path).unwrap();
    assert!(stored.contains("Hello"));
    assert_eq!(noki::note::split_frontmatter(&stored).unwrap().body, "Hello\n");
}

#[test]
fn save_note_skips_empty_content() {
    let config = Config::default();
    let backend = MemoryBackend::new();
    assert!(build_note("  ", &config, None, &[], create_now()).unwrap().is_none());
    assert!(backend.list_files().unwrap().is_empty());
}

#[test]
fn commit_messages_name_the_note() {
    assert_eq!(noki::commands::create::add_message("2026/07/03.md"), "Add note 2026/07/03.md");
    assert_eq!(noki::commands::edit::update_message("a/b.md"), "Update note a/b.md");
}
