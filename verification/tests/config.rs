use noki::config::{resolve, Config, ConfigEntry, ConfigValue, DEFAULT_MAX_VISIBLE_LABELS};

fn with_repository(repository: &str) -> Config {
    let mut config = Config::default();
    config.repository = Some(repository.to_string());
    config
}

#[test]
fn cli_override_wins_over_files() {
    let config = resolve(None, vec![with_repository("from-local")], Some("from-cli".to_string()));
    assert_eq!(config.repository().unwrap(), "from-cli");
}

#[test]
fn nearest_local_file_wins_over_ancestor() {
    let config = resolve(None, vec![with_repository("ancestor"), with_repository("nearest")], None);
    assert_eq!(config.repository().unwrap(), "nearest");
}

#[test]
fn missing_repository_is_an_error() {
    let config = resolve(None, vec![], None);
    let err = config.repository().unwrap_err();
    assert_eq!(err.message(), "No repository configured. Set one with --repository or in .noki.toml.");
}

#[test]
fn max_visible_labels_defaults_to_three() {
    let config = resolve(None, vec![], None);
    assert_eq!(config.max_visible_labels(), 3);
    assert_eq!(DEFAULT_MAX_VISIBLE_LABELS, 3);
}

#[test]
fn configured_max_visible_labels_is_used() {
    let mut local = Config::default();
    local.list.max_visible_labels = Some(5);
    let config = resolve(None, vec![local], None);
    assert_eq!(config.max_visible_labels(), 5);
}

#[test]
fn local_files_layer_over_the_global_one() {
    let mut global = with_repository("global");
    global.note.filename = Some("{title}".to_string());
    global.note.daily_label = Some("journal".to_string());
    global.note.meta.push(ConfigEntry { key: "author".to_string(), value: ConfigValue::Text("Global".to_string()) });
    global.note.meta.push(ConfigEntry { key: "team".to_string(), value: ConfigValue::Text("core".to_string()) });
    let mut local = Config::default();
    local.note.filename = Some("{created}".to_string());
    local.note.meta.push(ConfigEntry { key: "author".to_string(), value: ConfigValue::Text("Local".to_string()) });
    let config = resolve(Some(global), vec![local], None);
    assert_eq!(config.repository().unwrap(), "global");
    assert_eq!(config.note.filename.as_deref(), Some("{created}"));
    assert_eq!(config.note.daily_label.as_deref(), Some("journal"));
    let value = |key: &str| {
        config.note.meta.iter().find(|e| e.key == key).map(|e| match &e.value {
            ConfigValue::Text(s) => s.clone(),
            ConfigValue::Other { toml, .. } => toml.clone(),
        })
    };
    assert_eq!(value("author").as_deref(), Some("Local"));
    assert_eq!(value("team").as_deref(), Some("core"));
    assert_eq!(config.note.meta.iter().filter(|e| e.key == "author").count(), 1);
}

#[test]
fn merge_keeps_settings_the_later_file_leaves_unset() {
    let mut base = with_repository("r");
    base.note.daily_title = Some("T".to_string());
    let mut later = Config::default();
    later.note.max_width = Some(72);
    base.merge(later);
    assert_eq!(base.repository().unwrap(), "r");
    assert_eq!(base.note.daily_title.as_deref(), Some("T"));
    assert_eq!(base.note.max_width, Some(72));
}
