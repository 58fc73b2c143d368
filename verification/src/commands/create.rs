//! Capturing a new note: deciding its title, path, labels and metadata.
use vstd::prelude::*;
use crate::config::{Config, ConfigEntry, ConfigValue, keys_unique};
use crate::note::{
    Meta, MetaEntry, MetaValue, Note, DEFAULT_FILENAME, note_path, note_path_spec, strings_model,
    title_from_content, title_from_content_spec,
};
use crate::template::{TemplateError, TemplateErrorModel};
use crate::text::{chars_of, string_of, trim, trim_str, str_eq, extend_str};
use crate::timestamp::Timestamp;

verus! {

/// Frontmatter keys that static config meta may not override.
pub open spec fn is_reserved_key(k: Seq<char>) -> bool {
    k == "title"@ || k == "path"@ || k == "labels"@ || k == "created"@ || k == "updated"@
}

fn reserved_key(k: &str) -> (r: bool)
    ensures
        r == is_reserved_key(k@),
{
    str_eq(k, "title") || str_eq(k, "path") || str_eq(k, "labels") || str_eq(k, "created") || str_eq(k, "updated")
}

/// Labels with surrounding whitespace removed and blank ones dropped.
pub open spec fn clean_labels(labels: Seq<Seq<char>>) -> Seq<Seq<char>>
    decreases labels.len(),
{
    if labels.len() == 0 {
        seq![]
    } else {
        let prev = clean_labels(labels.drop_last());
        let t = trim(labels.last());
        if t.len() == 0 { prev } else { prev.push(t) }
    }
}

/// The extra frontmatter a new note takes from static config meta: every
/// entry but the reserved keys, strings as strings and other values as their
/// YAML (an entry with no YAML form is left out).
pub open spec fn extra_from_config(meta: Seq<ConfigEntry>) -> Seq<(Seq<char>, MetaValueModel)>
    decreases meta.len(),
{
    if meta.len() == 0 {
        seq![]
    } else {
        let prev = extra_from_config(meta.drop_last());
        let e = meta.last();
        if is_reserved_key(e.key@) {
            prev
        } else {
            match e.value {
                ConfigValue::Text(s) => prev.push((e.key@, MetaValueModel::Text(s@))),
                ConfigValue::Other { toml, yaml } => match yaml {
                    Some(y) => prev.push((e.key@, MetaValueModel::Yaml(y@))),
                    None => prev,
                },
            }
        }
    }
}

/// The content of a [`MetaValue`].
pub enum MetaValueModel {
    Text(Seq<char>),
    Yaml(Seq<char>),
}

pub open spec fn meta_value_model(v: MetaValue) -> MetaValueModel {
    match v {
        MetaValue::Text(s) => MetaValueModel::Text(s@),
        MetaValue::Yaml(y) => MetaValueModel::Yaml(y@),
    }
}

pub open spec fn extra_model(extra: Seq<MetaEntry>) -> Seq<(Seq<char>, MetaValueModel)> {
    extra.map_values(|e: MetaEntry| (e.key@, meta_value_model(e.value)))
}

fn copy_string(s: &str) -> (r: String)
    ensures
        r@ == s@,
{
    string_of(chars_of(s).as_slice())
}

fn extra_entries(meta: &Vec<ConfigEntry>) -> (r: Vec<MetaEntry>)
    ensures
        extra_model(r@) == extra_from_config(meta@),
{
    let mut out: Vec<MetaEntry> = Vec::new();
    let mut i: usize = 0;
    while i < meta.len()
        invariant
            i <= meta@.len(),
            extra_model(out@) == extra_from_config(meta@.take(i as int)),
        decreases meta.len() - i,
    {
        let e = &meta[i];
        let ghost prev = out@;
        proof {
            assert(meta@.take(i + 1).drop_last() =~= meta@.take(i as int));
            assert(meta@.take(i + 1).last() == meta@[i as int]);
        }
        if !reserved_key(e.key.as_str()) {
            match &e.value {
                ConfigValue::Text(s) => {
                    out.push(MetaEntry { key: copy_string(e.key.as_str()), value: MetaValue::Text(copy_string(s.as_str())) });
                    proof {
                        assert(extra_model(out@) =~= extra_model(prev).push(extra_model(out@).last()));
                    }
                },
                ConfigValue::Other { toml, yaml } => match yaml {
                    Some(y) => {
                        out.push(MetaEntry { key: copy_string(e.key.as_str()), value: MetaValue::Yaml(copy_string(y.as_str())) });
                        proof {
                            assert(extra_model(out@) =~= extra_model(prev).push(extra_model(out@).last()));
                        }
                    },
                    None => {},
                },
            }
        }
        i = i + 1;
    }
    assert(meta@.take(meta@.len() as int) =~= meta@);
    out
}

/// Trim labels and drop the blank ones.
pub fn clean_label_list(labels: &[String]) -> (r: Vec<String>)
    ensures
        strings_model(r@) == clean_labels(strings_model(labels@)),
{
    let ghost lm = strings_model(labels@);
    let mut out: Vec<String> = Vec::new();
    let mut i: usize = 0;
    while i < labels.len()
        invariant
            i <= labels@.len(),
            lm == strings_model(labels@),
            strings_model(out@) == clean_labels(lm.take(i as int)),
        decreases labels.len() - i,
    {
        let t = trim_str(labels[i].as_str());
        let ghost prev = out@;
        proof {
            assert(lm.take(i + 1).drop_last() =~= lm.take(i as int));
            assert(lm.take(i + 1).last() == labels@[i as int]@);
        }
        if chars_of(t.as_str()).len() > 0 {
            out.push(t);
            proof {
                assert(strings_model(out@) =~= strings_model(prev).push(out@.last()@));
            }
        }
        i = i + 1;
    }
    assert(lm.take(labels@.len() as int) =~= lm);
    out
}

/// The extra keys taken from config meta are distinct when the config's
/// keys are, and each is the key of some config entry.
proof fn lemma_extra_from_config_unique(meta: Seq<ConfigEntry>)
    requires
        keys_unique(meta),
    ensures
        forall|i: int, j: int| 0 <= i < j < extra_from_config(meta).len()
            ==> #[trigger] extra_from_config(meta)[i].0 != #[trigger] extra_from_config(meta)[j].0,
        forall|i: int| 0 <= i < extra_from_config(meta).len()
            ==> exists|k: int| 0 <= k < meta.len() && #[trigger] meta[k].key@ == #[trigger] extra_from_config(meta)[i].0,
    decreases meta.len(),
{
    if meta.len() > 0 {
        let prev_meta = meta.drop_last();
        assert forall|a: int, b: int| 0 <= a < b < prev_meta.len() implies #[trigger] prev_meta[a].key@ != #[trigger] prev_meta[b].key@ by {
            assert(prev_meta[a] == meta[a] && prev_meta[b] == meta[b]);
        }
        lemma_extra_from_config_unique(prev_meta);
        let prev = extra_from_config(prev_meta);
        let e = meta.last();
        let out = extra_from_config(meta);
        assert forall|i: int| 0 <= i < prev.len() implies #[trigger] prev[i].0 != e.key@ by {
            let k = choose|k: int| 0 <= k < prev_meta.len() && #[trigger] prev_meta[k].key@ == prev[i].0;
            assert(prev_meta[k] == meta[k]);
            assert(meta[k].key@ != meta[meta.len() - 1].key@);
        }
        assert forall|i: int| 0 <= i < out.len()
            implies exists|k: int| 0 <= k < meta.len() && #[trigger] meta[k].key@ == #[trigger] out[i].0 by {
            if i < prev.len() {
                assert(out[i] == prev[i]);
                let k = choose|k: int| 0 <= k < prev_meta.len() && #[trigger] prev_meta[k].key@ == prev[i].0;
                assert(meta[k] == prev_meta[k]);
            } else {
                assert(meta[meta.len() - 1].key@ == out[i].0);
            }
        }
        assert forall|i: int, j: int| 0 <= i < j < out.len() implies #[trigger] out[i].0 != #[trigger] out[j].0 by {
            if j < prev.len() {
                assert(out[i] == prev[i] && out[j] == prev[j]);
            } else {
                assert(out[i] == prev[i]);
                assert(out[j].0 == e.key@);
            }
        }
    }
}

/// The note [`assemble_note`] builds.
pub open spec fn assembled(n: Note, path: Seq<char>, title: Seq<char>, content: Seq<char>, meta: Seq<ConfigEntry>, labels: Seq<Seq<char>>, now: Timestamp) -> bool {
    &&& n.meta.path@ == path
    &&& n.meta.title@ == title
    &&& strings_model(n.meta.labels@) == clean_labels(labels)
    &&& n.meta.created == now
    &&& n.meta.updated == now
    &&& extra_model(n.meta.extra@) == extra_from_config(meta)
    &&& n.content@ == content.push('\n')
}

/// Assemble a `Note` at an explicit `path` with an already-resolved `title`.
/// Merges config static meta (skipping reserved keys), cleans `labels`, sets
/// both `created` and `updated` to `now`, and appends a trailing newline to the
/// (already-trimmed) `content`.
pub fn assemble_note(path: String, title: String, content: &str, config: &Config, labels: &[String], now: Timestamp) -> (n: Note)
    ensures
        assembled(n, path@, title@, content@, config.note.meta@, strings_model(labels@), now),
        keys_unique(config.note.meta@) ==> n.meta.wf(),
{
    let mut body = chars_of(content);
    body.push('\n');
    let extra = extra_entries(&config.note.meta);
    proof {
        if keys_unique(config.note.meta@) {
            lemma_extra_from_config_unique(config.note.meta@);
            let m = extra_model(extra@);
            assert forall|i: int, j: int| 0 <= i < j < extra@.len() implies #[trigger] extra@[i].key@ != #[trigger] extra@[j].key@ by {
                assert(m[i].0 == extra@[i].key@ && m[j].0 == extra@[j].key@);
            }
        }
    }
    Note {
        meta: Meta {
            title,
            path,
            labels: clean_label_list(labels),
            created: now,
            updated: now,
            extra,
        },
        content: string_of(body.as_slice()),
    }
}

/// The title of a new note: the given one when it is not blank (trimmed),
/// else the one derived from the (trimmed) content.
pub open spec fn chosen_title(title: Option<Seq<char>>, content: Seq<char>) -> Seq<char> {
    match title {
        Some(t) if trim(t).len() > 0 => trim(t),
        _ => title_from_content_spec(content),
    }
}

/// The filename template for new notes.
pub open spec fn filename_template(config: Config) -> Seq<char> {
    match config.note.filename {
        Some(f) => f@,
        None => DEFAULT_FILENAME@,
    }
}

pub open spec fn opt_str(t: Option<&str>) -> Option<Seq<char>> {
    match t {
        Some(s) => Some(s@),
        None => None,
    }
}

/// Build a new note from captured `content`: `None` when it is blank,
/// otherwise its path (from the filename template) and the note.
pub fn build_note(content: &str, config: &Config, title: Option<&str>, labels: &[String], now: Timestamp) -> (r: Result<Option<(String, Note)>, TemplateError>)
    requires
        now.valid(),
    ensures
        trim(content@).len() == 0 ==> r matches Ok(None),
        trim(content@).len() > 0 ==> {
            let t = chosen_title(opt_str(title), trim(content@));
            match note_path_spec(filename_template(*config), t, strings_model(labels@), config.note.meta@, now) {
                Ok(p) => r matches Ok(Some((path, note))) && path@ == p
                    && assembled(note, p, t, trim(content@), config.note.meta@, strings_model(labels@), now),
                Err(e) => r matches Err(err) && err@ == e,
            }
        },
        keys_unique(config.note.meta@) ==> (r matches Ok(Some((_, note))) ==> note.meta.wf()),
{
    let content = trim_str(content);
    if chars_of(content.as_str()).len() == 0 {
        return Ok(None);
    }
    let chosen = match title {
        Some(t) => {
            let tt = trim_str(t);
            if chars_of(tt.as_str()).len() > 0 {
                tt
            } else {
                title_from_content(content.as_str())
            }
        },
        None => title_from_content(content.as_str()),
    };
    let template = match &config.note.filename {
        Some(f) => copy_string(f.as_str()),
        None => copy_string(DEFAULT_FILENAME),
    };
    let path = note_path(template.as_str(), chosen.as_str(), labels, &config.note.meta, now)?;
    let path_copy = copy_string(path.as_str());
    let note = assemble_note(path_copy, chosen, content.as_str(), config, labels, now);
    Ok(Some((path, note)))
}

/// The commit message recording a new note: `Add note <path>`.
pub fn add_message(path: &str) -> (r: String)
    ensures
        r@ == "Add note "@ + path@,
{
    let mut out: Vec<char> = Vec::new();
    extend_str(&mut out, "Add note ");
    extend_str(&mut out, path);
    string_of(out.as_slice())
}

} // verus!
