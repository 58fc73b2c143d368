//! Today's daily note: where it lives, what it is called, how piped input
//! is added to it, and what to do when it already exists.
use vstd::prelude::*;
use crate::commands::create::{assemble_note, assembled, clean_labels};
use crate::commands::edit::{edit_note, edited};
use crate::config::{Config, keys_unique};
use crate::note::{
    Note, DEFAULT_DAILY_FILENAME, DEFAULT_DAILY_LABEL, DEFAULT_DAILY_TITLE, note_path, note_path_spec, render_title,
    strings_model, title_bindings,
};
use crate::template::{Sanitize, TemplateError, TemplateErrorModel, render_spec};
use crate::text::{chars_of, string_of, extend_chars, extend_str, trim, trim_end, trim_str, trim_end_vec, str_eq};
use crate::timestamp::Timestamp;

verus! {

/// The label every daily note carries: `note.daily_label`, else `daily`.
pub open spec fn daily_label_spec(config: Config) -> Seq<char> {
    match config.note.daily_label {
        Some(l) => l@,
        None => DEFAULT_DAILY_LABEL@,
    }
}

fn copy_str(s: &str) -> (r: String)
    ensures
        r@ == s@,
{
    string_of(chars_of(s).as_slice())
}

/// The label every daily note carries, from `note.daily_label` (default `daily`).
pub fn daily_label(config: &Config) -> (r: String)
    ensures
        r@ == daily_label_spec(*config),
{
    match &config.note.daily_label {
        Some(l) => copy_str(l.as_str()),
        None => copy_str(DEFAULT_DAILY_LABEL),
    }
}

/// The title template of a daily note: `note.daily_title`, else the default.
pub open spec fn daily_title_template(config: Config) -> Seq<char> {
    match config.note.daily_title {
        Some(t) => t@,
        None => DEFAULT_DAILY_TITLE@,
    }
}

/// The title of a new daily note.
pub open spec fn daily_title_spec(config: Config, now: Timestamp) -> Result<Seq<char>, TemplateErrorModel> {
    render_spec(daily_title_template(config), title_bindings(config.note.meta@, now), Sanitize::Raw)
}

/// The title for a new daily note, from `note.daily_title` (default
/// `Daily note for {created:%Y-%m-%d}`).
pub fn daily_title(config: &Config, now: Timestamp) -> (r: Result<String, TemplateError>)
    requires
        now.valid(),
    ensures
        match r {
            Ok(s) => daily_title_spec(*config, now) == Ok::<Seq<char>, TemplateErrorModel>(s@),
            Err(e) => daily_title_spec(*config, now) == Err::<Seq<char>, TemplateErrorModel>(e@),
        },
{
    let template = match &config.note.daily_title {
        Some(t) => copy_str(t.as_str()),
        None => copy_str(DEFAULT_DAILY_TITLE),
    };
    render_title(template.as_str(), &config.note.meta, now)
}

/// The filename template of a daily note.
pub open spec fn daily_filename_template(config: Config) -> Seq<char> {
    match config.note.daily_filename {
        Some(t) => t@,
        None => DEFAULT_DAILY_FILENAME@,
    }
}

/// Today's daily-note path: the daily filename template, in which `{title}`
/// and `{labels}` are the daily note's own title and label.
pub open spec fn daily_path_spec(config: Config, now: Timestamp) -> Result<Seq<char>, TemplateErrorModel> {
    match daily_title_spec(config, now) {
        Err(e) => Err(e),
        Ok(title) => note_path_spec(daily_filename_template(config), title, seq![daily_label_spec(config)], config.note.meta@, now),
    }
}

/// Today's daily-note path from `note.daily_filename` (default `{created:%Y/%m/%d}`).
/// `{title}` and `{labels}` resolve to the daily note's own title and label —
/// both derived from config + date, so the path stays stable per day regardless
/// of any `--title`/`--label` given.
pub fn daily_path(config: &Config, now: Timestamp) -> (r: Result<String, TemplateError>)
    requires
        now.valid(),
    ensures
        match r {
            Ok(s) => daily_path_spec(*config, now) == Ok::<Seq<char>, TemplateErrorModel>(s@),
            Err(e) => daily_path_spec(*config, now) == Err::<Seq<char>, TemplateErrorModel>(e@),
        },
{
    let template = match &config.note.daily_filename {
        Some(t) => copy_str(t.as_str()),
        None => copy_str(DEFAULT_DAILY_FILENAME),
    };
    let title = daily_title(config, now)?;
    let mut labels: Vec<String> = Vec::new();
    labels.push(daily_label(config));
    proof {
        assert(strings_model(labels@) =~= seq![daily_label_spec(*config)]);
    }
    note_path(template.as_str(), title.as_str(), labels.as_slice(), &config.note.meta, now)
}

/// `addition` appended below `existing`, separated by a blank line.
pub open spec fn append_body_spec(existing: Seq<char>, addition: Seq<char>) -> Seq<char> {
    trim_end(existing) + "\n\n"@ + trim(addition)
}

/// Append `addition` below `existing`, separated by a blank line.
pub fn append_body(existing: &str, addition: &str) -> (r: String)
    ensures
        r@ == append_body_spec(existing@, addition@),
{
    let mut out = trim_end_vec(&chars_of(existing));
    extend_str(&mut out, "\n\n");
    let t = trim_str(addition);
    extend_str(&mut out, t.as_str());
    string_of(out.as_slice())
}

/// `labels` with `label` added at the end unless some label already equals
/// it after trimming.
pub open spec fn with_daily_label(labels: Seq<Seq<char>>, label: Seq<char>) -> Seq<Seq<char>> {
    if exists|i: int| 0 <= i < labels.len() && trim(#[trigger] labels[i]) == label {
        labels
    } else {
        labels.push(label)
    }
}

/// Adding the daily label a second time changes nothing: a note carries it
/// once, however often it is saved (for a label without surrounding
/// whitespace, as configured labels are used).
pub proof fn law_daily_label_once(labels: Seq<Seq<char>>, label: Seq<char>)
    requires
        trim(label) == label,
    ensures
        with_daily_label(with_daily_label(labels, label), label) == with_daily_label(labels, label),
        exists|i: int| 0 <= i < with_daily_label(labels, label).len() && trim(#[trigger] with_daily_label(labels, label)[i]) == label,
{
    let once = with_daily_label(labels, label);
    if exists|i: int| 0 <= i < labels.len() && trim(#[trigger] labels[i]) == label {
        let i = choose|i: int| 0 <= i < labels.len() && trim(#[trigger] labels[i]) == label;
        assert(trim(once[i]) == label);
    } else {
        assert(once[labels.len() as int] == label);
        assert(trim(once[labels.len() as int]) == label);
    }
}

/// Ensure `label` is present in `labels`, without duplicating it.
pub fn add_daily_label(labels: &mut Vec<String>, label: &str)
    ensures
        strings_model(final(labels)@) == with_daily_label(strings_model(old(labels)@), label@),
{
    let ghost lm = strings_model(labels@);
    let mut i: usize = 0;
    while i < labels.len()
        invariant
            i <= labels@.len(),
            lm == strings_model(labels@),
            labels@ == old(labels)@,
            forall|k: int| 0 <= k < i ==> trim(#[trigger] lm[k]) != label@,
        decreases labels.len() - i,
    {
        let t = trim_str(labels[i].as_str());
        if str_eq(t.as_str(), label) {
            proof {
                assert(trim(lm[i as int]) == label@);
            }
            return;
        }
        i = i + 1;
    }
    labels.push(copy_str(label));
    proof {
        assert(strings_model(labels@) =~= lm.push(label@));
    }
}

/// Save an updated daily note: ensure the daily label is present, then apply
/// the edit (which refreshes `updated` and preserves `created`).
pub fn save_update(config: &Config, note: Note, body: &str, now: Timestamp) -> (r: Option<Note>)
    ensures
        match r {
            Some(n) => {
                &&& strings_model(n.meta.labels@) == with_daily_label(strings_model(note.meta.labels@), daily_label_spec(*config))
                &&& n.content@ == trim(body@).push('\n')
                &&& n.meta.updated == now
                &&& n.meta.created == note.meta.created
                &&& n.meta.title == note.meta.title
                &&& n.meta.path == note.meta.path
                &&& n.meta.extra == note.meta.extra
            },
            None => trim(body@).len() == 0,
        },
        trim(body@).len() > 0 ==> r is Some,
{
    let label = daily_label(config);
    let mut note = note;
    let ghost before = note;
    add_daily_label(&mut note.meta.labels, label.as_str());
    let ghost labelled = note;
    let r = edit_note(note, body, now);
    proof {
        assert(edited(labelled, body@, now, r));
    }
    r
}

/// Append `addition` to an existing daily note and save it (refreshing
/// `updated`, preserving `created`/title).
pub fn append_and_save(config: &Config, note: Note, addition: &str, now: Timestamp) -> (r: Option<Note>)
    ensures
        match r {
            Some(n) => {
                &&& strings_model(n.meta.labels@) == with_daily_label(strings_model(note.meta.labels@), daily_label_spec(*config))
                &&& n.content@ == trim(append_body_spec(note.content@, addition@)).push('\n')
                &&& n.meta.updated == now
                &&& n.meta.created == note.meta.created
                &&& n.meta.title == note.meta.title
                &&& n.meta.path == note.meta.path
                &&& n.meta.extra == note.meta.extra
            },
            None => trim(append_body_spec(note.content@, addition@)).len() == 0,
        },
{
    let body = append_body(note.content.as_str(), addition);
    save_update(config, note, body.as_str(), now)
}

/// Build a brand-new daily note at `path`: `None` when the content is blank;
/// otherwise titled by the given (non-blank, trimmed) title or the configured
/// daily title, and carrying the daily label in addition to `labels`.
pub fn save_new_daily(config: &Config, path: &str, content: &str, title: Option<&str>, labels: &[String], now: Timestamp) -> (r: Result<Option<Note>, TemplateError>)
    requires
        now.valid(),
    ensures
        trim(content@).len() == 0 ==> r matches Ok(None),
        trim(content@).len() > 0 ==> match title {
            Some(t) if trim(t@).len() > 0 => r matches Ok(Some(n)) && assembled(n, path@, trim(t@), trim(content@), config.note.meta@,
                with_daily_label(strings_model(labels@), daily_label_spec(*config)), now),
            _ => match daily_title_spec(*config, now) {
                Ok(dt) => r matches Ok(Some(n)) && assembled(n, path@, dt, trim(content@), config.note.meta@,
                    with_daily_label(strings_model(labels@), daily_label_spec(*config)), now),
                Err(e) => r matches Err(err) && err@ == e,
            },
        },
        keys_unique(config.note.meta@) ==> (r matches Ok(Some(n)) ==> n.meta.wf()),
{
    let content = trim_str(content);
    if chars_of(content.as_str()).len() == 0 {
        return Ok(None);
    }
    let given = match title {
        Some(t) => {
            let tt = trim_str(t);
            if chars_of(tt.as_str()).len() > 0 { Some(tt) } else { None }
        },
        None => None,
    };
    let title = match given {
        Some(t) => t,
        None => daily_title(config, now)?,
    };
    let mut all: Vec<String> = Vec::new();
    let mut i: usize = 0;
    while i < labels.len()
        invariant
            i <= labels@.len(),
            strings_model(all@) == strings_model(labels@).take(i as int),
        decreases labels.len() - i,
    {
        let ghost prev = all@;
        let c = copy_str(labels[i].as_str());
        all.push(c);
        proof {
            assert(all@ =~= prev.push(c));
            assert(strings_model(all@) =~= strings_model(prev).push(c@));
            assert(strings_model(labels@)[i as int] == labels@[i as int]@);
            assert(strings_model(labels@).take(i + 1) =~= strings_model(labels@).take(i as int).push(labels@[i as int]@));
        }
        i = i + 1;
    }
    assert(strings_model(labels@).take(labels@.len() as int) =~= strings_model(labels@));
    let label = daily_label(config);
    add_daily_label(&mut all, label.as_str());
    let note = assemble_note(copy_str(path), title, content.as_str(), config, all.as_slice(), now);
    Ok(Some(note))
}

/// What to do when today's daily note is opened.
#[derive(Debug)]
pub enum DailyPlan {
    /// Append the piped input to the existing note and save it.
    Append { addition: String },
    /// The note exists, nothing was piped and no editor is wanted.
    NothingToAdd,
    /// Open the existing note in the editor, pre-filled with this body.
    EditExisting { prefill: String },
    /// Create the note from this content without an editor.
    CreateFromInput { content: String },
    /// Create the note from what the editor returns, pre-filled with the
    /// piped input if any.
    CreateInEditor { prefill: Option<String> },
}

/// Decide what opening today's daily note does, given the existing note's
/// body (if the note exists), whether the editor is skipped, and any piped
/// input: piped input is appended to an existing note and becomes the body
/// of a new one.
pub fn plan_daily(existing: Option<&str>, no_edit: bool, input: Option<&str>) -> (r: DailyPlan)
    ensures
        match existing {
            Some(body) => if no_edit {
                match input {
                    Some(p) => r matches DailyPlan::Append { addition } && addition@ == p@,
                    None => r matches DailyPlan::NothingToAdd,
                }
            } else {
                match input {
                    Some(p) => r matches DailyPlan::EditExisting { prefill } && prefill@ == append_body_spec(body@, p@),
                    None => r matches DailyPlan::EditExisting { prefill } && prefill@ == body@,
                }
            },
            None => if no_edit {
                match input {
                    Some(p) => r matches DailyPlan::CreateFromInput { content } && content@ == p@,
                    None => r matches DailyPlan::CreateFromInput { content } && content@.len() == 0,
                }
            } else {
                match input {
                    Some(p) => r matches DailyPlan::CreateInEditor { prefill } && prefill matches Some(x) && x@ == p@,
                    None => r matches DailyPlan::CreateInEditor { prefill } && prefill is None,
                }
            },
        },
{
    match existing {
        Some(body) => {
            if no_edit {
                match input {
                    Some(p) => DailyPlan::Append { addition: copy_str(p) },
                    None => DailyPlan::NothingToAdd,
                }
            } else {
                match input {
                    Some(p) => DailyPlan::EditExisting { prefill: append_body(body, p) },
                    None => DailyPlan::EditExisting { prefill: copy_str(body) },
                }
            }
        },
        None => {
            if no_edit {
                match input {
                    Some(p) => DailyPlan::CreateFromInput { content: copy_str(p) },
                    None => {
                        let empty: Vec<char> = Vec::new();
                        DailyPlan::CreateFromInput { content: string_of(empty.as_slice()) }
                    },
                }
            } else {
                match input {
                    Some(p) => DailyPlan::CreateInEditor { prefill: Some(copy_str(p)) },
                    None => DailyPlan::CreateInEditor { prefill: None },
                }
            }
        },
    }
}

} // verus!
