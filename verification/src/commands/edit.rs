//! Editing an existing note's body.
use vstd::prelude::*;
use crate::note::Note;
use crate::text::{chars_of, extend_str, string_of, trim, trim_str};
use crate::timestamp::Timestamp;

verus! {

/// What saving `content` into `old` yields: `None` for blank content (the
/// note is left unchanged); otherwise the note with the trimmed content plus
/// a newline as its body and `updated` set to `now`, everything else kept.
pub open spec fn edited(old: Note, content: Seq<char>, now: Timestamp, new: Option<Note>) -> bool {
    if trim(content).len() == 0 {
        new is None
    } else {
        new matches Some(n) && {
            &&& n.content@ == trim(content).push('\n')
            &&& n.meta.updated == now
            &&& n.meta.title == old.meta.title
            &&& n.meta.path == old.meta.path
            &&& n.meta.labels == old.meta.labels
            &&& n.meta.created == old.meta.created
            &&& n.meta.extra == old.meta.extra
        }
    }
}

/// Write `content` back into an existing note, setting `updated` to `now` and
/// leaving `created`, `title`, `path`, `labels`, and extra metadata untouched.
/// Returns `None` when the content is empty.
pub fn edit_note(note: Note, content: &str, now: Timestamp) -> (r: Option<Note>)
    ensures
        edited(note, content@, now, r),
{
    let trimmed = trim_str(content);
    let mut body = chars_of(trimmed.as_str());
    if body.len() == 0 {
        return None;
    }
    body.push('\n');
    let mut note = note;
    note.content = string_of(body.as_slice());
    note.meta.updated = now;
    Some(note)
}

/// The commit message recording an edited note: `Update note <path>`.
pub fn update_message(path: &str) -> (r: String)
    ensures
        r@ == "Update note "@ + path@,
{
    let mut out: Vec<char> = Vec::new();
    extend_str(&mut out, "Update note ");
    extend_str(&mut out, path);
    string_of(out.as_slice())
}

} // verus!
