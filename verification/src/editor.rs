//! Choosing the editor and the command line that runs it.
use vstd::prelude::*;
use crate::note::strings_model;
use crate::text::{chars_of, string_of, trim, trim_str};

verus! {

/// The editor setting in effect: `$VISUAL` if it holds more than
/// whitespace, else `$EDITOR` if it does, trimmed.
pub open spec fn editor_command_spec(visual: Option<Seq<char>>, editor: Option<Seq<char>>) -> Option<Seq<char>> {
    match visual {
        Some(v) if trim(v).len() > 0 => Some(trim(v)),
        _ => match editor {
            Some(e) if trim(e).len() > 0 => Some(trim(e)),
            _ => None,
        },
    }
}

/// The characters of an optional string.
pub open spec fn opt_view(value: Option<&str>) -> Option<Seq<char>> {
    match value {
        Some(v) => Some(v@),
        None => None,
    }
}

fn setting(value: Option<&str>) -> (r: Option<String>)
    ensures
        match value {
            Some(v) if trim(v@).len() > 0 => r matches Some(s) && s@ == trim(v@),
            _ => r is None,
        },
{
    match value {
        Some(v) => {
            let t = trim_str(v);
            if chars_of(t.as_str()).len() > 0 { Some(t) } else { None }
        },
        None => None,
    }
}

/// The editor to run, from the values of `$VISUAL` and `$EDITOR` (each
/// `None` when unset).
pub fn editor_command(visual: Option<&str>, editor: Option<&str>) -> (r: Option<String>)
    ensures
        match r {
            Some(s) => editor_command_spec(opt_view(visual), opt_view(editor)) == Some(s@),
            None => editor_command_spec(opt_view(visual), opt_view(editor)) is None,
        },
{
    match setting(visual) {
        Some(v) => Some(v),
        None => setting(editor),
    }
}

/// The pieces of `s` between the occurrences of `sep`, as `str::split`
/// gives them (always at least one).
pub open spec fn split_on(s: Seq<char>, sep: char) -> Seq<Seq<char>>
    decreases s.len(),
{
    if s.len() == 0 {
        seq![seq![]]
    } else {
        let prev = split_on(s.drop_last(), sep);
        if s.last() == sep {
            prev.push(seq![])
        } else {
            prev.update(prev.len() - 1, prev.last().push(s.last()))
        }
    }
}

proof fn lemma_split_on_nonempty(s: Seq<char>, sep: char)
    ensures
        split_on(s, sep).len() >= 1,
    decreases s.len(),
{
    if s.len() > 0 {
        lemma_split_on_nonempty(s.drop_last(), sep);
    }
}

/// The editor command split at each space: the program first, then its
/// arguments; the file to edit goes after them.
pub fn editor_argv(command: &str) -> (r: Vec<String>)
    ensures
        strings_model(r@) == split_on(command@, ' '),
{
    let cs = chars_of(command);
    let mut pieces: Vec<String> = Vec::new();
    let mut cur: Vec<char> = Vec::new();
    let mut i: usize = 0;
    while i < cs.len()
        invariant
            i <= cs@.len(),
            cs@ == command@,
            strings_model(pieces@).push(cur@) == split_on(cs@.take(i as int), ' '),
        decreases cs.len() - i,
    {
        let ghost prev = strings_model(pieces@).push(cur@);
        proof {
            assert(cs@.take(i + 1).drop_last() =~= cs@.take(i as int));
            assert(cs@.take(i + 1).last() == cs@[i as int]);
        }
        if cs[i] == ' ' {
            let done = string_of(cur.as_slice());
            pieces.push(done);
            cur = Vec::new();
            proof {
                assert(strings_model(pieces@).push(cur@) =~= prev.push(seq![]));
            }
        } else {
            cur.push(cs[i]);
            proof {
                assert(strings_model(pieces@).push(cur@) =~= prev.update(prev.len() - 1, prev.last().push(cs@[i as int])));
            }
        }
        i = i + 1;
    }
    proof {
        assert(cs@.take(cs@.len() as int) =~= cs@);
    }
    let last = string_of(cur.as_slice());
    pieces.push(last);
    pieces
}

} // verus!
