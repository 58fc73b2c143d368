//! Cleaning piped standard input.
use vstd::prelude::*;
use crate::text::{chars_of, trim, trim_str};

verus! {

/// Piped input trimmed, or `None` when nothing but whitespace was piped.
pub fn clean_stdin(raw: &str) -> (r: Option<String>)
    ensures
        match r {
            Some(s) => trim(raw@).len() > 0 && s@ == trim(raw@),
            None => trim(raw@).len() == 0,
        },
{
    let t = trim_str(raw);
    if chars_of(t.as_str()).len() == 0 {
        None
    } else {
        Some(t)
    }
}

} // verus!
