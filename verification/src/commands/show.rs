//! Showing a single note.
use vstd::prelude::*;
use crate::output::TableWidth;

verus! {

/// The effective wrap width: the smaller of the available width and a
/// configured cap (itself at least 1), or the full available width when no
/// cap is set.
pub open spec fn cap_width_spec(available: nat, max_width: Option<usize>) -> nat {
    match max_width {
        Some(cap) => {
            let c: nat = if cap < 1 { 1 } else { cap as nat };
            if available < c { available } else { c }
        },
        None => available,
    }
}

/// The effective wrap width: the smaller of the available width and a configured
/// cap, or the full available width when no cap is set.
pub fn cap_width(available: usize, max_width: Option<usize>) -> (r: usize)
    ensures
        r == cap_width_spec(available as nat, max_width),
{
    match max_width {
        Some(cap) => {
            let c = if cap < 1 { 1 } else { cap };
            if available < c { available } else { c }
        },
        None => available,
    }
}

/// How `show` sizes its output: capped to the available width; a fixed
/// table width when `note.max_width` is set, else shrink-to-fit.
pub fn show_table_width(available: usize, max_width: Option<usize>) -> (r: TableWidth)
    ensures
        r == match max_width {
            Some(_) => TableWidth::Fixed(cap_width_spec(available as nat, max_width) as usize),
            None => TableWidth::Fit(available),
        },
{
    let width = cap_width(available, max_width);
    match max_width {
        Some(_) => TableWidth::Fixed(width),
        None => TableWidth::Fit(width),
    }
}

} // verus!
