//! Points in time with a fixed UTC offset, and their strftime formatting.
use vstd::prelude::*;
use std::fmt::Write;

verus! {

/// An instant (seconds and nanoseconds since the Unix epoch, UTC) together
/// with the UTC offset, in seconds east, that it is displayed in.
#[derive(Clone, Copy, PartialEq, Eq, Structural, Debug)]
pub struct Timestamp {
    pub secs: i64,
    pub nanos: u32,
    pub offset: i32,
}

impl Timestamp {
    /// A timestamp chrono can hold: an offset of less than a day either way,
    /// an instant from the first day of the year -262143 to the last of the
    /// year 262142 (UTC), and nanoseconds below one second (below two in the
    /// last second of a minute, a leap second).
    pub open spec fn valid(self) -> bool {
        &&& -86_400 < self.offset < 86_400
        &&& -8_334_601_315_200 <= self.secs <= 8_210_266_876_799
        &&& (self.nanos < 1_000_000_000 || (self.nanos < 2_000_000_000 && self.secs % 60 == 59))
    }
}

/// What chrono's strftime-style formatting makes of `ts` with `format`, or
/// `None` when chrono refuses the format.
pub uninterp spec fn spec_format_timestamp(ts: Timestamp, format: Seq<char>) -> Option<Seq<char>>;

/// `chrono::DateTime::format_with_items` on the `StrftimeItems` of `format`,
/// refusing a format in which chrono finds an `Item::Error`. For a valid
/// timestamp chrono builds the date (`FixedOffset::east_opt`,
/// `DateTime::from_timestamp`), so `None` comes only from the format. The
/// contract claims only that the result is a fixed function of `ts` and
/// `format`.
#[verifier::external_body]
pub fn format_timestamp(ts: Timestamp, format: &str) -> (r: Option<String>)
    requires
        ts.valid(),
    ensures
        match r {
            Some(s) => spec_format_timestamp(ts, format@) == Some(s@),
            None => spec_format_timestamp(ts, format@) is None,
        },
{
    let zone = chrono::FixedOffset::east_opt(ts.offset)?;
    let when = chrono::DateTime::from_timestamp(ts.secs, ts.nanos)?.with_timezone(&zone);
    let items: Vec<chrono::format::Item> = chrono::format::StrftimeItems::new(format).collect();
    if items.iter().any(|item| matches!(item, chrono::format::Item::Error)) {
        return None;
    }
    let mut out = String::new();
    write!(out, "{}", when.format_with_items(items.iter())).ok()?;
    Some(out)
}

} // verus!
