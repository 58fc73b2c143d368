//! Tables drawn by the tabled crate, built one setting at a time. The drawing
//! itself is tabled's; which settings a table gets is decided by the callers.
use vstd::prelude::*;
use tabled::builder::Builder;
use tabled::settings::object::{Columns, Rows};
use tabled::settings::style::{HorizontalLine, VerticalLine};
use tabled::settings::{Alignment, Color, Modify, Style, Width};

verus! {

/// The tabled table, carried opaquely between the settings applied to it.
#[verifier::external_type_specification]
#[verifier::external_body]
pub struct ExTable(tabled::Table);

/// One step in building a table.
pub enum TableOp {
    /// Built from these rows of cell texts, the first row the header.
    Rows(Seq<Seq<Seq<char>>>),
    /// Modern box style without vertical rules and with a double rule
    /// (`╞…╡`) under the header row.
    HeaderRuleStyle,
    /// Modern box style without horizontal rules and with a double divider
    /// (`╥…╨`) after the first column.
    KeyColumnStyle,
    /// The cells of a column aligned left.
    AlignLeft(nat),
    /// The cells of a column centred.
    AlignCenter(nat),
    /// The cells of a column aligned right.
    AlignRight(nat),
    /// The first row bold.
    BoldFirstRow,
    /// The first column bold.
    BoldFirstColumn,
    /// Wrapped at word boundaries to this many columns.
    WrapWords(nat),
    /// Widened to at least this many columns.
    Widen(nat),
}

/// The settings a tabled table has been given, in order, starting with the
/// rows it was built from.
pub uninterp spec fn spec_table_ops(table: tabled::Table) -> Seq<TableOp>;

/// What tabled draws for a table built with these settings.
pub uninterp spec fn spec_table_text(ops: Seq<TableOp>) -> Seq<char>;

/// The cell texts of a table, row by row.
pub open spec fn grid_model(rows: Seq<Vec<String>>) -> Seq<Seq<Seq<char>>> {
    rows.map_values(|row: Vec<String>| row@.map_values(|c: String| c@))
}

/// `tabled::builder::Builder::from_iter(rows).build()`.
#[verifier::external_body]
pub(crate) fn table_of_rows(rows: &Vec<Vec<String>>) -> (t: tabled::Table)
    ensures
        spec_table_ops(t) == seq![TableOp::Rows(grid_model(rows@))],
{
    Builder::from_iter(rows.iter().cloned()).build()
}

/// `Table::with` of `Style::modern()` without vertical rules and with an
/// extended-style line, `╞`/`╡` ended and without intersections, under the
/// header.
#[verifier::external_body]
pub(crate) fn header_rule_style(t: &mut tabled::Table)
    ensures
        spec_table_ops(*final(t)) == spec_table_ops(*old(t)).push(TableOp::HeaderRuleStyle),
{
    let rule = HorizontalLine::inherit(Style::extended()).remove_intersection().left('╞').right('╡');
    t.with(Style::modern().remove_vertical().horizontals([(1, rule)]));
}

/// `Table::with` of `Style::modern()` without horizontal rules and with an
/// extended-style line, `╥`/`╨` ended and without intersections, after the
/// first column.
#[verifier::external_body]
pub(crate) fn key_column_style(t: &mut tabled::Table)
    ensures
        spec_table_ops(*final(t)) == spec_table_ops(*old(t)).push(TableOp::KeyColumnStyle),
{
    let divider = VerticalLine::inherit(Style::extended()).remove_intersection().top('╥').bottom('╨');
    t.with(Style::modern().remove_horizontal().verticals([(1, divider)]));
}

/// `Table::with(Modify::new(Columns::one(column)).with(Alignment::left()))`.
#[verifier::external_body]
pub(crate) fn align_left(t: &mut tabled::Table, column: usize)
    ensures
        spec_table_ops(*final(t)) == spec_table_ops(*old(t)).push(TableOp::AlignLeft(column as nat)),
{
    t.with(Modify::new(Columns::one(column)).with(Alignment::left()));
}

/// `Table::with(Modify::new(Columns::one(column)).with(Alignment::center()))`.
#[verifier::external_body]
pub(crate) fn align_center(t: &mut tabled::Table, column: usize)
    ensures
        spec_table_ops(*final(t)) == spec_table_ops(*old(t)).push(TableOp::AlignCenter(column as nat)),
{
    t.with(Modify::new(Columns::one(column)).with(Alignment::center()));
}

/// `Table::with(Modify::new(Columns::one(column)).with(Alignment::right()))`.
#[verifier::external_body]
pub(crate) fn align_right(t: &mut tabled::Table, column: usize)
    ensures
        spec_table_ops(*final(t)) == spec_table_ops(*old(t)).push(TableOp::AlignRight(column as nat)),
{
    t.with(Modify::new(Columns::one(column)).with(Alignment::right()));
}

/// `Table::with(Modify::new(Rows::first()).with(Color::BOLD))`.
#[verifier::external_body]
pub(crate) fn bold_first_row(t: &mut tabled::Table)
    ensures
        spec_table_ops(*final(t)) == spec_table_ops(*old(t)).push(TableOp::BoldFirstRow),
{
    t.with(Modify::new(Rows::first()).with(Color::BOLD));
}

/// `Table::with(Modify::new(Columns::first()).with(Color::BOLD))`.
#[verifier::external_body]
pub(crate) fn bold_first_column(t: &mut tabled::Table)
    ensures
        spec_table_ops(*final(t)) == spec_table_ops(*old(t)).push(TableOp::BoldFirstColumn),
{
    t.with(Modify::new(Columns::first()).with(Color::BOLD));
}

/// `Table::with(Width::wrap(width).keep_words(true))`.
#[verifier::external_body]
pub(crate) fn wrap_words(t: &mut tabled::Table, width: usize)
    ensures
        spec_table_ops(*final(t)) == spec_table_ops(*old(t)).push(TableOp::WrapWords(width as nat)),
{
    t.with(Width::wrap(width).keep_words(true));
}

/// `Table::with(Width::increase(width))`.
#[verifier::external_body]
pub(crate) fn widen(t: &mut tabled::Table, width: usize)
    ensures
        spec_table_ops(*final(t)) == spec_table_ops(*old(t)).push(TableOp::Widen(width as nat)),
{
    t.with(Width::increase(width));
}

/// `Table::to_string`: the drawing of the table.
#[verifier::external_body]
pub(crate) fn table_text(t: &tabled::Table) -> (r: String)
    ensures
        r@ == spec_table_text(spec_table_ops(*t)),
{
    t.to_string()
}

} // verus!
