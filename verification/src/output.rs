//! The human-readable views: a single note as a metadata table followed by
//! its body, and the note list as a table.
use vstd::prelude::*;
use crate::label::{
    LabelColor, LabelPalette, lemma_palette_after_len, palette_after, render_labels, render_labels_spec, visible_count,
};
use crate::md::MdAlign;
use crate::note::{Meta, MetaEntry, Note, meta_value_display, meta_value_display_spec, strings_model};
use crate::render::{render, render_spec, table_grid, table_grid_text};
use crate::table::{
    TableOp, bold_first_column, grid_model, key_column_style, spec_table_ops, spec_table_text, table_of_rows, table_text, widen,
    wrap_words,
};
use crate::text::{chars_of, string_of};
use crate::timestamp::Timestamp;

verus! {

/// How to size the metadata table (and the body wrap width) in `show` output.
#[derive(Debug, Clone, Copy, PartialEq, Eq, Structural)]
pub enum TableWidth {
    /// Shrink the table to its content, but never wider than this many
    /// columns. Used when no `note.max_width` is set: the bound is the
    /// terminal width.
    Fit(usize),
    /// Force the table to exactly this many columns. Used when
    /// `note.max_width` is set (already clamped to the terminal width).
    Fixed(usize),
}

impl TableWidth {
    /// The column budget shared by the body wrap width and the table target.
    pub open spec fn columns_spec(self) -> nat {
        match self {
            TableWidth::Fit(w) => w as nat,
            TableWidth::Fixed(w) => w as nat,
        }
    }

    /// The column budget shared by the body wrap width and the table target.
    pub fn columns(self) -> (r: usize)
        ensures
            r == self.columns_spec(),
    {
        match self {
            TableWidth::Fit(width) => width,
            TableWidth::Fixed(width) => width,
        }
    }
}

/// The instants that RFC 2822 can show: a valid offset and nanosecond, and
/// a local date in the years 0 to 9999 (chrono panics on any other).
pub open spec fn rfc2822_representable(ts: Timestamp) -> bool {
    &&& ts.nanos < 1_000_000_000
    &&& -86_400 < ts.offset < 86_400
    &&& -62_167_219_200 <= ts.secs + ts.offset < 253_402_300_800
}

/// What chrono's `DateTime::to_rfc2822` gives for `ts` in its own offset.
pub uninterp spec fn spec_rfc2822(ts: Timestamp) -> Seq<char>;

/// `chrono::DateTime::to_rfc2822` of `ts` shown in its offset. The contract
/// claims only that the text is a fixed function of `ts`.
#[verifier::external_body]
fn rfc2822(ts: Timestamp) -> (r: String)
    requires
        rfc2822_representable(ts),
    ensures
        r@ == spec_rfc2822(ts),
{
    let zone = chrono::FixedOffset::east_opt(ts.offset).unwrap();
    chrono::DateTime::from_timestamp(ts.secs, ts.nanos).unwrap().with_timezone(&zone).to_rfc2822()
}

/// The cell texts of a table, row by row.
pub open spec fn rows_model(rows: Seq<Vec<String>>) -> Seq<Seq<Seq<char>>> {
    rows.map_values(|r: Vec<String>| strings_model(r@))
}

/// The settings of the metadata table: the key/value rows, the key-column
/// style, bold keys when `color`, word wrapping to `width`, and when `fixed`
/// widening to `width`.
pub open spec fn meta_table_ops(rows: Seq<Seq<Seq<char>>>, width: nat, fixed: bool, color: bool) -> Seq<TableOp> {
    let styled = seq![TableOp::Rows(rows), TableOp::KeyColumnStyle];
    let bold = if color { styled.push(TableOp::BoldFirstColumn) } else { styled };
    let wrapped = bold.push(TableOp::WrapWords(width));
    if fixed { wrapped.push(TableOp::Widen(width)) } else { wrapped }
}

/// What tabled draws for the metadata table.
pub open spec fn meta_table_text(rows: Seq<Seq<Seq<char>>>, width: nat, fixed: bool, color: bool) -> Seq<char> {
    spec_table_text(meta_table_ops(rows, width, fixed, color))
}

/// The metadata table: modern style without horizontal rules, a double
/// divider (`╥…╨`) after the key column, bold keys when `color`, wrapped at
/// word boundaries to `width` and, when `fixed`, widened to it.
fn meta_table(rows: &Vec<Vec<String>>, width: usize, fixed: bool, color: bool) -> (r: String)
    ensures
        r@ == meta_table_text(rows_model(rows@), width as nat, fixed, color),
{
    let mut table = table_of_rows(rows);
    key_column_style(&mut table);
    if color {
        bold_first_column(&mut table);
    }
    wrap_words(&mut table, width);
    if fixed {
        widen(&mut table, width);
    }
    proof {
        lemma_rows_model(rows@);
    }
    assert(spec_table_ops(table) =~= meta_table_ops(rows_model(rows@), width as nat, fixed, color));
    table_text(&table)
}

/// The two ways of reading the cells of a table agree.
proof fn lemma_rows_model(rows: Seq<Vec<String>>)
    ensures
        grid_model(rows) == rows_model(rows),
{
    let grid = grid_model(rows);
    assert forall|k: int| 0 <= k < grid.len() implies grid[k] == rows_model(rows)[k] by {
        assert(grid[k] =~= strings_model(rows[k]@));
    }
    assert(grid =~= rows_model(rows));
}

/// The rows for the extra frontmatter keys.
pub open spec fn extra_rows(extra: Seq<MetaEntry>) -> Seq<Seq<Seq<char>>> {
    extra.map_values(|e: MetaEntry| seq![e.key@, meta_value_display_spec(e.value)])
}

/// The metadata table of a note: title, path, created, updated, the labels
/// (all of them, as chips when `color`) when there are any, then every
/// extra key.
pub open spec fn meta_rows_spec(meta: Meta, color: bool, colors: Seq<LabelColor>) -> Seq<Seq<Seq<char>>> {
    let base = seq![
        seq!["title"@, meta.title@],
        seq!["path"@, meta.path@],
        seq!["created"@, spec_rfc2822(meta.created)],
        seq!["updated"@, spec_rfc2822(meta.updated)],
    ];
    let labels = strings_model(meta.labels@);
    let with_labels = if labels.len() > 0 {
        base.push(seq!["labels"@, render_labels_spec(labels, usize::MAX as nat, seq![], color, colors)])
    } else {
        base
    };
    with_labels + extra_rows(meta.extra@)
}

/// The keys of the rows the metadata table always has.
pub open spec fn reserved_key(k: Seq<char>) -> bool {
    k == "title"@ || k == "path"@ || k == "created"@ || k == "updated"@ || k == "labels"@
}

/// Every row of the metadata table pairs a key with the value of that key:
/// the row keyed `title` shows the title, `path` the path, `created` the
/// RFC 2822 form of the creation time and `updated` that of the update
/// time; each of these rows is there. (The frontmatter's extra keys never
/// reuse these names.)
pub proof fn law_meta_rows_line_up(meta: Meta, color: bool, colors: Seq<LabelColor>)
    requires
        forall|k: int| 0 <= k < meta.extra@.len() ==> !reserved_key(#[trigger] meta.extra@[k].key@),
    ensures
        forall|k: int| 0 <= k < meta_rows_spec(meta, color, colors).len() ==> {
            let row = #[trigger] meta_rows_spec(meta, color, colors)[k];
            &&& row.len() == 2
            &&& row[0] == "title"@ ==> row[1] == meta.title@
            &&& row[0] == "path"@ ==> row[1] == meta.path@
            &&& row[0] == "created"@ ==> row[1] == spec_rfc2822(meta.created)
            &&& row[0] == "updated"@ ==> row[1] == spec_rfc2822(meta.updated)
        },
        exists|k: int| 0 <= k < meta_rows_spec(meta, color, colors).len() && #[trigger] meta_rows_spec(meta, color, colors)[k][0] == "title"@,
        exists|k: int| 0 <= k < meta_rows_spec(meta, color, colors).len() && #[trigger] meta_rows_spec(meta, color, colors)[k][0] == "path"@,
        exists|k: int| 0 <= k < meta_rows_spec(meta, color, colors).len() && #[trigger] meta_rows_spec(meta, color, colors)[k][0] == "created"@,
        exists|k: int| 0 <= k < meta_rows_spec(meta, color, colors).len() && #[trigger] meta_rows_spec(meta, color, colors)[k][0] == "updated"@,
{
    reveal_strlit("title");
    reveal_strlit("path");
    reveal_strlit("created");
    reveal_strlit("updated");
    reveal_strlit("labels");
    assert("created"@ != "updated"@) by {
        assert("created"@[0] != "updated"@[0]);
    }
    assert("title"@ != "path"@ && "title"@ != "created"@ && "title"@ != "updated"@ && "title"@ != "labels"@) by {
        assert("title"@.len() != "path"@.len());
        assert("title"@.len() != "created"@.len());
        assert("title"@.len() != "updated"@.len());
        assert("title"@.len() != "labels"@.len());
    }
    assert("path"@ != "created"@ && "path"@ != "updated"@ && "path"@ != "labels"@) by {
        assert("path"@.len() != "created"@.len());
        assert("path"@.len() != "labels"@.len());
    }
    assert("labels"@ != "created"@ && "labels"@ != "updated"@) by {
        assert("labels"@.len() != "created"@.len());
    }
    let rows = meta_rows_spec(meta, color, colors);
    let labels = strings_model(meta.labels@);
    let base = seq![
        seq!["title"@, meta.title@],
        seq!["path"@, meta.path@],
        seq!["created"@, spec_rfc2822(meta.created)],
        seq!["updated"@, spec_rfc2822(meta.updated)],
    ];
    let with_labels = if labels.len() > 0 {
        base.push(seq!["labels"@, render_labels_spec(labels, usize::MAX as nat, seq![], color, colors)])
    } else {
        base
    };
    let ex = extra_rows(meta.extra@);
    assert(rows == with_labels + ex);
    assert forall|k: int| 0 <= k < rows.len() implies {
        let row = #[trigger] rows[k];
        &&& row.len() == 2
        &&& row[0] == "title"@ ==> row[1] == meta.title@
        &&& row[0] == "path"@ ==> row[1] == meta.path@
        &&& row[0] == "created"@ ==> row[1] == spec_rfc2822(meta.created)
        &&& row[0] == "updated"@ ==> row[1] == spec_rfc2822(meta.updated)
    } by {
        if k < with_labels.len() {
            assert(rows[k] == with_labels[k]);
            if k < 4 {
                assert(with_labels[k] == base[k]);
            }
        } else {
            let e = meta.extra@[k - with_labels.len()];
            assert(rows[k] == ex[k - with_labels.len()]);
            assert(ex[k - with_labels.len()] == seq![e.key@, meta_value_display_spec(e.value)]);
            assert(!reserved_key(e.key@));
        }
    }
    assert(rows[0] == base[0] && rows[1] == base[1] && rows[2] == base[2] && rows[3] == base[3]);
}

/// A note as its metadata table, a blank line, and its body: rendered
/// Markdown wrapped to the width when `color`, else the raw source.
pub open spec fn render_note_human_spec(note: Note, table_width: TableWidth, color: bool, colors: Seq<LabelColor>) -> Seq<char> {
    let width = table_width.columns_spec();
    let table = meta_table_text(meta_rows_spec(note.meta, color, colors), width, table_width is Fixed, color);
    let body = if color { render_spec(note.content@, width, true) } else { note.content@ };
    table + "\n\n"@ + body
}

fn copy(s: &String) -> (r: String)
    ensures
        r@ == s@,
{
    string_of(chars_of(s.as_str()).as_slice())
}

fn pair(key: &str, value: String) -> (r: Vec<String>)
    ensures
        strings_model(r@) == seq![key@, value@],
{
    let mut row: Vec<String> = Vec::new();
    row.push(string_of(chars_of(key).as_slice()));
    row.push(value);
    assert(strings_model(row@) =~= seq![key@, value@]);
    row
}

/// Render a single note as a metadata table followed by its content. `color`
/// enables ANSI-colored label chips and a rendered Markdown body (disable for
/// non-terminal output, where the raw Markdown source is emitted instead).
/// `table_width` sets the column budget: the body always wraps to that
/// width, and the metadata table either shrinks-to-fit within it
/// ([`TableWidth::Fit`]) or is forced to exactly it ([`TableWidth::Fixed`]).
/// `colors[i]` is the chip color of the `i`-th distinct label.
#[verifier::spinoff_prover]
pub fn render_note_human(note: &Note, table_width: TableWidth, color: bool, colors: &[LabelColor]) -> (r: String)
    requires
        rfc2822_representable(note.meta.created),
        rfc2822_representable(note.meta.updated),
        note.meta.labels@.len() <= colors@.len(),
    ensures
        r@ == render_note_human_spec(*note, table_width, color, colors@),
{
    let width = table_width.columns();
    let mut rows: Vec<Vec<String>> = Vec::new();
    rows.push(pair("title", copy(&note.meta.title)));
    rows.push(pair("path", copy(&note.meta.path)));
    rows.push(pair("created", rfc2822(note.meta.created)));
    rows.push(pair("updated", rfc2822(note.meta.updated)));
    let ghost base = rows_model(rows@);
    assert(base =~= seq![
        seq!["title"@, note.meta.title@],
        seq!["path"@, note.meta.path@],
        seq!["created"@, spec_rfc2822(note.meta.created)],
        seq!["updated"@, spec_rfc2822(note.meta.updated)],
    ]);
    if note.meta.labels.len() > 0 {
        let mut palette = LabelPalette::new();
        let cell = render_labels(note.meta.labels.as_slice(), usize::MAX, &mut palette, color, colors);
        rows.push(pair("labels", cell));
        proof {
            assert(rows_model(rows@) =~= base.push(rows_model(rows@).last()));
        }
    }
    let ghost head = rows_model(rows@);
    proof {
        let labels = strings_model(note.meta.labels@);
        assert(head == if labels.len() > 0 {
            base.push(seq!["labels"@, render_labels_spec(labels, usize::MAX as nat, seq![], color, colors@)])
        } else {
            base
        });
    }
    let mut i: usize = 0;
    while i < note.meta.extra.len()
        invariant
            i <= note.meta.extra@.len(),
            rows_model(rows@) == head + extra_rows(note.meta.extra@.take(i as int)),
        decreases note.meta.extra.len() - i,
    {
        let e = &note.meta.extra[i];
        let ghost prev = rows_model(rows@);
        rows.push(pair(e.key.as_str(), meta_value_display(&e.value)));
        proof {
            assert(rows_model(rows@) =~= prev.push(seq![e.key@, meta_value_display_spec(e.value)]));
            assert(extra_rows(note.meta.extra@.take(i + 1)) =~= extra_rows(note.meta.extra@.take(i as int)).push(
                seq![e.key@, meta_value_display_spec(e.value)],
            ));
        }
        i = i + 1;
    }
    proof {
        assert(note.meta.extra@.take(note.meta.extra@.len() as int) =~= note.meta.extra@);
        assert(rows_model(rows@) == meta_rows_spec(note.meta, color, colors@));
    }
    let fixed = match table_width {
        TableWidth::Fixed(_) => true,
        TableWidth::Fit(_) => false,
    };
    let table = meta_table(&rows, width, fixed, color);
    let body = if color { render(note.content.as_str(), width, true) } else { copy(&note.content) };
    assert(fixed == (table_width is Fixed));
    let mut out = chars_of(table.as_str());
    crate::text::extend_str(&mut out, "\n\n");
    crate::text::extend_str(&mut out, body.as_str());
    string_of(out.as_slice())
}

/// A note's labels.
pub open spec fn note_labels(n: Note) -> Seq<Seq<char>> {
    strings_model(n.meta.labels@)
}

/// How many labels the first `n` notes carry in all.
pub open spec fn label_total(notes: Seq<Note>) -> nat
    decreases notes.len(),
{
    if notes.len() == 0 {
        0
    } else {
        label_total(notes.drop_last()) + notes.last().meta.labels@.len()
    }
}

proof fn lemma_label_total_take(notes: Seq<Note>, i: int)
    requires
        0 <= i <= notes.len(),
    ensures
        label_total(notes.take(i)) <= label_total(notes),
    decreases notes.len() - i,
{
    if i < notes.len() {
        lemma_label_total_take(notes, i + 1);
        assert(notes.take(i + 1).drop_last() =~= notes.take(i));
    } else {
        assert(notes.take(i) =~= notes);
    }
}

/// The labels seen after rendering the label cells of the first `i` notes
/// of a list, each showing at most `max_visible`.
pub open spec fn list_seen(notes: Seq<Note>, max_visible: nat, i: int) -> Seq<Seq<char>>
    decreases i,
{
    if i <= 0 {
        seq![]
    } else {
        let labels = note_labels(notes[i - 1]);
        palette_after(list_seen(notes, max_visible, i - 1), labels.take(visible_count(labels.len(), max_visible) as int))
    }
}

/// One list row: path, title, the label cell (one palette shared by the
/// whole list), and the updated time.
pub open spec fn list_row(notes: Seq<Note>, max_visible: nat, color: bool, colors: Seq<LabelColor>, i: int) -> Seq<Seq<char>> {
    let n = notes[i];
    seq![
        n.meta.path@,
        n.meta.title@,
        render_labels_spec(note_labels(n), max_visible, list_seen(notes, max_visible, i), color, colors),
        spec_rfc2822(n.meta.updated),
    ]
}

/// The list table: a header row, then one row per note.
pub open spec fn list_rows_spec(notes: Seq<Note>, max_visible: nat, color: bool, colors: Seq<LabelColor>) -> Seq<Seq<Seq<char>>> {
    seq![seq!["path"@, "title"@, "labels"@, "updated"@]]
        + Seq::new(notes.len(), |i: int| list_row(notes, max_visible, color, colors, i))
}

/// Every row of the list lines up with the header: for each note, the cell
/// under `path` is the note's path, under `title` its title and under
/// `updated` the RFC 2822 form of its update time; the notes come in the
/// order given, one row each, after the header.
pub proof fn law_list_rows_line_up(notes: Seq<Note>, max_visible: nat, color: bool, colors: Seq<LabelColor>)
    ensures
        list_rows_spec(notes, max_visible, color, colors).len() == notes.len() + 1,
        forall|r: int| 1 <= r < list_rows_spec(notes, max_visible, color, colors).len()
            ==> (#[trigger] list_rows_spec(notes, max_visible, color, colors)[r]).len() == list_rows_spec(notes, max_visible, color, colors)[0].len(),
        forall|r: int, c: int| 1 <= r < list_rows_spec(notes, max_visible, color, colors).len() && 0 <= c < list_rows_spec(notes, max_visible, color, colors)[0].len() ==> {
            let header = list_rows_spec(notes, max_visible, color, colors)[0];
            let cell = #[trigger] list_rows_spec(notes, max_visible, color, colors)[r][c];
            &&& header[c] == "path"@ ==> cell == notes[r - 1].meta.path@
            &&& header[c] == "title"@ ==> cell == notes[r - 1].meta.title@
            &&& header[c] == "updated"@ ==> cell == spec_rfc2822(notes[r - 1].meta.updated)
        },
{
    reveal_strlit("title");
    reveal_strlit("path");
    reveal_strlit("labels");
    reveal_strlit("created");
    reveal_strlit("updated");
    assert("created"@ != "updated"@) by {
        assert("created"@[0] != "updated"@[0]);
    }
    assert("title"@ != "path"@ && "title"@ != "created"@ && "title"@ != "updated"@ && "title"@ != "labels"@) by {
        assert("title"@.len() != "path"@.len());
        assert("title"@.len() != "created"@.len());
        assert("title"@.len() != "updated"@.len());
        assert("title"@.len() != "labels"@.len());
    }
    assert("path"@ != "created"@ && "path"@ != "updated"@ && "path"@ != "labels"@) by {
        assert("path"@.len() != "created"@.len());
        assert("path"@.len() != "labels"@.len());
    }
    assert("labels"@ != "created"@ && "labels"@ != "updated"@) by {
        assert("labels"@.len() != "created"@.len());
    }
    let rows = list_rows_spec(notes, max_visible, color, colors);
    let header = seq!["path"@, "title"@, "labels"@, "updated"@];
    assert(rows[0] == header);
    assert forall|r: int| 1 <= r < rows.len() implies (#[trigger] rows[r]).len() == rows[0].len() by {
        assert(rows[r] == list_row(notes, max_visible, color, colors, r - 1));
    }
    assert forall|r: int, c: int| 1 <= r < rows.len() && 0 <= c < rows[0].len() implies {
        let cell = #[trigger] rows[r][c];
        &&& rows[0][c] == "path"@ ==> cell == notes[r - 1].meta.path@
        &&& rows[0][c] == "title"@ ==> cell == notes[r - 1].meta.title@
        &&& rows[0][c] == "updated"@ ==> cell == spec_rfc2822(notes[r - 1].meta.updated)
    } by {
        assert(rows[r] == list_row(notes, max_visible, color, colors, r - 1));
        assert(rows[0][0] == "path"@ && rows[0][1] == "title"@ && rows[0][2] == "labels"@ && rows[0][3] == "updated"@);
    }
}

/// Render a list of notes as a table (path, title, labels, updated), without
/// content. `color` enables ANSI-colored label chips and a bold header
/// (disable for non-terminal output). `colors[i]` is the chip color of the
/// `i`-th distinct label of the list.
#[verifier::spinoff_prover]
pub fn render_list_human(notes: &[Note], max_visible_labels: usize, color: bool, colors: &[LabelColor]) -> (r: String)
    requires
        forall|i: int| 0 <= i < notes@.len() ==> rfc2822_representable(#[trigger] notes@[i].meta.updated),
        label_total(notes@) <= colors@.len(),
    ensures
        r@ == table_grid_text(list_rows_spec(notes@, max_visible_labels as nat, color, colors@), seq![], color),
{
    let ghost ns = notes@;
    let ghost mv = max_visible_labels as nat;
    let mut rows: Vec<Vec<String>> = Vec::new();
    let mut header: Vec<String> = Vec::new();
    header.push(string_of(chars_of("path").as_slice()));
    header.push(string_of(chars_of("title").as_slice()));
    header.push(string_of(chars_of("labels").as_slice()));
    header.push(string_of(chars_of("updated").as_slice()));
    assert(strings_model(header@) =~= seq!["path"@, "title"@, "labels"@, "updated"@]);
    rows.push(header);
    let mut palette = LabelPalette::new();
    let mut i: usize = 0;
    while i < notes.len()
        invariant
            i <= ns.len(),
            ns == notes@,
            mv == max_visible_labels as nat,
            forall|k: int| 0 <= k < ns.len() ==> rfc2822_representable(#[trigger] ns[k].meta.updated),
            label_total(ns) <= colors@.len(),
            palette.seen() == list_seen(ns, mv, i as int),
            palette.seen().len() <= label_total(ns.take(i as int)),
            rows_model(rows@) == list_rows_spec(ns.take(i as int), mv, color, colors@),
        decreases notes.len() - i,
    {
        let n = &notes[i];
        let ghost labels = note_labels(*n);
        let ghost before = palette.seen();
        proof {
            lemma_label_total_take(ns, i + 1);
            assert(ns.take(i + 1).drop_last() =~= ns.take(i as int));
            assert(ns.take(i + 1).last() == ns[i as int]);
        }
        let cell = render_labels(n.meta.labels.as_slice(), max_visible_labels, &mut palette, color, colors);
        proof {
            lemma_palette_after_len(before, labels.take(visible_count(labels.len(), mv) as int));
        }
        let mut row: Vec<String> = Vec::new();
        row.push(copy(&n.meta.path));
        row.push(copy(&n.meta.title));
        row.push(cell);
        row.push(rfc2822(n.meta.updated));
        let ghost prev = rows_model(rows@);
        rows.push(row);
        proof {
            lemma_list_prefix(ns, mv, color, colors@, i as int);
            assert(rows_model(rows@) =~= prev.push(strings_model(row@)));
            assert(strings_model(row@) =~= list_row(ns, mv, color, colors@, i as int));
        }
        i = i + 1;
    }
    proof {
        assert(ns.take(ns.len() as int) =~= ns);
    }
    let align: Vec<MdAlign> = Vec::new();
    assert(align@ =~= Seq::<MdAlign>::empty());
    proof {
        lemma_rows_model(rows@);
    }
    table_grid(&rows, &align, color)
}

/// The list rows of the first `i + 1` notes are those of the first `i`,
/// then the row of note `i` (computed over the whole list).
proof fn lemma_list_prefix(notes: Seq<Note>, max_visible: nat, color: bool, colors: Seq<LabelColor>, i: int)
    requires
        0 <= i < notes.len(),
    ensures
        list_rows_spec(notes.take(i + 1), max_visible, color, colors)
            == list_rows_spec(notes.take(i), max_visible, color, colors).push(list_row(notes, max_visible, color, colors, i)),
{
    assert forall|j: int| 0 <= j <= i + 1 implies #[trigger] list_seen(notes.take(i + 1), max_visible, j)
        == list_seen(notes, max_visible, j) by {
        lemma_list_seen_prefix(notes, max_visible, i + 1, j);
    }
    assert forall|j: int| 0 <= j <= i implies #[trigger] list_seen(notes.take(i), max_visible, j)
        == list_seen(notes, max_visible, j) by {
        lemma_list_seen_prefix(notes, max_visible, i, j);
    }
    let a = list_rows_spec(notes.take(i + 1), max_visible, color, colors);
    let b = list_rows_spec(notes.take(i), max_visible, color, colors).push(list_row(notes, max_visible, color, colors, i));
    assert forall|k: int| 0 <= k < a.len() implies a[k] == b[k] by {
        if k > 0 && k - 1 < i {
            assert(notes.take(i + 1)[k - 1] == notes[k - 1]);
            assert(notes.take(i)[k - 1] == notes[k - 1]);
        }
        if k == i + 1 {
            assert(notes.take(i + 1)[i] == notes[i]);
        }
    }
    assert(a =~= b);
}

/// The labels seen after the first `j` notes do not depend on the notes
/// after them.
proof fn lemma_list_seen_prefix(notes: Seq<Note>, max_visible: nat, n: int, j: int)
    requires
        0 <= j <= n <= notes.len(),
    ensures
        list_seen(notes.take(n), max_visible, j) == list_seen(notes, max_visible, j),
    decreases j,
{
    if j > 0 {
        lemma_list_seen_prefix(notes, max_visible, n, j - 1);
        assert(notes.take(n)[j - 1] == notes[j - 1]);
    }
}

} // verus!
