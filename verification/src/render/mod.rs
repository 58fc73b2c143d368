//! Terminal rendering of Markdown: inline spans, greedy word wrap and the
//! block layout of headings, paragraphs, lists, code, quotes and rules.
pub mod inline;
pub mod wrap;
pub mod color;

use vstd::prelude::*;
use crate::md::{MdNode, MdKind, MdAlign, parse_markdown, spec_parse_markdown};
use crate::render::inline::{Span, SpanModel, Style, plain_style, spans_model, emit, emit_spec, spans, collect_spec, nl_to_space, nl_to_space_exec};
use crate::render::wrap::{wrap, wrap_spec};
use crate::table::{
    TableOp, align_center, align_left, align_right, bold_first_row, grid_model, header_rule_style, spec_table_ops, spec_table_text,
    table_of_rows, table_text,
};
use crate::text::{join, extend_chars, extend_str, chars_of, string_of, decimal, decimal_chars, split_lines};

verus! {

/// `s` with every newline replaced by `r`.
pub open spec fn subst_nl(s: Seq<char>, r: Seq<char>) -> Seq<char>
    decreases s.len(),
{
    if s.len() == 0 {
        seq![]
    } else {
        subst_nl(s.drop_last(), r) + if s.last() == '\n' { r } else { seq![s.last()] }
    }
}

/// Append `s` to `out` with every newline replaced by `r`.
fn push_subst_nl(out: &mut Vec<char>, s: &Vec<char>, r: &Vec<char>)
    ensures
        final(out)@ == old(out)@ + subst_nl(s@, r@),
{
    let ghost start = out@;
    let mut i: usize = 0;
    while i < s.len()
        invariant
            i <= s@.len(),
            out@ == start + subst_nl(s@.take(i as int), r@),
        decreases s.len() - i,
    {
        let ghost prev = out@;
        if s[i] == '\n' {
            extend_chars(out, r);
        } else {
            out.push(s[i]);
        }
        proof {
            assert(s@.take(i + 1).drop_last() =~= s@.take(i as int));
            assert(out@ =~= start + subst_nl(s@.take(i + 1), r@));
        }
        i = i + 1;
    }
    assert(s@.take(s@.len() as int) =~= s@);
}

/// Each line of `text` with `first` before the first line and `rest` before
/// every other line.
pub open spec fn prefix_lines_spec(text: Seq<char>, first: Seq<char>, rest: Seq<char>) -> Seq<char> {
    first + subst_nl(text, seq!['\n'] + rest)
}

/// Apply `first` to the first line of `text` and `rest` to every other line.
fn prefix_lines(text: &Vec<char>, first: &Vec<char>, rest: &Vec<char>) -> (r: Vec<char>)
    ensures
        r@ == prefix_lines_spec(text@, first@, rest@),
{
    let mut out: Vec<char> = Vec::new();
    extend_chars(&mut out, first);
    let mut sep: Vec<char> = Vec::new();
    sep.push('\n');
    extend_chars(&mut sep, rest);
    push_subst_nl(&mut out, text, &sep);
    proof {
        assert(sep@ =~= seq!['\n'] + rest@);
        assert(out@ =~= prefix_lines_spec(text@, first@, rest@));
    }
    out
}

/// Each line of `text` between `open` and `close` when `color`; otherwise
/// the text unchanged.
pub open spec fn decorate_lines_spec(text: Seq<char>, color: bool, open: Seq<char>, close: Seq<char>) -> Seq<char> {
    if color {
        open + subst_nl(text, close + seq!['\n'] + open) + close
    } else {
        text
    }
}

/// Wrap each line of `text` in `open` … `close` when `color`, else return the
/// raw lines joined.
pub fn decorate_lines(text: &Vec<char>, color: bool, open: &str, close: &str) -> (r: Vec<char>)
    ensures
        r@ == decorate_lines_spec(text@, color, open@, close@),
{
    let mut out: Vec<char> = Vec::new();
    if color {
        extend_str(&mut out, open);
        let mut sep = chars_of(close);
        sep.push('\n');
        extend_str(&mut sep, open);
        proof {
            assert(sep@ =~= close@ + seq!['\n'] + open@);
        }
        push_subst_nl(&mut out, text, &sep);
        extend_str(&mut out, close);
    } else {
        extend_chars(&mut out, text);
        assert(out@ =~= text@);
    }
    out
}

/// A join read from the front: the first part, then the separator and the
/// join of the rest.
pub proof fn lemma_join_front(ps: Seq<Seq<char>>, sep: Seq<char>)
    requires
        ps.len() > 0,
    ensures
        join(ps, sep) == if ps.len() == 1 { ps[0] } else { ps[0] + sep + join(ps.drop_first(), sep) },
    decreases ps.len(),
{
    if ps.len() >= 2 {
        let dl = ps.drop_last();
        let df = ps.drop_first();
        assert(dl[0] == ps[0]);
        assert(df.last() == ps.last());
        if ps.len() == 2 {
            assert(join(dl, sep) == dl[0]);
            assert(join(df, sep) == df[0]);
        } else {
            lemma_join_front(dl, sep);
            assert(dl.drop_first() =~= df.drop_last());
            assert(join(df, sep) == join(df.drop_last(), sep) + sep + df.last());
            assert(join(ps, sep) =~= ps[0] + sep + join(df, sep));
        }
    }
}

/// Each line between `open` and `close`.
pub open spec fn decorate_each(lines: Seq<Seq<char>>, open: Seq<char>, close: Seq<char>) -> Seq<Seq<char>> {
    lines.map_values(|l: Seq<char>| open + l + close)
}

proof fn lemma_split_lines_nonempty(s: Seq<char>)
    ensures
        split_lines(s).len() > 0,
    decreases s.len(),
{
    if s.len() > 0 {
        lemma_split_lines_nonempty(s.drop_first());
    }
}

proof fn lemma_subst_front(c: char, t: Seq<char>, sep: Seq<char>)
    ensures
        subst_nl(seq![c] + t, sep) == (if c == '\n' { sep } else { seq![c] }) + subst_nl(t, sep),
{
    crate::render::color::lemma_subst_concat(seq![c], t, sep);
    assert(seq![c].drop_last() =~= Seq::<char>::empty());
    assert(subst_nl(Seq::<char>::empty(), sep) == Seq::<char>::empty());
    assert(seq![c].last() == c);
    assert(subst_nl(seq![c], sep) =~= if c == '\n' { sep } else { seq![c] });
}

proof fn lemma_decorate_lines(text: Seq<char>, open: Seq<char>, close: Seq<char>)
    ensures
        join(decorate_each(split_lines(text), open, close), seq!['\n']) == open + subst_nl(text, close + seq!['\n'] + open) + close,
    decreases text.len(),
{
    let sep = close + seq!['\n'] + open;
    let nl = seq!['\n'];
    if text.len() == 0 {
        assert(split_lines(text) =~= seq![Seq::<char>::empty()]);
        assert(decorate_each(split_lines(text), open, close)[0] == open + Seq::<char>::empty() + close);
        assert(subst_nl(text, sep) =~= Seq::<char>::empty());
        assert(open + Seq::<char>::empty() + close =~= open + subst_nl(text, sep) + close);
    } else {
        let c = text[0];
        let t = text.drop_first();
        lemma_decorate_lines(t, open, close);
        lemma_split_lines_nonempty(t);
        let rest = split_lines(t);
        let mr = decorate_each(rest, open, close);
        lemma_join_front(mr, nl);
        assert(text =~= seq![c] + t);
        lemma_subst_front(c, t, sep);
        let tail = if mr.len() == 1 { Seq::<char>::empty() } else { nl + join(mr.drop_first(), nl) };
        assert(join(mr, nl) =~= mr[0] + tail);
        assert(mr[0] == open + rest[0] + close);
        if c == '\n' {
            lemma_decorate_newline(rest, open, close, join(mr, nl));
            assert(open + close + nl + join(mr, nl) =~= open + subst_nl(text, sep) + close);
        } else {
            lemma_decorate_char(c, rest, open, close);
            assert(subst_nl(t, sep) + close =~= rest[0] + close + tail) by {
                assert(open + subst_nl(t, sep) + close =~= open + (subst_nl(t, sep) + close));
                assert(open + rest[0] + close + tail =~= open + (rest[0] + close + tail));
                lemma_drop_prefix(open, subst_nl(t, sep) + close, rest[0] + close + tail);
            }
            assert(subst_nl(text, sep) == seq![c] + subst_nl(t, sep));
            let x = subst_nl(t, sep) + close;
            assert(open + subst_nl(text, sep) + close =~= open + seq![c] + x);
            assert(open + (seq![c] + rest[0]) + close + tail =~= open + seq![c] + (rest[0] + close + tail));
        }
    }
}

proof fn lemma_drop_prefix(p: Seq<char>, a: Seq<char>, b: Seq<char>)
    requires
        p + a == p + b,
    ensures
        a == b,
{
    let n = p.len() as int;
    assert(a =~= (p + a).subrange(n, (p + a).len() as int));
    assert(b =~= (p + b).subrange(n, (p + b).len() as int));
}

proof fn lemma_decorate_newline(rest: Seq<Seq<char>>, open: Seq<char>, close: Seq<char>, jr: Seq<char>)
    requires
        rest.len() > 0,
        jr == join(decorate_each(rest, open, close), seq!['\n']),
    ensures
        join(decorate_each(seq![Seq::<char>::empty()] + rest, open, close), seq!['\n']) == open + close + seq!['\n'] + jr,
{
    let ps = seq![Seq::<char>::empty()] + rest;
    let mp = decorate_each(ps, open, close);
    lemma_join_front(mp, seq!['\n']);
    assert(mp[0] =~= open + close);
    assert(mp.drop_first() =~= decorate_each(rest, open, close));
}

proof fn lemma_decorate_char(c: char, rest: Seq<Seq<char>>, open: Seq<char>, close: Seq<char>)
    requires
        rest.len() > 0,
    ensures
        join(decorate_each(rest.update(0, seq![c] + rest[0]), open, close), seq!['\n'])
            == open + (seq![c] + rest[0]) + close + (if rest.len() == 1 { Seq::<char>::empty() } else {
                seq!['\n'] + join(decorate_each(rest, open, close).drop_first(), seq!['\n'])
            }),
{
    let ps = rest.update(0, seq![c] + rest[0]);
    let mp = decorate_each(ps, open, close);
    let mr = decorate_each(rest, open, close);
    lemma_join_front(mp, seq!['\n']);
    assert(mp[0] == open + (seq![c] + rest[0]) + close);
    assert(mp.drop_first() =~= mr.drop_first());
}

/// Decorating works line by line: with color each line of the text (as
/// `str::split('\n')` gives them) is put between `open` and `close` and the
/// decorated lines are joined by newlines; without color the text comes back
/// as it is.
pub proof fn law_decorate_each_line(text: Seq<char>, open: Seq<char>, close: Seq<char>)
    ensures
        decorate_lines_spec(text, true, open, close) == join(decorate_each(split_lines(text), open, close), seq!['\n']),
        decorate_lines_spec(text, false, open, close) == text,
{
    lemma_decorate_lines(text, open, close);
}

/// A code block: every line indented by four spaces, dimmed when `color`.
pub open spec fn code_spec(value: Seq<char>, color: bool) -> Seq<char> {
    if color {
        "\x1b[2m    "@ + subst_nl(value, "\x1b[0m\n\x1b[2m    "@) + "\x1b[0m"@
    } else {
        "    "@ + subst_nl(value, "\n    "@)
    }
}

fn code(value: &str, color: bool) -> (r: Vec<char>)
    ensures
        r@ == code_spec(value@, color),
{
    let v = chars_of(value);
    let mut out: Vec<char> = Vec::new();
    if color {
        extend_str(&mut out, "\x1b[2m    ");
        let sep = chars_of("\x1b[0m\n\x1b[2m    ");
        push_subst_nl(&mut out, &v, &sep);
        extend_str(&mut out, "\x1b[0m");
    } else {
        extend_str(&mut out, "    ");
        let sep = chars_of("\n    ");
        push_subst_nl(&mut out, &v, &sep);
    }
    out
}

/// A horizontal rule as wide as `width`, clamped to `1..=80`.
pub open spec fn rule_spec(width: nat, color: bool) -> Seq<char> {
    let n: nat = if width < 1 { 1 } else if width > 80 { 80 } else { width };
    let line = Seq::new(n, |i: int| '─');
    if color {
        "\x1b[2m"@ + line + "\x1b[0m"@
    } else {
        line
    }
}

/// A horizontal rule as wide as `width`, clamped to `1..=80`, dimmed when
/// `color`.
pub fn rule(width: usize, color: bool) -> (r: Vec<char>)
    ensures
        r@ == rule_spec(width as nat, color),
{
    let n: usize = if width < 1 { 1 } else if width > 80 { 80 } else { width };
    let mut line: Vec<char> = Vec::new();
    let mut i: usize = 0;
    while i < n
        invariant
            i <= n,
            line@ == Seq::new(i as nat, |k: int| '─'),
        decreases n - i,
    {
        line.push('─');
        i = i + 1;
        assert(line@ =~= Seq::new(i as nat, |k: int| '─'));
    }
    if color {
        let mut out: Vec<char> = Vec::new();
        extend_str(&mut out, "\x1b[2m");
        extend_chars(&mut out, &line);
        extend_str(&mut out, "\x1b[0m");
        out
    } else {
        line
    }
}

/// Parts joined with a separator.
fn join_exec(parts: &Vec<Vec<char>>, sep: &str) -> (r: Vec<char>)
    ensures
        r@ == join(parts@.map_values(|p: Vec<char>| p@), sep@),
{
    let ghost pm = parts@.map_values(|p: Vec<char>| p@);
    let mut out: Vec<char> = Vec::new();
    let mut i: usize = 0;
    while i < parts.len()
        invariant
            i <= parts@.len(),
            pm == parts@.map_values(|p: Vec<char>| p@),
            out@ == join(pm.take(i as int), sep@),
        decreases parts.len() - i,
    {
        if i > 0 {
            extend_str(&mut out, sep);
        }
        extend_chars(&mut out, &parts[i]);
        proof {
            let t = pm.take(i + 1);
            assert(t.drop_last() =~= pm.take(i as int));
            assert(t.last() == parts@[i as int]@);
            if i == 0 {
                assert(t.len() == 1);
                assert(out@ =~= t[0]);
            }
        }
        i = i + 1;
    }
    assert(pm.take(parts@.len() as int) =~= pm);
    out
}

/// Wrap a span run to `width` and join the emitted lines.
pub open spec fn render_lines_spec(spans: Seq<SpanModel>, width: nat, color: bool) -> Seq<char> {
    join(wrap_spec(spans, width).map_values(|l: Seq<SpanModel>| emit_spec(l, color)), "\n"@)
}

fn render_lines(spans: &Vec<Span>, width: usize, color: bool) -> (r: Vec<char>)
    ensures
        r@ == render_lines_spec(spans_model(spans@), width as nat, color),
{
    let lines = wrap(spans.as_slice(), width);
    let ghost lm = lines@.map_values(|l: Vec<Span>| spans_model(l@));
    let mut parts: Vec<Vec<char>> = Vec::new();
    let mut i: usize = 0;
    while i < lines.len()
        invariant
            i <= lines@.len(),
            lm == lines@.map_values(|l: Vec<Span>| spans_model(l@)),
            parts@.map_values(|p: Vec<char>| p@) == lm.take(i as int).map_values(|l: Seq<SpanModel>| emit_spec(l, color)),
        decreases lines.len() - i,
    {
        let e = emit(lines[i].as_slice(), color);
        let ghost prev = parts@;
        parts.push(chars_of(e.as_str()));
        proof {
            assert(lm[i as int] == spans_model(lines@[i as int]@));
            assert(lm.take(i + 1) =~= lm.take(i as int).push(lm[i as int]));
            assert(parts@ =~= prev.push(parts@.last()));
            assert(parts@.last()@ == emit_spec(lm[i as int], color));
            assert(parts@.map_values(|p: Vec<char>| p@) =~= prev.map_values(|p: Vec<char>| p@).push(emit_spec(lm[i as int], color)));
        }
        i = i + 1;
        assert(parts@.map_values(|p: Vec<char>| p@) =~= lm.take(i as int).map_values(|l: Seq<SpanModel>| emit_spec(l, color)));
    }
    assert(lm.take(lines@.len() as int) =~= lm);
    join_exec(&parts, "\n")
}

/// The `#` marks of a heading of `depth`, followed by a space.
pub open spec fn hashes(depth: nat) -> Seq<char> {
    Seq::new(depth, |i: int| '#').push(' ')
}

/// A heading's spans: its dimmed `#` marks, then its text in bold (and
/// underlined for a level-1 heading).
pub open spec fn heading_spans(depth: u8, children: Seq<MdNode>) -> Seq<SpanModel> {
    seq![SpanModel { text: hashes(depth as nat), style: Style { dim: true, ..plain_style() } }]
        + collect_spec(children, plain_style()).map_values(|s: SpanModel| SpanModel {
            style: Style { bold: true, underline: if depth == 1 { true } else { s.style.underline }, ..s.style },
            ..s
        })
}

fn heading(depth: u8, children: &Vec<MdNode>, width: usize, color: bool) -> (r: Vec<char>)
    ensures
        r@ == render_lines_spec(heading_spans(depth, children@), width as nat, color),
{
    let body = spans(children);
    let mut marks: Vec<char> = Vec::new();
    let mut k: u8 = 0;
    while k < depth
        invariant
            k <= depth,
            marks@ == Seq::new(k as nat, |i: int| '#'),
        decreases depth - k,
    {
        marks.push('#');
        k = k + 1;
        assert(marks@ =~= Seq::new(k as nat, |i: int| '#'));
    }
    marks.push(' ');
    let mut line: Vec<Span> = Vec::new();
    line.push(Span { text: string_of(marks.as_slice()), style: Style { dim: true, ..Style::plain() } });
    let ghost bm = spans_model(body@);
    let mut i: usize = 0;
    while i < body.len()
        invariant
            i <= body@.len(),
            bm == spans_model(body@),
            spans_model(line@) == seq![SpanModel { text: hashes(depth as nat), style: Style { dim: true, ..plain_style() } }]
                + bm.take(i as int).map_values(|s: SpanModel| SpanModel {
                    style: Style { bold: true, underline: if depth == 1 { true } else { s.style.underline }, ..s.style },
                    ..s
                }),
        decreases body.len() - i,
    {
        let sp = &body[i];
        let st = Style { bold: true, underline: if depth == 1 { true } else { sp.style.underline }, ..sp.style };
        let t = chars_of(sp.text.as_str());
        let ghost prev = line@;
        line.push(Span { text: string_of(t.as_slice()), style: st });
        proof {
            assert(bm[i as int] == body@[i as int]@);
            assert(bm.take(i + 1) =~= bm.take(i as int).push(bm[i as int]));
            assert(line@ =~= prev.push(line@.last()));
            assert(spans_model(line@) =~= spans_model(prev).push(line@.last()@));
        }
        i = i + 1;
        proof {
            assert(spans_model(line@) =~= seq![SpanModel { text: hashes(depth as nat), style: Style { dim: true, ..plain_style() } }]
                + bm.take(i as int).map_values(|s: SpanModel| SpanModel {
                    style: Style { bold: true, underline: if depth == 1 { true } else { s.style.underline }, ..s.style },
                    ..s
                }));
        }
    }
    proof {
        assert(bm.take(body@.len() as int) =~= bm);
    }
    render_lines(&line, width, color)
}

/// The text of a list item's marker: `N. ` in an ordered list, `• ` otherwise,
/// followed by the task checkbox when there is one.
pub open spec fn item_marker(ordered: bool, number: nat, checked: Option<bool>) -> Seq<char> {
    let marker = if ordered { decimal(number) + ". "@ } else { "• "@ };
    let check = match checked {
        Some(true) => "[x] "@,
        Some(false) => "[ ] "@,
        None => ""@,
    };
    marker + check
}

/// The width left after indenting by `n` columns (at least 1).
pub open spec fn narrowed(width: nat, n: nat) -> nat {
    if width > n { (width - n) as nat } else { 1 }
}

/// The rendering of one block node at `width`.
pub open spec fn block_spec(n: MdNode, width: nat, color: bool) -> Seq<char>
    decreases n, 3nat,
{
    match n.kind {
        MdKind::Heading { depth } => render_lines_spec(heading_spans(depth, n.children@), width, color),
        MdKind::Paragraph => render_lines_spec(collect_spec(n.children@, plain_style()), width, color),
        MdKind::List { ordered, start } => join(items_texts(n.children@, match start { Some(s) => s as nat, None => 1 }, ordered, width, color), "\n"@),
        MdKind::Code { value } => code_spec(value@, color),
        MdKind::Blockquote => {
            let bar = if color { "\x1b[2m│\x1b[0m "@ } else { "│ "@ };
            prefix_lines_spec(join(block_texts(n.children@, narrowed(width, 2), color), "\n\n"@), bar, bar)
        },
        MdKind::ThematicBreak => rule_spec(width, color),
        MdKind::Html { value } => decorate_lines_spec(value@, color, "\x1b[2m"@, "\x1b[0m"@),
        MdKind::Table { align } => table_grid_text(table_rows(n.children@, color), align@, color),
        _ => render_lines_spec(collect_spec(n.children@, plain_style()), width, color),
    }
}

/// The non-empty renderings of a run of blocks, in order.
pub open spec fn block_texts(ns: Seq<MdNode>, width: nat, color: bool) -> Seq<Seq<char>>
    decreases ns, 2nat,
{
    if ns.len() == 0 {
        seq![]
    } else {
        let prev = block_texts(ns.subrange(0, ns.len() - 1), width, color);
        let b = block_spec(ns[ns.len() - 1], width, color);
        if b.len() == 0 { prev } else { prev.push(b) }
    }
}

/// One list item: its marker (dimmed when `color`) before the first line of
/// its body, and matching blank padding before every other line; the body's
/// blocks are rendered to the width left after the marker.
pub open spec fn item_text(item: MdNode, ordered: bool, number: nat, checked: Option<bool>, width: nat, color: bool) -> Seq<char>
    decreases item, 0nat,
{
    let first_plain = item_marker(ordered, number, checked);
    let pad = Seq::new(first_plain.len(), |i: int| ' ');
    let body = join(block_texts(item.children@, narrowed(width, first_plain.len()), color), "\n"@);
    let first = if color { "\x1b[2m"@ + first_plain + "\x1b[0m"@ } else { first_plain };
    prefix_lines_spec(body, first, pad)
}

/// The renderings of a list's items, numbered from `number`; children that
/// are not list items are skipped.
pub open spec fn items_texts(items: Seq<MdNode>, number: nat, ordered: bool, width: nat, color: bool) -> Seq<Seq<char>>
    decreases items, 1nat,
{
    if items.len() == 0 {
        seq![]
    } else {
        let rest = items.subrange(1, items.len() as int);
        match items[0].kind {
            MdKind::ListItem { checked } => seq![item_text(items[0], ordered, number, checked, width, color)]
                + items_texts(rest, if ordered { number + 1 } else { number }, ordered, width, color),
            _ => items_texts(rest, number, ordered, width, color),
        }
    }
}

proof fn lemma_align_ops(align: Seq<MdAlign>, c: nat)
    ensures
        align_ops(align).contains(TableOp::AlignLeft(c)) <==> (c < align.len() && align[c as int] == MdAlign::Left),
        align_ops(align).contains(TableOp::AlignCenter(c)) <==> (c < align.len() && align[c as int] == MdAlign::Center),
        align_ops(align).contains(TableOp::AlignRight(c)) <==> (c < align.len() && align[c as int] == MdAlign::Right),
        forall|k: int| 0 <= k < align_ops(align).len() ==> {
            let op = #[trigger] align_ops(align)[k];
            op is AlignLeft || op is AlignCenter || op is AlignRight
        },
    decreases align.len(),
{
    if align.len() > 0 {
        let prev = align.drop_last();
        lemma_align_ops(prev, c);
        let p = align_ops(prev);
        let col = (align.len() - 1) as nat;
        assert forall|k: int| 0 <= k < prev.len() implies prev[k] == align[k] by {}
        let ops = align_ops(align);
        let x = match align.last() {
            MdAlign::Left => Some(TableOp::AlignLeft(col)),
            MdAlign::Center => Some(TableOp::AlignCenter(col)),
            MdAlign::Right => Some(TableOp::AlignRight(col)),
            MdAlign::Unaligned => None,
        };
        match x {
            Some(op) => {
                assert(ops == p.push(op));
                assert forall|o: TableOp| ops.contains(o) <==> (p.contains(o) || o == op) by {
                    if ops.contains(o) {
                        let k = choose|k: int| 0 <= k < ops.len() && ops[k] == o;
                        if k < p.len() {
                            assert(p[k] == o);
                        }
                    }
                    if p.contains(o) {
                        let k = choose|k: int| 0 <= k < p.len() && p[k] == o;
                        assert(ops[k] == o);
                    }
                    if o == op {
                        assert(ops[p.len() as int] == o);
                    }
                }
                assert forall|k: int| 0 <= k < ops.len() implies {
                    let o = #[trigger] ops[k];
                    o is AlignLeft || o is AlignCenter || o is AlignRight
                } by {
                    if k < p.len() {
                        assert(ops[k] == p[k]);
                    }
                }
            },
            None => {
                assert(ops == p);
            },
        }
    }
}

/// Each column of a table gets the alignment its delimiter row names, and no
/// other: among the settings handed to tabled, a column is aligned left
/// exactly when its delimiter is `:---`, centred exactly for `:---:`, right
/// exactly for `---:`, and not at all for `---`.
pub proof fn law_table_columns_aligned_as_delimited(rows: Seq<Seq<Seq<char>>>, align: Seq<MdAlign>, color: bool, c: nat)
    ensures
        grid_ops(rows, align, color).contains(TableOp::AlignLeft(c)) <==> (c < align.len() && align[c as int] == MdAlign::Left),
        grid_ops(rows, align, color).contains(TableOp::AlignCenter(c)) <==> (c < align.len() && align[c as int] == MdAlign::Center),
        grid_ops(rows, align, color).contains(TableOp::AlignRight(c)) <==> (c < align.len() && align[c as int] == MdAlign::Right),
{
    lemma_align_ops(align, c);
    let a = align_ops(align);
    let head = seq![TableOp::Rows(rows), TableOp::HeaderRuleStyle];
    let base = head + a;
    let ops = grid_ops(rows, align, color);
    assert forall|o: TableOp| (o is AlignLeft || o is AlignCenter || o is AlignRight) implies (ops.contains(o) <==> a.contains(o)) by {
        if ops.contains(o) {
            let k = choose|k: int| 0 <= k < ops.len() && ops[k] == o;
            if k >= 2 && k < base.len() {
                assert(base[k] == a[k - 2]);
                assert(ops[k] == base[k]);
            } else if k < 2 {
                assert(ops[k] == head[k]);
            } else {
                assert(ops[k] == TableOp::BoldFirstRow);
            }
        }
        if a.contains(o) {
            let k = choose|k: int| 0 <= k < a.len() && a[k] == o;
            assert(base[k + 2] == a[k]);
            assert(ops[k + 2] == base[k + 2]);
        }
    }
}

/// The cell texts of a table's rows: each cell's inline content emitted on a
/// single line; children that are not rows (or cells) give no row (an empty
/// cell).
pub open spec fn table_rows(rows: Seq<MdNode>, color: bool) -> Seq<Seq<Seq<char>>>
    decreases rows.len(),
{
    if rows.len() == 0 {
        seq![]
    } else {
        let prev = table_rows(rows.drop_last(), color);
        match rows.last().kind {
            MdKind::TableRow => prev.push(row_cells(rows.last().children@, color)),
            _ => prev,
        }
    }
}

pub open spec fn row_cells(cells: Seq<MdNode>, color: bool) -> Seq<Seq<char>> {
    cells.map_values(|c: MdNode| match c.kind {
        MdKind::TableCell => nl_to_space(emit_spec(collect_spec(c.children@, plain_style()), color)),
        _ => Seq::<char>::empty(),
    })
}

/// The alignment settings for the columns, in column order; an unaligned
/// column gets none.
pub open spec fn align_ops(align: Seq<MdAlign>) -> Seq<TableOp>
    decreases align.len(),
{
    if align.len() == 0 {
        seq![]
    } else {
        let prev = align_ops(align.drop_last());
        let column = (align.len() - 1) as nat;
        match align.last() {
            MdAlign::Left => prev.push(TableOp::AlignLeft(column)),
            MdAlign::Center => prev.push(TableOp::AlignCenter(column)),
            MdAlign::Right => prev.push(TableOp::AlignRight(column)),
            MdAlign::Unaligned => prev,
        }
    }
}

/// The settings of a grid table: the rows, the header-rule style, each
/// column's alignment, and a bold header row when `color`.
pub open spec fn grid_ops(rows: Seq<Seq<Seq<char>>>, align: Seq<MdAlign>, color: bool) -> Seq<TableOp> {
    let base = seq![TableOp::Rows(rows), TableOp::HeaderRuleStyle] + align_ops(align);
    if color { base.push(TableOp::BoldFirstRow) } else { base }
}

/// What tabled draws for a grid table of `rows`.
pub open spec fn table_grid_text(rows: Seq<Seq<Seq<char>>>, align: Seq<MdAlign>, color: bool) -> Seq<char> {
    spec_table_text(grid_ops(rows, align, color))
}

/// A `tabled` table of `rows`: modern style without vertical rules, a
/// double rule (`╞…╡`) under the header row, the given column alignments, and
/// a bold header row when `color`.
pub(crate) fn table_grid(rows: &Vec<Vec<String>>, align: &Vec<MdAlign>, color: bool) -> (r: String)
    ensures
        r@ == table_grid_text(grid_model(rows@), align@, color),
{
    let mut table = table_of_rows(rows);
    header_rule_style(&mut table);
    let ghost base = spec_table_ops(table);
    let mut i: usize = 0;
    while i < align.len()
        invariant
            i <= align@.len(),
            spec_table_ops(table) == base + align_ops(align@.take(i as int)),
        decreases align.len() - i,
    {
        proof {
            assert(align@.take(i + 1).drop_last() =~= align@.take(i as int));
            assert(align@.take(i + 1).last() == align@[i as int]);
        }
        match align[i] {
            MdAlign::Left => align_left(&mut table, i),
            MdAlign::Center => align_center(&mut table, i),
            MdAlign::Right => align_right(&mut table, i),
            MdAlign::Unaligned => {},
        }
        proof {
            assert(spec_table_ops(table) =~= base + align_ops(align@.take(i + 1)));
        }
        i = i + 1;
    }
    assert(align@.take(align@.len() as int) =~= align@);
    if color {
        bold_first_row(&mut table);
    }
    assert(spec_table_ops(table) =~= grid_ops(grid_model(rows@), align@, color));
    table_text(&table)
}

fn row_cells_exec(cells: &Vec<MdNode>, color: bool) -> (r: Vec<String>)
    ensures
        r@.map_values(|c: String| c@) == row_cells(cells@, color),
{
    let mut out: Vec<String> = Vec::new();
    let mut i: usize = 0;
    while i < cells.len()
        invariant
            i <= cells@.len(),
            out@.map_values(|c: String| c@) == row_cells(cells@.take(i as int), color),
        decreases cells.len() - i,
    {
        let cell = &cells[i];
        let ghost expected = match cell.kind {
            MdKind::TableCell => nl_to_space(emit_spec(collect_spec(cell.children@, plain_style()), color)),
            _ => Seq::<char>::empty(),
        };
        let text = match &cell.kind {
            MdKind::TableCell => {
                let sp = spans(&cell.children);
                let e = emit(sp.as_slice(), color);
                nl_to_space_exec(e.as_str())
            },
            _ => {
                let empty: Vec<char> = Vec::new();
                string_of(empty.as_slice())
            },
        };
        assert(text@ =~= expected);
        let ghost prev = out@;
        out.push(text);
        proof {
            assert(cells@.take(i + 1) =~= cells@.take(i as int).push(cells@[i as int]));
            assert(out@ =~= prev.push(out@.last()));
            assert(row_cells(cells@.take(i + 1), color) =~= row_cells(cells@.take(i as int), color).push(expected));
            assert(out@.map_values(|c: String| c@) =~= row_cells(cells@.take(i + 1), color));
        }
        i = i + 1;
    }
    assert(cells@.take(cells@.len() as int) =~= cells@);
    out
}

fn table_rows_exec(rows: &Vec<MdNode>, color: bool) -> (r: Vec<Vec<String>>)
    ensures
        r@.map_values(|row: Vec<String>| row@.map_values(|c: String| c@)) == table_rows(rows@, color),
{
    let mut out: Vec<Vec<String>> = Vec::new();
    let mut i: usize = 0;
    while i < rows.len()
        invariant
            i <= rows@.len(),
            out@.map_values(|row: Vec<String>| row@.map_values(|c: String| c@)) == table_rows(rows@.take(i as int), color),
        decreases rows.len() - i,
    {
        let ghost prev = out@;
        proof {
            assert(rows@.take(i + 1).drop_last() =~= rows@.take(i as int));
            assert(rows@.take(i + 1).last() == rows@[i as int]);
        }
        match &rows[i].kind {
            MdKind::TableRow => {
                let cells = row_cells_exec(&rows[i].children, color);
                out.push(cells);
                proof {
                    assert(out@ =~= prev.push(out@.last()));
                    assert(out@.map_values(|row: Vec<String>| row@.map_values(|c: String| c@)) =~= table_rows(rows@.take(i + 1), color));
                }
            },
            _ => {},
        }
        i = i + 1;
    }
    assert(rows@.take(rows@.len() as int) =~= rows@);
    out
}

fn clone_aligns(v: &Vec<MdAlign>) -> (r: Vec<MdAlign>)
    ensures
        r@ == v@,
{
    let mut out: Vec<MdAlign> = Vec::new();
    let mut i: usize = 0;
    while i < v.len()
        invariant
            i <= v@.len(),
            out@ == v@.take(i as int),
        decreases v.len() - i,
    {
        out.push(v[i]);
        i = i + 1;
        assert(out@ =~= v@.take(i as int));
    }
    assert(v@.take(v@.len() as int) =~= v@);
    out
}

#[verifier::spinoff_prover]
fn block(n: &MdNode, width: usize, color: bool) -> (r: Vec<char>)
    ensures
        r@ == block_spec(*n, width as nat, color),
    decreases *n, 3nat,
{
    match &n.kind {
        MdKind::Heading { depth } => heading(*depth, &n.children, width, color),
        MdKind::Paragraph => render_lines(&spans(&n.children), width, color),
        MdKind::List { ordered, start } => {
            let first: u128 = match start {
                Some(s) => *s as u128,
                None => 1,
            };
            let texts = items(&n.children, first, *ordered, width, color);
            join_exec(&texts, "\n")
        },
        MdKind::Code { value } => code(value.as_str(), color),
        MdKind::Blockquote => {
            let inner_width: usize = if width > 2 { width - 2 } else { 1 };
            let texts = blocks(&n.children, inner_width, color);
            let inner = join_exec(&texts, "\n\n");
            let bar = if color { chars_of("\x1b[2m│\x1b[0m ") } else { chars_of("│ ") };
            prefix_lines(&inner, &bar, &bar)
        },
        MdKind::ThematicBreak => rule(width, color),
        MdKind::Html { value } => decorate_lines(&chars_of(value.as_str()), color, "\x1b[2m", "\x1b[0m"),
        MdKind::Table { align } => {
            let rows = table_rows_exec(&n.children, color);
            let a = clone_aligns(align);
            let g = table_grid(&rows, &a, color);
            chars_of(g.as_str())
        },
        _ => render_lines(&spans(&n.children), width, color),
    }
}

fn blocks(ns: &Vec<MdNode>, width: usize, color: bool) -> (r: Vec<Vec<char>>)
    ensures
        r@.map_values(|p: Vec<char>| p@) == block_texts(ns@, width as nat, color),
    decreases ns@, 2nat,
{
    let mut out: Vec<Vec<char>> = Vec::new();
    let mut i: usize = 0;
    while i < ns.len()
        invariant
            i <= ns@.len(),
            out@.map_values(|p: Vec<char>| p@) == block_texts(ns@.subrange(0, i as int), width as nat, color),
        decreases ns.len() - i,
    {
        let b = block(&ns[i], width, color);
        let ghost prev = out@;
        proof {
            let sub = ns@.subrange(0, i + 1);
            assert(sub.subrange(0, sub.len() - 1) =~= ns@.subrange(0, i as int));
            assert(sub[sub.len() - 1] == ns@[i as int]);
        }
        if b.len() > 0 {
            out.push(b);
            proof {
                assert(out@ =~= prev.push(out@.last()));
                assert(out@.map_values(|p: Vec<char>| p@) =~= prev.map_values(|p: Vec<char>| p@).push(out@.last()@));
            }
        }
        i = i + 1;
    }
    assert(ns@.subrange(0, ns@.len() as int) =~= ns@);
    out
}

fn item(it: &MdNode, ordered: bool, number: u128, checked: Option<bool>, width: usize, color: bool) -> (r: Vec<char>)
    ensures
        r@ == item_text(*it, ordered, number as nat, checked, width as nat, color),
    decreases *it, 0nat,
{
    let mut first_plain: Vec<char> = Vec::new();
    if ordered {
        let d = decimal_chars(number);
        extend_chars(&mut first_plain, &d);
        extend_str(&mut first_plain, ". ");
    } else {
        extend_str(&mut first_plain, "• ");
    }
    match checked {
        Some(true) => extend_str(&mut first_plain, "[x] "),
        Some(false) => extend_str(&mut first_plain, "[ ] "),
        None => extend_str(&mut first_plain, ""),
    }
    proof {
        assert(first_plain@ =~= item_marker(ordered, number as nat, checked));
    }
    let len = first_plain.len();
    let mut pad: Vec<char> = Vec::new();
    let mut k: usize = 0;
    while k < len
        invariant
            k <= len,
            pad@ == Seq::new(k as nat, |i: int| ' '),
        decreases len - k,
    {
        pad.push(' ');
        k = k + 1;
        assert(pad@ =~= Seq::new(k as nat, |i: int| ' '));
    }
    let inner_width: usize = if width > len { width - len } else { 1 };
    let texts = blocks(&it.children, inner_width, color);
    let body = join_exec(&texts, "\n");
    let first = if color {
        let mut f: Vec<char> = Vec::new();
        extend_str(&mut f, "\x1b[2m");
        extend_chars(&mut f, &first_plain);
        extend_str(&mut f, "\x1b[0m");
        f
    } else {
        first_plain
    };
    prefix_lines(&body, &first, &pad)
}

#[verifier::spinoff_prover]
fn items(list: &Vec<MdNode>, start: u128, ordered: bool, width: usize, color: bool) -> (r: Vec<Vec<char>>)
    requires
        start <= u32::MAX,
    ensures
        r@.map_values(|p: Vec<char>| p@) == items_texts(list@, start as nat, ordered, width as nat, color),
    decreases list@, 1nat,
{
    let mut out: Vec<Vec<char>> = Vec::new();
    let mut number: u128 = start;
    let mut i: usize = 0;
    proof {
        assert(list@.subrange(0, list@.len() as int) =~= list@);
    }
    while i < list.len()
        invariant
            i <= list@.len(),
            number <= start + i,
            start <= u32::MAX,
            out@.map_values(|p: Vec<char>| p@) + items_texts(list@.subrange(i as int, list@.len() as int), number as nat, ordered, width as nat, color)
                == items_texts(list@, start as nat, ordered, width as nat, color),
        decreases list.len() - i,
    {
        let ghost rest = list@.subrange(i as int, list@.len() as int);
        proof {
            assert(rest[0] == list@[i as int]);
            assert(rest.subrange(1, rest.len() as int) =~= list@.subrange(i + 1, list@.len() as int));
        }
        match &list[i].kind {
            MdKind::ListItem { checked } => {
                let t = item(&list[i], ordered, number, *checked, width, color);
                let ghost prev = out@;
                out.push(t);
                proof {
                    assert(out@ =~= prev.push(out@.last()));
                    assert(out@.map_values(|p: Vec<char>| p@) =~= prev.map_values(|p: Vec<char>| p@).push(out@.last()@));
                    assert(out@.map_values(|p: Vec<char>| p@) + items_texts(list@.subrange(i + 1, list@.len() as int), if ordered { (number + 1) as nat } else { number as nat }, ordered, width as nat, color)
                        =~= prev.map_values(|p: Vec<char>| p@) + items_texts(rest, number as nat, ordered, width as nat, color));
                }
                if ordered {
                    number = number + 1;
                }
            },
            _ => {},
        }
        i = i + 1;
    }
    proof {
        assert(list@.subrange(i as int, list@.len() as int) =~= Seq::<MdNode>::empty());
        assert(out@.map_values(|p: Vec<char>| p@) + Seq::<Seq<char>>::empty() =~= out@.map_values(|p: Vec<char>| p@));
    }
    out
}

/// A quote is drawn as the document of its blocks, barred: rendering a
/// blockquote gives what rendering a document made of the same blocks gives
/// (at the width left after the bar), with the bar in front of every line.
/// So the blocks inside a quote are separated by a barred blank line, as
/// top-level blocks are separated by a blank line.
pub proof fn law_quote_is_its_blocks_barred(q: MdNode, markdown: Seq<char>, width: nat, color: bool)
    requires
        q.kind is Blockquote,
        spec_parse_markdown(markdown) matches Some(root) && root.kind is Root && root.children@ == q.children@,
        width >= 1,
    ensures
        block_spec(q, width + 2, color) == prefix_lines_spec(
            render_spec(markdown, width, color),
            if color { "\x1b[2m│\x1b[0m "@ } else { "│ "@ },
            if color { "\x1b[2m│\x1b[0m "@ } else { "│ "@ },
        ),
{
    assert(narrowed(width + 2, 2) == width);
}

/// What [`render`] produces: the blocks of the parsed document rendered to
/// `width` and joined by blank lines, or the input itself when it does not
/// parse to a document.
pub open spec fn render_spec(markdown: Seq<char>, width: nat, color: bool) -> Seq<char> {
    match spec_parse_markdown(markdown) {
        Some(root) => match root.kind {
            MdKind::Root => join(block_texts(root.children@, width, color), "\n\n"@),
            _ => markdown,
        },
        None => markdown,
    }
}

/// Render a Markdown string as styled terminal text wrapped to `width` columns.
/// When `color`, inline styles and structural cues are emitted as ANSI; the
/// text is otherwise identical. Falls back to the raw input if parsing fails.
pub fn render(markdown: &str, width: usize, color: bool) -> (r: String)
    ensures
        r@ == render_spec(markdown@, width as nat, color),
{
    match parse_markdown(markdown) {
        Some(root) => match &root.kind {
            MdKind::Root => {
                let texts = blocks(&root.children, width, color);
                let out = join_exec(&texts, "\n\n");
                string_of(out.as_slice())
            },
            _ => string_of(chars_of(markdown).as_slice()),
        },
        None => string_of(chars_of(markdown).as_slice()),
    }
}

} // verus!
