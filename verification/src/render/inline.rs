//! Styled inline spans: the flattened form of Markdown inline content, and
//! their emission as ANSI SGR sequences.
use vstd::prelude::*;
use crate::text::{join, extend_str, extend_chars, string_of, chars_of};
use crate::md::{MdNode, MdKind};
use crate::template::{first_index_of, lemma_first_index_is};

verus! {

/// A resolved inline style. All flags are cumulative and pre-merged into each
/// span, so downstream code never has to track nesting.
#[derive(Clone, Copy, PartialEq, Eq, Structural, Debug)]
pub struct Style {
    pub bold: bool,
    pub italic: bool,
    pub strike: bool,
    pub underline: bool,
    pub dim: bool,
    pub code: bool,
    pub link: bool,
}

/// The style with every flag off.
pub open spec fn plain_style() -> Style {
    Style {
        bold: false,
        italic: false,
        strike: false,
        underline: false,
        dim: false,
        code: false,
        link: false,
    }
}

impl Style {
    /// The style with every flag off.
    pub fn plain() -> (s: Style)
        ensures
            s == plain_style(),
    {
        Style {
            bold: false,
            italic: false,
            strike: false,
            underline: false,
            dim: false,
            code: false,
            link: false,
        }
    }
}

impl Default for Style {
    fn default() -> (s: Style)
        ensures
            s == plain_style(),
    {
        Style::plain()
    }
}

/// A run of plain text with one resolved style. Text is ANSI-free; its width
/// is its character count.
#[derive(Clone, Debug)]
pub struct Span {
    pub text: String,
    pub style: Style,
}

/// The mathematical content of a [`Span`].
pub struct SpanModel {
    pub text: Seq<char>,
    pub style: Style,
}

impl View for Span {
    type V = SpanModel;

    open spec fn view(&self) -> SpanModel {
        SpanModel { text: self.text@, style: self.style }
    }
}

/// The models of a run of spans.
pub open spec fn spans_model(spans: Seq<Span>) -> Seq<SpanModel> {
    spans.map_values(|s: Span| s@)
}

/// The SGR parameters for `style`, in emission order.
pub open spec fn sgr_codes(style: Style) -> Seq<Seq<char>> {
    let c1: Seq<Seq<char>> = if style.bold { seq!["1"@] } else { seq![] };
    let c2: Seq<Seq<char>> = if style.dim { c1.push("2"@) } else { c1 };
    let c3: Seq<Seq<char>> = if style.italic { c2.push("3"@) } else { c2 };
    let c4: Seq<Seq<char>> = if style.underline || style.link { c3.push("4"@) } else { c3 };
    let c5: Seq<Seq<char>> = if style.strike { c4.push("9"@) } else { c4 };
    let c6: Seq<Seq<char>> = if style.code { c5.push("36"@) } else { c5 };
    if style.link { c6.push("34"@) } else { c6 }
}

/// One span as emitted: bare text, or text inside a self-contained
/// `ESC[..m … ESC[0m` pair when `color` and the style has codes.
pub open spec fn emit_span(span: SpanModel, color: bool) -> Seq<char> {
    let codes = if color { sgr_codes(span.style) } else { Seq::empty() };
    if codes.len() == 0 {
        span.text
    } else {
        "\x1b["@ + join(codes, ";"@) + "m"@ + span.text + "\x1b[0m"@
    }
}

/// A run of spans emitted one after another.
pub open spec fn emit_spec(spans: Seq<SpanModel>, color: bool) -> Seq<char>
    decreases spans.len(),
{
    if spans.len() == 0 {
        seq![]
    } else {
        emit_spec(spans.drop_last(), color) + emit_span(spans.last(), color)
    }
}

/// The texts of `spans`, one after another.
pub open spec fn texts(spans: Seq<SpanModel>) -> Seq<char>
    decreases spans.len(),
{
    if spans.len() == 0 {
        seq![]
    } else {
        texts(spans.drop_last()) + spans.last().text
    }
}

/// Without color, emitting spans gives exactly their text: no escape codes,
/// whatever the styles.
pub proof fn law_plain_emit_is_text(spans: Seq<SpanModel>)
    ensures
        emit_spec(spans, false) == texts(spans),
    decreases spans.len(),
{
    if spans.len() > 0 {
        law_plain_emit_is_text(spans.drop_last());
    }
}

/// `s` with every SGR escape (`ESC` up to and including the next `m`)
/// removed: what a terminal shows as text.
pub open spec fn strip_sgr(s: Seq<char>) -> Seq<char>
    decreases s.len(),
{
    if s.len() == 0 {
        seq![]
    } else if s[0] == '\x1b' {
        match first_index_of(s, 'm') {
            Some(k) => if 0 <= k < s.len() { strip_sgr(s.skip(k + 1)) } else { seq![] },
            None => seq![],
        }
    } else {
        seq![s[0]] + strip_sgr(s.drop_first())
    }
}

/// `c` does not occur in `s`.
pub open spec fn free_of(s: Seq<char>, c: char) -> bool {
    forall|k: int| 0 <= k < s.len() ==> #[trigger] s[k] != c
}

proof fn lemma_strip_plain(t: Seq<char>, r: Seq<char>)
    requires
        free_of(t, '\x1b'),
    ensures
        strip_sgr(t + r) == t + strip_sgr(r),
    decreases t.len(),
{
    if t.len() == 0 {
        assert(t + r =~= r);
    } else {
        let tr = t + r;
        assert(tr[0] == t[0]);
        assert(tr.drop_first() =~= t.drop_first() + r);
        lemma_strip_plain(t.drop_first(), r);
        assert(seq![t[0]] + (t.drop_first() + strip_sgr(r)) =~= t + strip_sgr(r));
    }
}

proof fn lemma_strip_escape(codes: Seq<char>, r: Seq<char>)
    requires
        free_of(codes, 'm'),
    ensures
        strip_sgr("\x1b["@ + codes + "m"@ + r) == strip_sgr(r),
{
    reveal_strlit("\x1b[");
    reveal_strlit("m");
    let s = "\x1b["@ + codes + "m"@ + r;
    let k: int = codes.len() + 2int;
    assert(s[0] == '\x1b');
    assert forall|j: int| 0 <= j < k implies s[j] != 'm' by {
        if j >= 2 {
            assert(s[j] == codes[j - 2]);
        }
    }
    assert(s[k] == 'm');
    lemma_first_index_is(s, 'm', k);
    assert(s.skip(k + 1) =~= r);
}

pub(crate) proof fn lemma_join_free(parts: Seq<Seq<char>>, sep: Seq<char>, c: char)
    requires
        free_of(sep, c),
        forall|i: int| 0 <= i < parts.len() ==> free_of(#[trigger] parts[i], c),
    ensures
        free_of(join(parts, sep), c),
    decreases parts.len(),
{
    if parts.len() > 1 {
        let prev = parts.drop_last();
        assert forall|i: int| 0 <= i < prev.len() implies free_of(#[trigger] prev[i], c) by {
            assert(prev[i] == parts[i]);
        }
        lemma_join_free(prev, sep, c);
        let a = join(prev, sep);
        let last = parts.last();
        assert(free_of(last, c));
        assert forall|k: int| 0 <= k < (a + sep + last).len() implies #[trigger] (a + sep + last)[k] != c by {
            if k < a.len() {
                assert((a + sep + last)[k] == a[k]);
            } else if k < a.len() + sep.len() {
                assert((a + sep + last)[k] == sep[k - a.len()]);
            } else {
                assert((a + sep + last)[k] == last[k - a.len() - sep.len()]);
            }
        }
    } else if parts.len() == 1 {
        assert(free_of(parts[0], c));
    }
}

pub(crate) proof fn lemma_sgr_codes_free(style: Style)
    ensures
        forall|i: int| 0 <= i < sgr_codes(style).len() ==> free_of(#[trigger] sgr_codes(style)[i], 'm') && free_of(sgr_codes(style)[i], '\n'),
{
    reveal_strlit("1");
    reveal_strlit("2");
    reveal_strlit("3");
    reveal_strlit("4");
    reveal_strlit("9");
    reveal_strlit("36");
    reveal_strlit("34");
    let codes = sgr_codes(style);
    let allowed = seq!["1"@, "2"@, "3"@, "4"@, "9"@, "36"@, "34"@];
    assert forall|j: int| 0 <= j < allowed.len() implies free_of(#[trigger] allowed[j], 'm') && free_of(allowed[j], '\n') by {}
    let c1: Seq<Seq<char>> = if style.bold { seq!["1"@] } else { seq![] };
    let c2: Seq<Seq<char>> = if style.dim { c1.push("2"@) } else { c1 };
    let c3: Seq<Seq<char>> = if style.italic { c2.push("3"@) } else { c2 };
    let c4: Seq<Seq<char>> = if style.underline || style.link { c3.push("4"@) } else { c3 };
    let c5: Seq<Seq<char>> = if style.strike { c4.push("9"@) } else { c4 };
    let c6: Seq<Seq<char>> = if style.code { c5.push("36"@) } else { c5 };
    assert(forall|i: int| 0 <= i < c1.len() ==> free_of(#[trigger] c1[i], 'm') && free_of(c1[i], '\n'));
    assert(forall|i: int| 0 <= i < c2.len() ==> free_of(#[trigger] c2[i], 'm') && free_of(c2[i], '\n'));
    assert(forall|i: int| 0 <= i < c3.len() ==> free_of(#[trigger] c3[i], 'm') && free_of(c3[i], '\n'));
    assert(forall|i: int| 0 <= i < c4.len() ==> free_of(#[trigger] c4[i], 'm') && free_of(c4[i], '\n'));
    assert(forall|i: int| 0 <= i < c5.len() ==> free_of(#[trigger] c5[i], 'm') && free_of(c5[i], '\n'));
    assert(forall|i: int| 0 <= i < c6.len() ==> free_of(#[trigger] c6[i], 'm') && free_of(c6[i], '\n'));
}

proof fn lemma_strip_emit(spans: Seq<SpanModel>, r: Seq<char>)
    requires
        forall|i: int| 0 <= i < spans.len() ==> free_of(#[trigger] spans[i].text, '\x1b'),
    ensures
        strip_sgr(emit_spec(spans, true) + r) == texts(spans) + strip_sgr(r),
    decreases spans.len(),
{
    if spans.len() == 0 {
        assert(emit_spec(spans, true) + r =~= r);
        assert(texts(spans) + strip_sgr(r) =~= strip_sgr(r));
    } else {
        let prev = spans.drop_last();
        let last = spans.last();
        assert forall|i: int| 0 <= i < prev.len() implies free_of(#[trigger] prev[i].text, '\x1b') by {
            assert(prev[i] == spans[i]);
        }
        assert(free_of(last.text, '\x1b'));
        let unit = emit_span(last, true);
        let codes = sgr_codes(last.style);
        // The last span and what follows it.
        assert(strip_sgr(unit + r) == last.text + strip_sgr(r)) by {
            if codes.len() == 0 {
                lemma_strip_plain(last.text, r);
            } else {
                reveal_strlit("\x1b[0m");
                reveal_strlit("\x1b[");
                reveal_strlit("m");
                lemma_sgr_codes_free(last.style);
                reveal_strlit(";");
                lemma_join_free(codes, ";"@, 'm');
                let j = join(codes, ";"@);
                let tail = last.text + "\x1b[0m"@ + r;
                assert(unit + r =~= "\x1b["@ + j + "m"@ + tail);
                lemma_strip_escape(j, tail);
                lemma_strip_plain(last.text, "\x1b[0m"@ + r);
                assert(tail =~= last.text + ("\x1b[0m"@ + r));
                let esc = "\x1b[0m"@ + r;
                assert("\x1b[0m"@ =~= "\x1b["@ + seq!['0'] + "m"@);
                assert(free_of(seq!['0'], 'm'));
                assert(esc =~= "\x1b["@ + seq!['0'] + "m"@ + r);
                lemma_strip_escape(seq!['0'], r);
            }
        }
        lemma_strip_emit(prev, unit + r);
        assert(emit_spec(spans, true) + r =~= emit_spec(prev, true) + (unit + r));
        assert(texts(prev) + (last.text + strip_sgr(r)) =~= texts(spans) + strip_sgr(r));
    }
}

/// Color only adds escape codes: with every SGR sequence removed, the
/// colored emission of spans is the plain one (for span texts that hold no
/// escape character themselves).
pub proof fn law_color_only_adds_sgr(spans: Seq<SpanModel>)
    requires
        forall|i: int| 0 <= i < spans.len() ==> free_of(#[trigger] spans[i].text, '\x1b'),
    ensures
        strip_sgr(emit_spec(spans, true)) == emit_spec(spans, false),
{
    lemma_strip_emit(spans, seq![]);
    assert(emit_spec(spans, true) + Seq::<char>::empty() =~= emit_spec(spans, true));
    assert(strip_sgr(Seq::<char>::empty()) == Seq::<char>::empty());
    assert(texts(spans) + Seq::<char>::empty() =~= texts(spans));
    law_plain_emit_is_text(spans);
}

proof fn lemma_join_push(codes: Seq<Seq<char>>, x: Seq<char>, sep: Seq<char>)
    ensures
        join(codes.push(x), sep) == if codes.len() == 0 { x } else { join(codes, sep) + sep + x },
{
    assert(codes.push(x).drop_last() =~= codes);
    assert(codes.push(x).last() == x);
    if codes.len() == 0 {
        assert(codes.push(x).len() == 1);
        assert(codes.push(x)[0] == x);
    }
}

/// Append one SGR parameter to the joined list built so far.
fn push_code(out: &mut Vec<char>, n: &mut usize, code: &str, ghost_codes: Ghost<Seq<Seq<char>>>)
    requires
        old(out)@ == join(ghost_codes@, ";"@),
        *old(n) == ghost_codes@.len(),
        *old(n) < 8,
    ensures
        final(out)@ == join(ghost_codes@.push(code@), ";"@),
        *final(n) == *old(n) + 1,
{
    proof {
        lemma_join_push(ghost_codes@, code@, ";"@);
    }
    if *n > 0 {
        extend_str(out, ";");
    }
    extend_str(out, code);
    *n = *n + 1;
}

/// The joined SGR parameter list for `style` (e.g. `1;4`), empty when the
/// style is plain.
pub fn sgr_param(style: Style) -> (r: Vec<char>)
    ensures
        r@ == join(sgr_codes(style), ";"@),
        (r@.len() == 0) == (sgr_codes(style).len() == 0),
{
    let mut out: Vec<char> = Vec::new();
    let mut n: usize = 0;
    let ghost mut codes: Seq<Seq<char>> = seq![];
    if style.bold {
        push_code(&mut out, &mut n, "1", Ghost(codes));
        proof { codes = codes.push("1"@); }
    }
    if style.dim {
        push_code(&mut out, &mut n, "2", Ghost(codes));
        proof { codes = codes.push("2"@); }
    }
    if style.italic {
        push_code(&mut out, &mut n, "3", Ghost(codes));
        proof { codes = codes.push("3"@); }
    }
    if style.underline || style.link {
        push_code(&mut out, &mut n, "4", Ghost(codes));
        proof { codes = codes.push("4"@); }
    }
    if style.strike {
        push_code(&mut out, &mut n, "9", Ghost(codes));
        proof { codes = codes.push("9"@); }
    }
    if style.code {
        push_code(&mut out, &mut n, "36", Ghost(codes));
        proof { codes = codes.push("36"@); }
    }
    if style.link {
        push_code(&mut out, &mut n, "34", Ghost(codes));
        proof { codes = codes.push("34"@); }
    }
    proof {
        assert(codes =~= sgr_codes(style));
        reveal_strlit("1");
        reveal_strlit("2");
        reveal_strlit("3");
        reveal_strlit("4");
        reveal_strlit("9");
        reveal_strlit("36");
        reveal_strlit("34");
        reveal_strlit(";");
        lemma_join_nonempty(codes, ";"@);
    }
    out
}

/// A join of non-empty parts is empty exactly when there are no parts.
pub proof fn lemma_join_nonempty(parts: Seq<Seq<char>>, sep: Seq<char>)
    requires
        forall|i: int| 0 <= i < parts.len() ==> #[trigger] parts[i].len() > 0,
    ensures
        (join(parts, sep).len() == 0) == (parts.len() == 0),
    decreases parts.len(),
{
    if parts.len() > 1 {
        lemma_join_nonempty(parts.drop_last(), sep);
        assert(parts.last() == parts[parts.len() - 1]);
    } else if parts.len() == 1 {
        assert(parts[0].len() > 0);
    }
}

/// Emit one span onto `out`.
pub fn emit_one(out: &mut Vec<char>, span: &Span, color: bool)
    ensures
        final(out)@ == old(out)@ + emit_span(span@, color),
{
    let text = chars_of(span.text.as_str());
    if color {
        let param = sgr_param(span.style);
        if param.len() == 0 {
            extend_chars(out, &text);
        } else {
            extend_str(out, "\x1b[");
            extend_chars(out, &param);
            extend_str(out, "m");
            extend_chars(out, &text);
            extend_str(out, "\x1b[0m");
        }
    } else {
        extend_chars(out, &text);
    }
    proof {
        assert(old(out)@ + emit_span(span@, color) =~= final(out)@);
    }
}

/// Render a run of spans to a single string. When `color`, each styled span is
/// wrapped in a self-contained `SGR … reset` pair; otherwise plain text.
pub fn emit(spans: &[Span], color: bool) -> (r: String)
    ensures
        r@ == emit_spec(spans_model(spans@), color),
{
    let mut out: Vec<char> = Vec::new();
    let mut i: usize = 0;
    while i < spans.len()
        invariant
            i <= spans@.len(),
            out@ == emit_spec(spans_model(spans@.take(i as int)), color),
        decreases spans.len() - i,
    {
        emit_one(&mut out, &spans[i], color);
        proof {
            let m = spans_model(spans@.take(i + 1));
            assert(m.drop_last() =~= spans_model(spans@.take(i as int)));
            assert(m.last() == spans@[i as int]@);
        }
        i = i + 1;
    }
    proof {
        assert(spans@.take(spans@.len() as int) =~= spans@);
    }
    string_of(out.as_slice())
}

/// `s` with every newline turned into a space (`str::replace('\n', " ")`).
pub open spec fn nl_to_space(s: Seq<char>) -> Seq<char> {
    s.map_values(|c: char| if c == '\n' { ' ' } else { c })
}

pub fn nl_to_space_exec(s: &str) -> (r: String)
    ensures
        r@ == nl_to_space(s@),
{
    let v = chars_of(s);
    let mut out: Vec<char> = Vec::new();
    let mut i: usize = 0;
    while i < v.len()
        invariant
            i <= v@.len(),
            out@ == nl_to_space(v@.take(i as int)),
        decreases v.len() - i,
    {
        let c = v[i];
        out.push(if c == '\n' { ' ' } else { c });
        i = i + 1;
        assert(out@ =~= nl_to_space(v@.take(i as int)));
    }
    assert(v@.take(v@.len() as int) =~= v@);
    string_of(out.as_slice())
}

pub open spec fn with_code(s: Style) -> Style { Style { code: true, ..s } }
pub open spec fn with_italic(s: Style) -> Style { Style { italic: true, ..s } }
pub open spec fn with_bold(s: Style) -> Style { Style { bold: true, ..s } }
pub open spec fn with_strike(s: Style) -> Style { Style { strike: true, ..s } }
pub open spec fn with_link(s: Style) -> Style { Style { link: true, ..s } }
pub open spec fn with_dim(s: Style) -> Style { Style { dim: true, ..s } }

/// The spans of one inline node, under the inherited style `base`: text and
/// code become spans (soft breaks as spaces), emphasis/strong/strikethrough
/// and links restyle their children, a link is followed by its dimmed URL,
/// images and footnote references become dimmed placeholders, a hard break
/// becomes a `"\n"` span, and any other node contributes its children.
pub open spec fn node_spans(n: MdNode, base: Style) -> Seq<SpanModel>
    decreases n, 1nat,
{
    match n.kind {
        MdKind::Text { value } => seq![SpanModel { text: nl_to_space(value@), style: base }],
        MdKind::InlineCode { value } => seq![SpanModel { text: nl_to_space(value@), style: with_code(base) }],
        MdKind::Emphasis => collect_spec(n.children@, with_italic(base)),
        MdKind::Strong => collect_spec(n.children@, with_bold(base)),
        MdKind::Delete => collect_spec(n.children@, with_strike(base)),
        MdKind::Link { url } => collect_spec(n.children@, with_link(base)).push(
            SpanModel { text: " ("@ + url@ + ")"@, style: with_dim(base) }),
        MdKind::Image { alt } => seq![SpanModel { text: "[image: "@ + alt@ + "]"@, style: with_dim(base) }],
        MdKind::Break => seq![SpanModel { text: "\n"@, style: base }],
        MdKind::Html { value } => seq![SpanModel { text: nl_to_space(value@), style: with_dim(base) }],
        MdKind::LinkReference => collect_spec(n.children@, with_link(base)),
        MdKind::ImageReference { alt } => seq![SpanModel { text: "[image: "@ + alt@ + "]"@, style: with_dim(base) }],
        MdKind::FootnoteReference { label, identifier } => seq![SpanModel { text: "[^"@ + footnote_marker(label, identifier) + "]"@, style: with_dim(base) }],
        _ => collect_spec(n.children@, base),
    }
}

/// The text a footnote marker shows: the reference's label as written, or
/// its identifier when it has none.
pub open spec fn footnote_marker(label: Option<String>, identifier: String) -> Seq<char> {
    match label {
        Some(l) => l@,
        None => identifier@,
    }
}

/// The spans of a run of inline nodes, in order.
pub open spec fn collect_spec(nodes: Seq<MdNode>, base: Style) -> Seq<SpanModel>
    decreases nodes, 0nat,
{
    if nodes.len() == 0 {
        seq![]
    } else {
        collect_spec(nodes.subrange(0, nodes.len() - 1), base) + node_spans(nodes[nodes.len() - 1], base)
    }
}
/// Inline nodes that hold no newline the renderer would keep: no hard line
/// break, and no newline in an image's alt text, a link's URL or a
/// footnote's marker.
pub open spec fn node_newline_free(n: MdNode) -> bool
    decreases n, 1nat,
{
    match n.kind {
        MdKind::Break => false,
        MdKind::Image { alt } => free_of(alt@, '\n'),
        MdKind::ImageReference { alt } => free_of(alt@, '\n'),
        MdKind::FootnoteReference { label, identifier } => free_of(footnote_marker(label, identifier), '\n'),
        MdKind::Link { url } => free_of(url@, '\n') && nodes_newline_free(n.children@),
        MdKind::Text { value } => true,
        MdKind::InlineCode { value } => true,
        MdKind::Html { value } => true,
        _ => nodes_newline_free(n.children@),
    }
}

/// Every node of the run is [`node_newline_free`].
pub open spec fn nodes_newline_free(ns: Seq<MdNode>) -> bool
    decreases ns, 0nat,
{
    if ns.len() == 0 {
        true
    } else {
        nodes_newline_free(ns.subrange(0, ns.len() - 1)) && node_newline_free(ns[ns.len() - 1])
    }
}

/// No span of the run holds a newline.
pub open spec fn spans_newline_free(spans: Seq<SpanModel>) -> bool {
    forall|i: int| 0 <= i < spans.len() ==> free_of(#[trigger] spans[i].text, '\n')
}

proof fn lemma_newline_free_concat(a: Seq<SpanModel>, b: Seq<SpanModel>)
    requires
        spans_newline_free(a),
        spans_newline_free(b),
    ensures
        spans_newline_free(a + b),
{
    assert forall|i: int| 0 <= i < (a + b).len() implies free_of(#[trigger] (a + b)[i].text, '\n') by {
        if i < a.len() {
            assert((a + b)[i] == a[i]);
        } else {
            assert((a + b)[i] == b[i - a.len()]);
        }
    }
}

proof fn lemma_wrapped_free(open: Seq<char>, middle: Seq<char>, close: Seq<char>)
    requires
        free_of(open, '\n'),
        free_of(middle, '\n'),
        free_of(close, '\n'),
    ensures
        free_of(open + middle + close, '\n'),
{
    let s = open + middle + close;
    assert forall|k: int| 0 <= k < s.len() implies #[trigger] s[k] != '\n' by {
        if k < open.len() {
            assert(s[k] == open[k]);
        } else if k < open.len() + middle.len() {
            assert(s[k] == middle[k - open.len()]);
        } else {
            assert(s[k] == close[k - open.len() - middle.len()]);
        }
    }
}

proof fn lemma_node_spans_newline_free(n: MdNode, base: Style)
    requires
        node_newline_free(n),
    ensures
        spans_newline_free(node_spans(n, base)),
    decreases n, 1nat,
{
    reveal_strlit(" (");
    reveal_strlit(")");
    reveal_strlit("[image: ");
    reveal_strlit("]");
    reveal_strlit("[^");
    match n.kind {
        MdKind::Text { value } => {
            assert(free_of(nl_to_space(value@), '\n'));
        },
        MdKind::InlineCode { value } => {
            assert(free_of(nl_to_space(value@), '\n'));
        },
        MdKind::Html { value } => {
            assert(free_of(nl_to_space(value@), '\n'));
        },
        MdKind::Emphasis => lemma_collect_newline_free(n.children@, with_italic(base)),
        MdKind::Strong => lemma_collect_newline_free(n.children@, with_bold(base)),
        MdKind::Delete => lemma_collect_newline_free(n.children@, with_strike(base)),
        MdKind::Link { url } => {
            lemma_collect_newline_free(n.children@, with_link(base));
            lemma_wrapped_free(" ("@, url@, ")"@);
            let tail = SpanModel { text: " ("@ + url@ + ")"@, style: with_dim(base) };
            assert(spans_newline_free(seq![tail]));
            lemma_newline_free_concat(collect_spec(n.children@, with_link(base)), seq![tail]);
            assert(collect_spec(n.children@, with_link(base)) + seq![tail] =~= collect_spec(n.children@, with_link(base)).push(tail));
        },
        MdKind::Image { alt } => {
            lemma_wrapped_free("[image: "@, alt@, "]"@);
        },
        MdKind::ImageReference { alt } => {
            lemma_wrapped_free("[image: "@, alt@, "]"@);
        },
        MdKind::FootnoteReference { label, identifier } => {
            lemma_wrapped_free("[^"@, footnote_marker(label, identifier), "]"@);
        },
        MdKind::LinkReference => lemma_collect_newline_free(n.children@, with_link(base)),
        MdKind::Break => {},
        _ => lemma_collect_newline_free(n.children@, base),
    }
}

proof fn lemma_collect_newline_free(ns: Seq<MdNode>, base: Style)
    requires
        nodes_newline_free(ns),
    ensures
        spans_newline_free(collect_spec(ns, base)),
    decreases ns, 0nat,
{
    if ns.len() > 0 {
        lemma_collect_newline_free(ns.subrange(0, ns.len() - 1), base);
        lemma_node_spans_newline_free(ns[ns.len() - 1], base);
        lemma_newline_free_concat(collect_spec(ns.subrange(0, ns.len() - 1), base), node_spans(ns[ns.len() - 1], base));
    }
}

/// Collecting inline nodes with no hard break (and no newline in alt texts,
/// URLs or footnote markers) gives spans without newlines: soft line breaks
/// become spaces. `collect` only appends these spans to its output.
pub proof fn law_collect_has_no_newlines(ns: Seq<MdNode>, base: Style)
    requires
        nodes_newline_free(ns),
    ensures
        spans_newline_free(collect_spec(ns, base)),
{
    lemma_collect_newline_free(ns, base);
}


/// Flatten inline nodes into styled plain-text spans. Soft line breaks
/// become spaces; hard breaks become a `"\n"` span.
pub fn spans(nodes: &Vec<MdNode>) -> (r: Vec<Span>)
    ensures
        spans_model(r@) == collect_spec(nodes@, plain_style()),
{
    let mut out: Vec<Span> = Vec::new();
    collect(nodes, Style::plain(), &mut out);
    assert(spans_model(out@) =~= Seq::<SpanModel>::empty() + collect_spec(nodes@, plain_style()));
    out
}

proof fn lemma_spans_model_push(s: Seq<Span>, x: Span)
    ensures
        spans_model(s.push(x)) == spans_model(s).push(x@),
{
    assert(spans_model(s.push(x)) =~= spans_model(s).push(x@));
}

fn push_span(out: &mut Vec<Span>, text: String, style: Style)
    ensures
        spans_model(final(out)@) == spans_model(old(out)@).push(SpanModel { text: text@, style }),
{
    let ghost t = text@;
    out.push(Span { text, style });
    proof {
        lemma_spans_model_push(old(out)@, Span { text: final(out)@.last().text, style });
        assert(spans_model(final(out)@) =~= spans_model(old(out)@).push(SpanModel { text: t, style }));
    }
}

fn wrapped_text(open: &str, middle: &str, close: &str) -> (r: String)
    ensures
        r@ == open@ + middle@ + close@,
{
    let mut v: Vec<char> = Vec::new();
    extend_str(&mut v, open);
    extend_str(&mut v, middle);
    extend_str(&mut v, close);
    assert(v@ =~= open@ + middle@ + close@);
    string_of(v.as_slice())
}

#[verifier::spinoff_prover]
fn collect_node(node: &MdNode, base: Style, out: &mut Vec<Span>)
    ensures
        spans_model(final(out)@) == spans_model(old(out)@) + node_spans(*node, base),
    decreases *node, 1nat,
{
    let ghost start = spans_model(out@);
    match &node.kind {
        MdKind::Text { value } => {
            push_span(out, nl_to_space_exec(value.as_str()), base);
        },
        MdKind::InlineCode { value } => {
            push_span(out, nl_to_space_exec(value.as_str()), Style { code: true, ..base });
        },
        MdKind::Emphasis => {
            collect(&node.children, Style { italic: true, ..base }, out);
        },
        MdKind::Strong => {
            collect(&node.children, Style { bold: true, ..base }, out);
        },
        MdKind::Delete => {
            collect(&node.children, Style { strike: true, ..base }, out);
        },
        MdKind::Link { url } => {
            collect(&node.children, Style { link: true, ..base }, out);
            push_span(out, wrapped_text(" (", url.as_str(), ")"), Style { dim: true, ..base });
        },
        MdKind::Image { alt } => {
            push_span(out, wrapped_text("[image: ", alt.as_str(), "]"), Style { dim: true, ..base });
        },
        MdKind::Break => {
            push_span(out, wrapped_text("", "\n", ""), base);
            proof {
                reveal_strlit("");
                assert(""@ + "\n"@ + ""@ =~= "\n"@);
            }
        },
        MdKind::Html { value } => {
            push_span(out, nl_to_space_exec(value.as_str()), Style { dim: true, ..base });
        },
        MdKind::LinkReference => {
            collect(&node.children, Style { link: true, ..base }, out);
        },
        MdKind::ImageReference { alt } => {
            push_span(out, wrapped_text("[image: ", alt.as_str(), "]"), Style { dim: true, ..base });
        },
        MdKind::FootnoteReference { label, identifier } => {
            let shown = match label {
                Some(l) => l.as_str(),
                None => identifier.as_str(),
            };
            push_span(out, wrapped_text("[^", shown, "]"), Style { dim: true, ..base });
        },
        _ => {
            collect(&node.children, base, out);
        },
    }
    proof {
        assert(spans_model(final(out)@) =~= start + node_spans(*node, base));
    }
}

/// Append the spans of `nodes`, styled on top of `base`, to `out`; the
/// spans already there stay as they are.
pub fn collect(nodes: &Vec<MdNode>, base: Style, out: &mut Vec<Span>)
    ensures
        spans_model(final(out)@) == spans_model(old(out)@) + collect_spec(nodes@, base),
    decreases nodes@, 0nat,
{
    let ghost start = spans_model(out@);
    let mut i: usize = 0;
    while i < nodes.len()
        invariant
            i <= nodes@.len(),
            spans_model(out@) == start + collect_spec(nodes@.subrange(0, i as int), base),
        decreases nodes.len() - i,
    {
        let ghost prev = spans_model(out@);
        collect_node(&nodes[i], base, out);
        proof {
            let sub = nodes@.subrange(0, i + 1);
            assert(sub.subrange(0, sub.len() - 1) =~= nodes@.subrange(0, i as int));
            assert(sub[sub.len() - 1] == nodes@[i as int]);
            assert(spans_model(out@) =~= start + collect_spec(nodes@.subrange(0, i + 1), base));
        }
        i = i + 1;
    }
    proof {
        assert(nodes@.subrange(0, nodes@.len() as int) =~= nodes@);
    }
}

} // verus!
