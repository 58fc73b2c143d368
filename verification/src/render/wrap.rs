//! Greedy word wrap of styled spans.
use vstd::prelude::*;
use crate::render::inline::{Span, SpanModel, Style, plain_style, spans_model, texts};
use crate::text::{chars_of, join, string_of};

verus! {

/// Total character count of a run of spans.
pub open spec fn text_len(spans: Seq<SpanModel>) -> nat
    decreases spans.len(),
{
    if spans.len() == 0 {
        0
    } else {
        text_len(spans.drop_last()) + spans.last().text.len()
    }
}

/// Some span of the run holds a space character.
pub open spec fn has_space(spans: Seq<SpanModel>) -> bool {
    exists|i: int, j: int| 0 <= i < spans.len() && 0 <= j < spans[i].text.len() && #[trigger] spans[i].text[j] == ' '
}

/// The state of the greedy wrapper between two input characters.
#[verifier::ext_equal]
pub struct WrapModel {
    /// Finished lines.
    pub lines: Seq<Seq<SpanModel>>,
    /// The line being filled.
    pub line: Seq<SpanModel>,
    /// The word being collected.
    pub word: Seq<SpanModel>,
    /// Characters of the current span not yet added to the word.
    pub chunk: Seq<char>,
}

pub open spec fn wrap_init() -> WrapModel {
    WrapModel { lines: seq![], line: seq![], word: seq![], chunk: seq![] }
}

/// The separator placed between two words of a line.
pub open spec fn space_span() -> SpanModel {
    SpanModel { text: seq![' '], style: plain_style() }
}

/// Close the pending chunk into a span of the word.
pub open spec fn push_chunk_spec(st: WrapModel, style: Style) -> WrapModel {
    if st.chunk.len() == 0 {
        st
    } else {
        WrapModel { word: st.word.push(SpanModel { text: st.chunk, style }), chunk: seq![], ..st }
    }
}

/// Place the finished word on the current line, starting a new line first
/// when it would not fit in `width` columns after a separating space.
pub open spec fn place_word_spec(st: WrapModel, width: nat) -> WrapModel {
    if text_len(st.word) == 0 {
        st
    } else {
        let overflow = st.line.len() > 0 && text_len(st.line) + 1 + text_len(st.word) > width;
        let lines = if overflow { st.lines.push(st.line) } else { st.lines };
        let line = if overflow { Seq::<SpanModel>::empty() } else { st.line };
        let line = if line.len() > 0 { line.push(space_span()) } else { line };
        WrapModel { lines, line: line + st.word, word: seq![], chunk: st.chunk }
    }
}

/// One input character: a space ends a word, a newline ends a word and the
/// line, anything else extends the word.
pub open spec fn step_char(st: WrapModel, c: char, style: Style, width: nat) -> WrapModel {
    if c == ' ' {
        place_word_spec(push_chunk_spec(st, style), width)
    } else if c == '\n' {
        let s = place_word_spec(push_chunk_spec(st, style), width);
        WrapModel { lines: s.lines.push(s.line), line: seq![], ..s }
    } else {
        WrapModel { chunk: st.chunk.push(c), ..st }
    }
}

/// The characters `text` fed one by one.
pub open spec fn run_chars(st: WrapModel, text: Seq<char>, style: Style, width: nat) -> WrapModel
    decreases text.len(),
{
    if text.len() == 0 {
        st
    } else {
        step_char(run_chars(st, text.drop_last(), style, width), text.last(), style, width)
    }
}

/// A whole span: its characters, then its pending chunk closed.
pub open spec fn step_span(st: WrapModel, span: SpanModel, width: nat) -> WrapModel {
    push_chunk_spec(run_chars(st, span.text, span.style, width), span.style)
}

pub open spec fn run_spans(spans: Seq<SpanModel>, width: nat) -> WrapModel
    decreases spans.len(),
{
    if spans.len() == 0 {
        wrap_init()
    } else {
        step_span(run_spans(spans.drop_last(), width), spans.last(), width)
    }
}

/// The effective width: `width`, but at least 1.
pub open spec fn eff_width(width: nat) -> nat {
    if width < 1 { 1 } else { width }
}

/// Greedy word wrap of `spans` to `width` columns: words break only at
/// spaces, a newline forces a new line, and a word longer than the width gets
/// a line of its own rather than being split.
pub open spec fn wrap_spec(spans: Seq<SpanModel>, width: nat) -> Seq<Seq<SpanModel>> {
    let st = place_word_spec(run_spans(spans, eff_width(width)), eff_width(width));
    if st.line.len() > 0 { st.lines.push(st.line) } else { st.lines }
}

pub proof fn lemma_text_len_push(s: Seq<SpanModel>, x: SpanModel)
    ensures
        text_len(s.push(x)) == text_len(s) + x.text.len(),
{
    assert(s.push(x).drop_last() =~= s);
}

pub proof fn lemma_text_len_concat(a: Seq<SpanModel>, b: Seq<SpanModel>)
    ensures
        text_len(a + b) == text_len(a) + text_len(b),
    decreases b.len(),
{
    if b.len() == 0 {
        assert(a + b =~= a);
    } else {
        lemma_text_len_concat(a, b.drop_last());
        assert((a + b).drop_last() =~= a + b.drop_last());
    }
}

/// A line fits the width, or it is a single word that cannot be split.
pub open spec fn line_ok(line: Seq<SpanModel>, width: nat) -> bool {
    text_len(line) <= width || !has_space(line)
}

spec fn chars_no_space(c: Seq<char>) -> bool {
    forall|k: int| 0 <= k < c.len() ==> c[k] != ' '
}

spec fn wrap_inv(st: WrapModel, width: nat) -> bool {
    &&& forall|i: int| 0 <= i < st.lines.len() ==> line_ok(#[trigger] st.lines[i], width)
    &&& line_ok(st.line, width)
    &&& !has_space(st.word)
    &&& chars_no_space(st.chunk)
}

proof fn lemma_has_space_concat(a: Seq<SpanModel>, b: Seq<SpanModel>)
    ensures
        has_space(a + b) == (has_space(a) || has_space(b)),
{
    if has_space(a + b) {
        let (i, j) = choose|i: int, j: int| 0 <= i < (a + b).len() && 0 <= j < (a + b)[i].text.len() && #[trigger] (a + b)[i].text[j] == ' ';
        if i < a.len() {
            assert(a[i] == (a + b)[i]);
            assert(a[i].text[j] == ' ');
        } else {
            assert(b[i - a.len()] == (a + b)[i]);
            assert(b[i - a.len()].text[j] == ' ');
        }
    }
    if has_space(a) {
        let (i, j) = choose|i: int, j: int| 0 <= i < a.len() && 0 <= j < a[i].text.len() && #[trigger] a[i].text[j] == ' ';
        assert((a + b)[i] == a[i]);
        assert((a + b)[i].text[j] == ' ');
    }
    if has_space(b) {
        let (i, j) = choose|i: int, j: int| 0 <= i < b.len() && 0 <= j < b[i].text.len() && #[trigger] b[i].text[j] == ' ';
        assert((a + b)[i + a.len()] == b[i]);
        assert((a + b)[i + a.len()].text[j] == ' ');
    }
}

proof fn lemma_has_space_push(a: Seq<SpanModel>, x: SpanModel)
    ensures
        has_space(a.push(x)) == (has_space(a) || has_space(seq![x])),
{
    assert(a.push(x) =~= a + seq![x]);
    lemma_has_space_concat(a, seq![x]);
}

proof fn lemma_inv_push_chunk(st: WrapModel, style: Style, width: nat)
    requires
        wrap_inv(st, width),
    ensures
        wrap_inv(push_chunk_spec(st, style), width),
{
    if st.chunk.len() > 0 {
        let x = SpanModel { text: st.chunk, style };
        lemma_has_space_push(st.word, x);
        if has_space(seq![x]) {
            let (i, j) = choose|i: int, j: int| 0 <= i < seq![x].len() && 0 <= j < seq![x][i].text.len() && #[trigger] seq![x][i].text[j] == ' ';
            assert(st.chunk[j] == ' ');
        }
    }
}

proof fn lemma_inv_place_word(st: WrapModel, width: nat)
    requires
        wrap_inv(st, width),
    ensures
        wrap_inv(place_word_spec(st, width), width),
{
    if text_len(st.word) != 0 {
        let overflow = st.line.len() > 0 && text_len(st.line) + 1 + text_len(st.word) > width;
        let lines = if overflow { st.lines.push(st.line) } else { st.lines };
        let line = if overflow { Seq::<SpanModel>::empty() } else { st.line };
        let line2 = if line.len() > 0 { line.push(space_span()) } else { line };
        assert forall|i: int| 0 <= i < lines.len() implies line_ok(#[trigger] lines[i], width) by {
            if i < st.lines.len() {
                assert(lines[i] == st.lines[i]);
            }
        }
        lemma_has_space_concat(line2, st.word);
        lemma_text_len_concat(line2, st.word);
        if line.len() > 0 {
            lemma_text_len_push(line, space_span());
        } else {
            assert(line2 + st.word =~= st.word);
        }
    }
}

proof fn lemma_inv_step(st: WrapModel, c: char, style: Style, width: nat)
    requires
        wrap_inv(st, width),
    ensures
        wrap_inv(step_char(st, c, style, width), width),
{
    if c == ' ' || c == '\n' {
        lemma_inv_push_chunk(st, style, width);
        lemma_inv_place_word(push_chunk_spec(st, style), width);
        if c == '\n' {
            let s = place_word_spec(push_chunk_spec(st, style), width);
            assert(!has_space(Seq::<SpanModel>::empty()));
            assert forall|i: int| 0 <= i < s.lines.push(s.line).len() implies line_ok(#[trigger] s.lines.push(s.line)[i], width) by {
                if i < s.lines.len() {
                    assert(s.lines.push(s.line)[i] == s.lines[i]);
                }
            }
        }
    }
}

proof fn lemma_inv_run_chars(st: WrapModel, text: Seq<char>, style: Style, width: nat)
    requires
        wrap_inv(st, width),
    ensures
        wrap_inv(run_chars(st, text, style, width), width),
    decreases text.len(),
{
    if text.len() > 0 {
        lemma_inv_run_chars(st, text.drop_last(), style, width);
        lemma_inv_step(run_chars(st, text.drop_last(), style, width), text.last(), style, width);
    }
}

proof fn lemma_inv_run_spans(spans: Seq<SpanModel>, width: nat)
    ensures
        wrap_inv(run_spans(spans, width), width),
    decreases spans.len(),
{
    if spans.len() == 0 {
        assert(!has_space(Seq::<SpanModel>::empty()));
    } else {
        lemma_inv_run_spans(spans.drop_last(), width);
        let st = run_spans(spans.drop_last(), width);
        lemma_inv_run_chars(st, spans.last().text, spans.last().style, width);
        lemma_inv_push_chunk(run_chars(st, spans.last().text, spans.last().style, width), spans.last().style, width);
    }
}

/// Every wrapped line fits in the (effective) width, except a line holding a
/// single word longer than the width, which is kept whole rather than split.
pub proof fn law_wrapped_lines_fit(spans: Seq<SpanModel>, width: nat)
    ensures
        forall|i: int| 0 <= i < wrap_spec(spans, width).len() ==>
            line_ok(#[trigger] wrap_spec(spans, width)[i], eff_width(width)),
{
    let w = eff_width(width);
    lemma_inv_run_spans(spans, w);
    lemma_inv_place_word(run_spans(spans, w), w);
    let st = place_word_spec(run_spans(spans, w), w);
    let out = wrap_spec(spans, width);
    assert forall|i: int| 0 <= i < out.len() implies line_ok(#[trigger] out[i], w) by {
        if st.line.len() > 0 && i == st.lines.len() {
            assert(out[i] == st.line);
        } else {
            assert(out[i] == st.lines[i]);
        }
    }
}

/// The visible characters of `s`: everything but spaces and newlines.
pub open spec fn ink(s: Seq<char>) -> Seq<char>
    decreases s.len(),
{
    if s.len() == 0 {
        seq![]
    } else if s.last() == ' ' || s.last() == '\n' {
        ink(s.drop_last())
    } else {
        ink(s.drop_last()).push(s.last())
    }
}

/// The text of all `lines`, one after another.
pub open spec fn lines_text(lines: Seq<Seq<SpanModel>>) -> Seq<char>
    decreases lines.len(),
{
    if lines.len() == 0 {
        seq![]
    } else {
        lines_text(lines.drop_last()) + texts(lines.last())
    }
}

proof fn lemma_ink_concat(a: Seq<char>, b: Seq<char>)
    ensures
        ink(a + b) == ink(a) + ink(b),
    decreases b.len(),
{
    if b.len() == 0 {
        assert(a + b =~= a);
    } else {
        lemma_ink_concat(a, b.drop_last());
        assert((a + b).drop_last() =~= a + b.drop_last());
        assert((a + b).last() == b.last());
    }
}

spec fn blank_free(c: Seq<char>) -> bool {
    forall|k: int| 0 <= k < c.len() ==> #[trigger] c[k] != ' ' && c[k] != '\n'
}

proof fn lemma_ink_blank_free(c: Seq<char>)
    requires
        blank_free(c),
    ensures
        ink(c) == c,
    decreases c.len(),
{
    if c.len() > 0 {
        lemma_ink_blank_free(c.drop_last());
        assert(c.drop_last().push(c.last()) =~= c);
    }
}

proof fn lemma_texts_concat(a: Seq<SpanModel>, b: Seq<SpanModel>)
    ensures
        texts(a + b) == texts(a) + texts(b),
    decreases b.len(),
{
    if b.len() == 0 {
        assert(a + b =~= a);
    } else {
        lemma_texts_concat(a, b.drop_last());
        assert((a + b).drop_last() =~= a + b.drop_last());
    }
}

proof fn lemma_texts_len(a: Seq<SpanModel>)
    ensures
        texts(a).len() == text_len(a),
    decreases a.len(),
{
    if a.len() > 0 {
        lemma_texts_len(a.drop_last());
    }
}

/// What the state has taken in, as visible characters.
spec fn state_ink(st: WrapModel) -> Seq<char> {
    ink(lines_text(st.lines)) + ink(texts(st.line)) + ink(texts(st.word)) + st.chunk
}

proof fn lemma_ink_push_chunk(st: WrapModel, style: Style)
    requires
        blank_free(st.chunk),
    ensures
        state_ink(push_chunk_spec(st, style)) == state_ink(st),
        push_chunk_spec(st, style).chunk.len() == 0,
{
    if st.chunk.len() > 0 {
        let x = SpanModel { text: st.chunk, style };
        assert(st.word.push(x).drop_last() =~= st.word);
        assert(texts(st.word.push(x)) == texts(st.word) + st.chunk);
        lemma_ink_concat(texts(st.word), st.chunk);
        lemma_ink_blank_free(st.chunk);
        let t = push_chunk_spec(st, style);
        assert(state_ink(t) =~= state_ink(st));
    }
}

proof fn lemma_ink_place_word(st: WrapModel, width: nat)
    ensures
        state_ink(place_word_spec(st, width)) == state_ink(st),
        place_word_spec(st, width).chunk == st.chunk,
        text_len(place_word_spec(st, width).word) == 0,
{
    if text_len(st.word) != 0 {
        let overflow = st.line.len() > 0 && text_len(st.line) + 1 + text_len(st.word) > width;
        let lines = if overflow { st.lines.push(st.line) } else { st.lines };
        let line = if overflow { Seq::<SpanModel>::empty() } else { st.line };
        let line2 = if line.len() > 0 { line.push(space_span()) } else { line };
        let t = place_word_spec(st, width);
        lemma_texts_concat(line2, st.word);
        lemma_ink_concat(texts(line2), texts(st.word));
        if line.len() > 0 {
            assert(line.push(space_span()).drop_last() =~= line);
            assert(texts(line2) == texts(line) + seq![' ']);
            lemma_ink_concat(texts(line), seq![' ']);
            assert(ink(seq![' ']) == Seq::<char>::empty()) by {
                reveal_with_fuel(ink, 2);
                assert(seq![' '].drop_last() =~= Seq::<char>::empty());
                assert(seq![' '].last() == ' ');
            }
            assert(ink(texts(line2)) =~= ink(texts(line)));
        }
        if overflow {
            assert(lines.drop_last() =~= st.lines);
            assert(lines_text(lines) == lines_text(st.lines) + texts(st.line));
            lemma_ink_concat(lines_text(st.lines), texts(st.line));
            assert(texts(line2) == Seq::<char>::empty());
        }
        assert(texts(t.word) == Seq::<char>::empty());
        assert(state_ink(t) =~= state_ink(st));
        assert(text_len(t.word) == 0);
    }
}

proof fn lemma_ink_step(st: WrapModel, c: char, style: Style, width: nat)
    requires
        blank_free(st.chunk),
    ensures
        state_ink(step_char(st, c, style, width)) == state_ink(st) + ink(seq![c]),
        blank_free(step_char(st, c, style, width).chunk),
{
    assert(seq![c].drop_last() =~= Seq::<char>::empty());
    assert(seq![c].last() == c);
    assert(ink(seq![c]) == if c == ' ' || c == '\n' { Seq::<char>::empty() } else { seq![c] }) by {
        reveal_with_fuel(ink, 2);
        assert(Seq::<char>::empty().push(c) =~= seq![c]);
    }
    if c == ' ' || c == '\n' {
        lemma_ink_push_chunk(st, style);
        lemma_ink_place_word(push_chunk_spec(st, style), width);
        assert(ink(seq![c]) == Seq::<char>::empty());
        if c == '\n' {
            let s = place_word_spec(push_chunk_spec(st, style), width);
            assert(s.lines.push(s.line).drop_last() =~= s.lines);
            lemma_ink_concat(lines_text(s.lines), texts(s.line));
            let t = step_char(st, c, style, width);
            assert(texts(t.line) == Seq::<char>::empty());
            assert(state_ink(t) =~= state_ink(s));
        }
        assert(state_ink(step_char(st, c, style, width)) =~= state_ink(st) + ink(seq![c]));
    } else {
        assert(ink(seq![c]) =~= seq![c]);
        assert(state_ink(step_char(st, c, style, width)) =~= state_ink(st) + seq![c]);
    }
}

proof fn lemma_ink_run_chars(st: WrapModel, text: Seq<char>, style: Style, width: nat)
    requires
        blank_free(st.chunk),
    ensures
        state_ink(run_chars(st, text, style, width)) == state_ink(st) + ink(text),
        blank_free(run_chars(st, text, style, width).chunk),
    decreases text.len(),
{
    if text.len() == 0 {
        assert(state_ink(st) + ink(text) =~= state_ink(st));
    } else {
        let prev = run_chars(st, text.drop_last(), style, width);
        lemma_ink_run_chars(st, text.drop_last(), style, width);
        lemma_ink_step(prev, text.last(), style, width);
        assert(text.drop_last() + seq![text.last()] =~= text);
        lemma_ink_concat(text.drop_last(), seq![text.last()]);
        assert(state_ink(st) + ink(text.drop_last()) + ink(seq![text.last()]) =~= state_ink(st) + ink(text));
    }
}

proof fn lemma_ink_run_spans(spans: Seq<SpanModel>, width: nat)
    ensures
        state_ink(run_spans(spans, width)) == ink(texts(spans)),
        run_spans(spans, width).chunk.len() == 0,
    decreases spans.len(),
{
    if spans.len() == 0 {
        assert(state_ink(wrap_init()) =~= Seq::<char>::empty());
    } else {
        let st = run_spans(spans.drop_last(), width);
        lemma_ink_run_spans(spans.drop_last(), width);
        let last = spans.last();
        assert(blank_free(st.chunk));
        lemma_ink_run_chars(st, last.text, last.style, width);
        lemma_ink_push_chunk(run_chars(st, last.text, last.style, width), last.style);
        lemma_ink_concat(texts(spans.drop_last()), last.text);
    }
}

/// Wrapping loses no text: the visible characters of the lines, one after
/// another, are those of the input; only spaces and newlines move.
pub proof fn law_wrap_keeps_text(spans: Seq<SpanModel>, width: nat)
    ensures
        ink(lines_text(wrap_spec(spans, width))) == ink(texts(spans)),
{
    let w = eff_width(width);
    lemma_ink_run_spans(spans, w);
    lemma_ink_place_word(run_spans(spans, w), w);
    let st = place_word_spec(run_spans(spans, w), w);
    lemma_texts_len(st.word);
    assert(texts(st.word) =~= Seq::<char>::empty());
    assert(ink(texts(st.word)) == Seq::<char>::empty());
    let out = wrap_spec(spans, width);
    if st.line.len() > 0 {
        assert(st.lines.push(st.line).drop_last() =~= st.lines);
        lemma_ink_concat(lines_text(st.lines), texts(st.line));
    } else {
        assert(texts(st.line) =~= Seq::<char>::empty());
    }
    assert(state_ink(st) =~= ink(lines_text(out)));
}

/// `s` with every character paired with `style`.
pub open spec fn tag(s: Seq<char>, style: Style) -> Seq<(char, Style)> {
    s.map_values(|c: char| (c, style))
}

/// The visible characters of a run of spans, each paired with the style of
/// the span it stands in.
pub open spec fn styled_ink(spans: Seq<SpanModel>) -> Seq<(char, Style)>
    decreases spans.len(),
{
    if spans.len() == 0 {
        seq![]
    } else {
        styled_ink(spans.drop_last()) + tag(ink(spans.last().text), spans.last().style)
    }
}

/// [`styled_ink`] of all `lines`, one after another.
pub open spec fn lines_styled_ink(lines: Seq<Seq<SpanModel>>) -> Seq<(char, Style)>
    decreases lines.len(),
{
    if lines.len() == 0 {
        seq![]
    } else {
        lines_styled_ink(lines.drop_last()) + styled_ink(lines.last())
    }
}

proof fn lemma_styled_concat(a: Seq<SpanModel>, b: Seq<SpanModel>)
    ensures
        styled_ink(a + b) == styled_ink(a) + styled_ink(b),
    decreases b.len(),
{
    if b.len() == 0 {
        assert(a + b =~= a);
        assert(styled_ink(a) + styled_ink(b) =~= styled_ink(a));
    } else {
        lemma_styled_concat(a, b.drop_last());
        assert((a + b).drop_last() =~= a + b.drop_last());
        assert((a + b).last() == b.last());
        let t = tag(ink(b.last().text), b.last().style);
        assert(styled_ink(a) + styled_ink(b.drop_last()) + t =~= styled_ink(a) + (styled_ink(b.drop_last()) + t));
    }
}

/// What the state has taken in, as visible characters with their styles;
/// the pending chunk is in `style`, the style of the span being read.
spec fn state_sink(st: WrapModel, style: Style) -> Seq<(char, Style)> {
    lines_styled_ink(st.lines) + styled_ink(st.line) + styled_ink(st.word) + tag(st.chunk, style)
}

proof fn lemma_sink_push_chunk(st: WrapModel, style: Style, other: Style)
    requires
        blank_free(st.chunk),
    ensures
        state_sink(push_chunk_spec(st, style), other) == state_sink(st, style),
{
    let t = push_chunk_spec(st, style);
    if st.chunk.len() > 0 {
        let x = SpanModel { text: st.chunk, style };
        assert(st.word.push(x).drop_last() =~= st.word);
        lemma_ink_blank_free(st.chunk);
        assert(styled_ink(st.word.push(x)) == styled_ink(st.word) + tag(st.chunk, style));
        assert(tag(t.chunk, other) =~= Seq::<(char, Style)>::empty());
        assert(state_sink(t, other) =~= state_sink(st, style));
    } else {
        assert(tag(st.chunk, other) =~= tag(st.chunk, style));
    }
}

proof fn lemma_sink_place_word(st: WrapModel, width: nat, style: Style)
    ensures
        state_sink(place_word_spec(st, width), style) == state_sink(st, style),
{
    if text_len(st.word) != 0 {
        let overflow = st.line.len() > 0 && text_len(st.line) + 1 + text_len(st.word) > width;
        let lines = if overflow { st.lines.push(st.line) } else { st.lines };
        let line = if overflow { Seq::<SpanModel>::empty() } else { st.line };
        let line2 = if line.len() > 0 { line.push(space_span()) } else { line };
        let t = place_word_spec(st, width);
        lemma_styled_concat(line2, st.word);
        if line.len() > 0 {
            assert(line.push(space_span()).drop_last() =~= line);
            assert(ink(seq![' ']) == Seq::<char>::empty()) by {
                reveal_with_fuel(ink, 2);
                assert(seq![' '].drop_last() =~= Seq::<char>::empty());
                assert(seq![' '].last() == ' ');
            }
            assert(tag(ink(space_span().text), space_span().style) =~= Seq::<(char, Style)>::empty());
            assert(styled_ink(line2) =~= styled_ink(line));
        }
        if overflow {
            assert(lines.drop_last() =~= st.lines);
            assert(styled_ink(line2) =~= Seq::<(char, Style)>::empty());
        }
        assert(styled_ink(t.word) =~= Seq::<(char, Style)>::empty());
        assert(state_sink(t, style) =~= state_sink(st, style));
    }
}

proof fn lemma_sink_step(st: WrapModel, c: char, style: Style, width: nat)
    requires
        blank_free(st.chunk),
    ensures
        state_sink(step_char(st, c, style, width), style) == state_sink(st, style) + tag(ink(seq![c]), style),
        blank_free(step_char(st, c, style, width).chunk),
{
    assert(seq![c].drop_last() =~= Seq::<char>::empty());
    assert(seq![c].last() == c);
    assert(ink(seq![c]) == if c == ' ' || c == '\n' { Seq::<char>::empty() } else { seq![c] }) by {
        reveal_with_fuel(ink, 2);
        assert(Seq::<char>::empty().push(c) =~= seq![c]);
    }
    if c == ' ' || c == '\n' {
        lemma_sink_push_chunk(st, style, style);
        lemma_sink_place_word(push_chunk_spec(st, style), width, style);
        assert(tag(ink(seq![c]), style) =~= Seq::<(char, Style)>::empty());
        if c == '\n' {
            let s = place_word_spec(push_chunk_spec(st, style), width);
            assert(s.lines.push(s.line).drop_last() =~= s.lines);
            let t = step_char(st, c, style, width);
            assert(styled_ink(t.line) =~= Seq::<(char, Style)>::empty());
            assert(state_sink(t, style) =~= state_sink(s, style));
        }
        assert(state_sink(step_char(st, c, style, width), style) =~= state_sink(st, style) + tag(ink(seq![c]), style));
        lemma_ink_step(st, c, style, width);
    } else {
        let t = step_char(st, c, style, width);
        assert(tag(t.chunk, style) =~= tag(st.chunk, style) + tag(seq![c], style));
        assert(ink(seq![c]) =~= seq![c]);
        assert(state_sink(t, style) =~= state_sink(st, style) + tag(ink(seq![c]), style));
        lemma_ink_step(st, c, style, width);
    }
}

proof fn lemma_sink_run_chars(st: WrapModel, text: Seq<char>, style: Style, width: nat)
    requires
        blank_free(st.chunk),
    ensures
        state_sink(run_chars(st, text, style, width), style) == state_sink(st, style) + tag(ink(text), style),
        blank_free(run_chars(st, text, style, width).chunk),
    decreases text.len(),
{
    if text.len() == 0 {
        assert(state_sink(st, style) + tag(ink(text), style) =~= state_sink(st, style));
    } else {
        let prev = run_chars(st, text.drop_last(), style, width);
        lemma_sink_run_chars(st, text.drop_last(), style, width);
        lemma_sink_step(prev, text.last(), style, width);
        assert(text.drop_last() + seq![text.last()] =~= text);
        lemma_ink_concat(text.drop_last(), seq![text.last()]);
        assert(tag(ink(text), style) =~= tag(ink(text.drop_last()), style) + tag(ink(seq![text.last()]), style));
        assert(state_sink(st, style) + tag(ink(text.drop_last()), style) + tag(ink(seq![text.last()]), style)
            =~= state_sink(st, style) + tag(ink(text), style));
    }
}

proof fn lemma_sink_run_spans(spans: Seq<SpanModel>, width: nat, style: Style)
    ensures
        state_sink(run_spans(spans, width), style) == styled_ink(spans),
        run_spans(spans, width).chunk.len() == 0,
    decreases spans.len(),
{
    if spans.len() == 0 {
        assert(state_sink(wrap_init(), style) =~= Seq::<(char, Style)>::empty());
    } else {
        let last = spans.last();
        let st = run_spans(spans.drop_last(), width);
        lemma_sink_run_spans(spans.drop_last(), width, last.style);
        lemma_ink_run_spans(spans.drop_last(), width);
        assert(blank_free(st.chunk));
        lemma_sink_run_chars(st, last.text, last.style, width);
        lemma_sink_push_chunk(run_chars(st, last.text, last.style, width), last.style, style);
        lemma_ink_push_chunk(run_chars(st, last.text, last.style, width), last.style);
    }
}

/// Wrapping keeps every visible character in its style: the visible
/// characters of the lines, one after another and each with the style of
/// the span it stands in, are those of the input spans.
pub proof fn law_wrap_keeps_styles(spans: Seq<SpanModel>, width: nat)
    ensures
        lines_styled_ink(wrap_spec(spans, width)) == styled_ink(spans),
{
    let w = eff_width(width);
    let style = plain_style();
    lemma_sink_run_spans(spans, w, style);
    lemma_sink_place_word(run_spans(spans, w), w, style);
    lemma_ink_place_word(run_spans(spans, w), w);
    let st = place_word_spec(run_spans(spans, w), w);
    lemma_sink_empty_word(st.word);
    assert(tag(st.chunk, style) =~= Seq::<(char, Style)>::empty());
    let out = wrap_spec(spans, width);
    if st.line.len() > 0 {
        assert(st.lines.push(st.line).drop_last() =~= st.lines);
    }
    assert(state_sink(st, style) =~= lines_styled_ink(out));
}

/// A run of spans without text has no visible characters.
proof fn lemma_sink_empty_word(word: Seq<SpanModel>)
    requires
        text_len(word) == 0,
    ensures
        styled_ink(word) == Seq::<(char, Style)>::empty(),
    decreases word.len(),
{
    if word.len() > 0 {
        lemma_sink_empty_word(word.drop_last());
        assert(word.last().text =~= Seq::<char>::empty());
        assert(ink(word.last().text) == Seq::<char>::empty());
        assert(tag(ink(word.last().text), word.last().style) =~= Seq::<(char, Style)>::empty());
        assert(styled_ink(word) =~= Seq::<(char, Style)>::empty());
    }
}

/// The words of `s` read so far, from the left: the finished ones, and the
/// one being read (empty after a space or newline).
pub open spec fn word_scan(s: Seq<char>) -> (Seq<Seq<char>>, Seq<char>)
    decreases s.len(),
{
    if s.len() == 0 {
        (seq![], seq![])
    } else {
        let prev = word_scan(s.drop_last());
        if s.last() == ' ' || s.last() == '\n' {
            if prev.1.len() > 0 { (prev.0.push(prev.1), seq![]) } else { (prev.0, seq![]) }
        } else {
            (prev.0, prev.1.push(s.last()))
        }
    }
}

/// The words of `s`: its maximal runs of characters other than spaces and
/// newlines, in order.
pub open spec fn words(s: Seq<char>) -> Seq<Seq<char>> {
    let scan = word_scan(s);
    if scan.1.len() > 0 { scan.0.push(scan.1) } else { scan.0 }
}

/// Wrapped lines as one text, a newline after each line but the last.
pub open spec fn lines_joined(lines: Seq<Seq<SpanModel>>) -> Seq<char> {
    join(lines.map_values(|l: Seq<SpanModel>| texts(l)), seq!['\n'])
}

proof fn lemma_scan_blank(x: Seq<char>, b: char)
    requires
        b == ' ' || b == '\n',
    ensures
        word_scan(x.push(b)).0 == words(x),
        word_scan(x.push(b)).1 == Seq::<char>::empty(),
        words(x.push(b)) == words(x),
{
    assert(x.push(b).drop_last() =~= x);
}

proof fn lemma_scan_word(x: Seq<char>, w: Seq<char>)
    requires
        word_scan(x).1.len() == 0,
        blank_free(w),
    ensures
        word_scan(x + w) == (word_scan(x).0, w),
    decreases w.len(),
{
    if w.len() == 0 {
        assert(x + w =~= x);
        assert(word_scan(x).1 =~= w);
    } else {
        assert(blank_free(w.drop_last())) by {
            assert forall|k: int| 0 <= k < w.drop_last().len() implies #[trigger] w.drop_last()[k] != ' ' && w.drop_last()[k] != '\n' by {
                assert(w.drop_last()[k] == w[k]);
            }
        }
        lemma_scan_word(x, w.drop_last());
        assert((x + w).drop_last() =~= x + w.drop_last());
        assert((x + w).last() == w.last());
        assert(w.last() != ' ' && w.last() != '\n');
        assert(w.drop_last().push(w.last()) =~= w);
    }
}

/// A word placed after a separator (or at the very start) adds one word.
proof fn lemma_words_after_sep(x: Seq<char>, b: char, w: Seq<char>)
    requires
        b == ' ' || b == '\n',
        blank_free(w),
        w.len() > 0,
    ensures
        words(x + seq![b] + w) == words(x).push(w),
        words(w) == seq![w],
{
    lemma_scan_blank(x, b);
    assert(x + seq![b] =~= x.push(b));
    lemma_scan_word(x.push(b), w);
    assert(word_scan(Seq::<char>::empty()) == (Seq::<Seq<char>>::empty(), Seq::<char>::empty()));
    lemma_scan_word(Seq::<char>::empty(), w);
    assert(Seq::<char>::empty() + w =~= w);
    assert(Seq::<Seq<char>>::empty().push(w) =~= seq![w]);
}

proof fn lemma_lines_joined_push(ls: Seq<Seq<SpanModel>>, l: Seq<SpanModel>)
    ensures
        lines_joined(ls.push(l)) == if ls.len() == 0 { texts(l) } else { lines_joined(ls) + seq!['\n'] + texts(l) },
{
    let f = |x: Seq<SpanModel>| texts(x);
    let p = ls.map_values(f);
    assert(ls.push(l).map_values(f) =~= p.push(texts(l)));
    assert(p.push(texts(l)).drop_last() =~= p);
    if ls.len() == 0 {
        assert(p.push(texts(l)).len() == 1);
    }
}

proof fn lemma_blank_free_concat(a: Seq<char>, b: Seq<char>)
    requires
        blank_free(a),
        blank_free(b),
    ensures
        blank_free(a + b),
{
    assert forall|k: int| 0 <= k < (a + b).len() implies #[trigger] (a + b)[k] != ' ' && (a + b)[k] != '\n' by {
        if k < a.len() {
            assert((a + b)[k] == a[k]);
        } else {
            assert((a + b)[k] == b[k - a.len()]);
        }
    }
}

/// What the state shows as text so far: its finished lines and the current
/// one, joined by newlines.
spec fn out_text(st: WrapModel) -> Seq<char> {
    lines_joined(st.lines.push(st.line))
}

/// The state agrees with the input read so far, word for word.
spec fn words_inv(st: WrapModel, read: Seq<char>) -> bool {
    &&& word_scan(read).0 == words(out_text(st))
    &&& word_scan(read).1 == texts(st.word) + st.chunk
    &&& blank_free(texts(st.word))
    &&& blank_free(st.chunk)
}

proof fn lemma_words_push_chunk(st: WrapModel, style: Style, read: Seq<char>)
    requires
        words_inv(st, read),
    ensures
        words_inv(push_chunk_spec(st, style), read),
{
    if st.chunk.len() > 0 {
        let x = SpanModel { text: st.chunk, style };
        assert(st.word.push(x).drop_last() =~= st.word);
        assert(texts(st.word.push(x)) == texts(st.word) + st.chunk);
        lemma_blank_free_concat(texts(st.word), st.chunk);
        assert(texts(st.word) + st.chunk + Seq::<char>::empty() =~= texts(st.word) + st.chunk);
    }
}

/// Placing the word (with no pending chunk) finishes it as a word of the
/// output.
proof fn lemma_words_place_word(st: WrapModel, width: nat)
    requires
        st.chunk.len() == 0,
        blank_free(texts(st.word)),
    ensures
        words(out_text(place_word_spec(st, width)))
            == if texts(st.word).len() > 0 { words(out_text(st)).push(texts(st.word)) } else { words(out_text(st)) },
        texts(place_word_spec(st, width).word) == Seq::<char>::empty(),
        place_word_spec(st, width).chunk.len() == 0,
{
    lemma_texts_len(st.word);
    lemma_ink_place_word(st, width);
    let t = place_word_spec(st, width);
    lemma_texts_len(t.word);
    if text_len(st.word) != 0 {
        let w = texts(st.word);
        let overflow = st.line.len() > 0 && text_len(st.line) + 1 + text_len(st.word) > width;
        lemma_lines_joined_push(st.lines, st.line);
        if overflow {
            let lines = st.lines.push(st.line);
            assert(t.lines == lines);
            assert(t.line =~= st.word);
            lemma_lines_joined_push(lines, st.word);
            lemma_words_after_sep(out_text(st), '\n', w);
        } else if st.line.len() > 0 {
            let line2 = st.line.push(space_span());
            assert(t.line == line2 + st.word);
            lemma_texts_concat(line2, st.word);
            assert(line2.drop_last() =~= st.line);
            assert(texts(line2) == texts(st.line) + seq![' ']);
            lemma_lines_joined_push(st.lines, t.line);
            if st.lines.len() == 0 {
                assert(out_text(t) =~= out_text(st) + seq![' '] + w);
            } else {
                assert(out_text(t) =~= out_text(st) + seq![' '] + w);
            }
            lemma_words_after_sep(out_text(st), ' ', w);
        } else {
            assert(t.line =~= st.word);
            lemma_lines_joined_push(st.lines, t.line);
            assert(texts(st.line) == Seq::<char>::empty());
            if st.lines.len() == 0 {
                assert(out_text(st) =~= Seq::<char>::empty());
                lemma_words_after_sep(Seq::<char>::empty(), ' ', w);
                assert(words(Seq::<char>::empty()) =~= Seq::<Seq<char>>::empty());
                assert(Seq::<Seq<char>>::empty().push(w) =~= seq![w]);
            } else {
                let p = lines_joined(st.lines);
                assert(out_text(st) =~= p + seq!['\n']);
                assert(out_text(t) =~= p + seq!['\n'] + w);
                lemma_words_after_sep(p, '\n', w);
                lemma_scan_blank(p, '\n');
                assert(p.push('\n') =~= p + seq!['\n']);
            }
        }
    } else {
        assert(texts(st.word).len() == 0);
    }
}

proof fn lemma_words_step(st: WrapModel, c: char, style: Style, width: nat, read: Seq<char>)
    requires
        words_inv(st, read),
    ensures
        words_inv(step_char(st, c, style, width), read.push(c)),
{
    assert(read.push(c).drop_last() =~= read);
    if c == ' ' || c == '\n' {
        lemma_words_push_chunk(st, style, read);
        let p = push_chunk_spec(st, style);
        lemma_words_place_word(p, width);
        let s = place_word_spec(p, width);
        lemma_scan_blank(read, c);
        let cur = word_scan(read).1;
        assert(cur == texts(p.word));
        assert(cur.len() > 0 ==> word_scan(read.push(c)).0 == word_scan(read).0.push(cur));
        if c == '\n' {
            let t = step_char(st, c, style, width);
            assert(t.lines == s.lines.push(s.line));
            assert(t.line == Seq::<SpanModel>::empty());
            lemma_lines_joined_push(s.lines.push(s.line), t.line);
            assert(texts(t.line) == Seq::<char>::empty());
            assert(out_text(t) =~= out_text(s).push('\n'));
            lemma_scan_blank(out_text(s), '\n');
        }
        let t = step_char(st, c, style, width);
        assert(texts(t.word) + t.chunk =~= Seq::<char>::empty());
    } else {
        let t = step_char(st, c, style, width);
        assert(texts(t.word) + t.chunk =~= (texts(st.word) + st.chunk).push(c));
        assert forall|k: int| 0 <= k < t.chunk.len() implies #[trigger] t.chunk[k] != ' ' && t.chunk[k] != '\n' by {
            if k < st.chunk.len() {
                assert(t.chunk[k] == st.chunk[k]);
            }
        }
    }
}

proof fn lemma_words_run_chars(st: WrapModel, text: Seq<char>, style: Style, width: nat, read: Seq<char>)
    requires
        words_inv(st, read),
    ensures
        words_inv(run_chars(st, text, style, width), read + text),
    decreases text.len(),
{
    if text.len() == 0 {
        assert(read + text =~= read);
    } else {
        lemma_words_run_chars(st, text.drop_last(), style, width, read);
        lemma_words_step(run_chars(st, text.drop_last(), style, width), text.last(), style, width, read + text.drop_last());
        assert((read + text.drop_last()).push(text.last()) =~= read + text);
    }
}

proof fn lemma_words_run_spans(spans: Seq<SpanModel>, width: nat)
    ensures
        words_inv(run_spans(spans, width), texts(spans)),
        run_spans(spans, width).chunk.len() == 0,
    decreases spans.len(),
{
    if spans.len() == 0 {
        let st = wrap_init();
        lemma_lines_joined_push(st.lines, st.line);
        assert(out_text(st) =~= Seq::<char>::empty());
        assert(word_scan(Seq::<char>::empty()).0 =~= words(Seq::<char>::empty()));
        assert(texts(st.word) + st.chunk =~= Seq::<char>::empty());
    } else {
        lemma_words_run_spans(spans.drop_last(), width);
        let st = run_spans(spans.drop_last(), width);
        let last = spans.last();
        lemma_words_run_chars(st, last.text, last.style, width, texts(spans.drop_last()));
        lemma_words_push_chunk(run_chars(st, last.text, last.style, width), last.style, texts(spans.drop_last()) + last.text);
    }
}

/// Wrapping keeps the words: read as text, the lines hold the words of the
/// input, in order, each whole; only the blanks between them change.
pub proof fn law_wrap_keeps_words(spans: Seq<SpanModel>, width: nat)
    ensures
        words(lines_joined(wrap_spec(spans, width))) == words(texts(spans)),
{
    let w = eff_width(width);
    lemma_words_run_spans(spans, w);
    let r = run_spans(spans, w);
    lemma_words_place_word(r, w);
    let st = place_word_spec(r, w);
    let read = texts(spans);
    assert(word_scan(read).1 == texts(r.word));
    let out = wrap_spec(spans, width);
    lemma_lines_joined_push(st.lines, st.line);
    if st.line.len() == 0 {
        assert(texts(st.line) == Seq::<char>::empty());
        if st.lines.len() > 0 {
            assert(out_text(st) =~= lines_joined(st.lines).push('\n'));
            lemma_scan_blank(lines_joined(st.lines), '\n');
        } else {
            assert(out == st.lines);
            assert(out_text(st) =~= Seq::<char>::empty());
            assert(lines_joined(out) =~= Seq::<char>::empty());
        }
    }
}

/// A span of wrapped output: the plain one-space separator between two
/// words, or a non-empty piece of a word, with no space or newline in it.
pub open spec fn output_span_ok(x: SpanModel) -> bool {
    x == space_span() || (x.text.len() > 0 && forall|k: int| 0 <= k < x.text.len() ==> #[trigger] x.text[k] != ' ' && x.text[k] != '\n')
}

/// Every span of a run is an [`output_span_ok`] span.
pub open spec fn spans_ok(line: Seq<SpanModel>) -> bool {
    forall|i: int| 0 <= i < line.len() ==> output_span_ok(#[trigger] line[i])
}

spec fn shape_inv(st: WrapModel) -> bool {
    &&& forall|i: int| 0 <= i < st.lines.len() ==> spans_ok(#[trigger] st.lines[i])
    &&& spans_ok(st.line)
    &&& spans_ok(st.word)
    &&& blank_free(st.chunk)
}

proof fn lemma_spans_ok_concat(a: Seq<SpanModel>, b: Seq<SpanModel>)
    requires
        spans_ok(a),
        spans_ok(b),
    ensures
        spans_ok(a + b),
{
    assert forall|i: int| 0 <= i < (a + b).len() implies output_span_ok(#[trigger] (a + b)[i]) by {
        if i < a.len() {
            assert((a + b)[i] == a[i]);
        } else {
            assert((a + b)[i] == b[i - a.len()]);
        }
    }
}

proof fn lemma_shape_push_chunk(st: WrapModel, style: Style)
    requires
        shape_inv(st),
    ensures
        shape_inv(push_chunk_spec(st, style)),
{
    if st.chunk.len() > 0 {
        let x = SpanModel { text: st.chunk, style };
        assert(output_span_ok(x));
        lemma_spans_ok_concat(st.word, seq![x]);
        assert(st.word + seq![x] =~= st.word.push(x));
    }
}

proof fn lemma_shape_place_word(st: WrapModel, width: nat)
    requires
        shape_inv(st),
    ensures
        shape_inv(place_word_spec(st, width)),
{
    if text_len(st.word) != 0 {
        let overflow = st.line.len() > 0 && text_len(st.line) + 1 + text_len(st.word) > width;
        let lines = if overflow { st.lines.push(st.line) } else { st.lines };
        let line = if overflow { Seq::<SpanModel>::empty() } else { st.line };
        let line2 = if line.len() > 0 { line.push(space_span()) } else { line };
        assert forall|i: int| 0 <= i < lines.len() implies spans_ok(#[trigger] lines[i]) by {
            if i < st.lines.len() {
                assert(lines[i] == st.lines[i]);
            }
        }
        assert(spans_ok(line));
        if line.len() > 0 {
            assert(output_span_ok(space_span()));
            lemma_spans_ok_concat(line, seq![space_span()]);
            assert(line + seq![space_span()] =~= line2);
        }
        lemma_spans_ok_concat(line2, st.word);
        assert(spans_ok(Seq::<SpanModel>::empty()));
    }
}

proof fn lemma_shape_step(st: WrapModel, c: char, style: Style, width: nat)
    requires
        shape_inv(st),
    ensures
        shape_inv(step_char(st, c, style, width)),
{
    if c == ' ' || c == '\n' {
        lemma_shape_push_chunk(st, style);
        lemma_shape_place_word(push_chunk_spec(st, style), width);
        if c == '\n' {
            let s = place_word_spec(push_chunk_spec(st, style), width);
            assert forall|i: int| 0 <= i < s.lines.push(s.line).len() implies spans_ok(#[trigger] s.lines.push(s.line)[i]) by {
                if i < s.lines.len() {
                    assert(s.lines.push(s.line)[i] == s.lines[i]);
                }
            }
            assert(spans_ok(Seq::<SpanModel>::empty()));
        }
    } else {
        let t = step_char(st, c, style, width);
        assert forall|k: int| 0 <= k < t.chunk.len() implies #[trigger] t.chunk[k] != ' ' && t.chunk[k] != '\n' by {
            if k < st.chunk.len() {
                assert(t.chunk[k] == st.chunk[k]);
            }
        }
    }
}

proof fn lemma_shape_run_chars(st: WrapModel, text: Seq<char>, style: Style, width: nat)
    requires
        shape_inv(st),
    ensures
        shape_inv(run_chars(st, text, style, width)),
    decreases text.len(),
{
    if text.len() > 0 {
        lemma_shape_run_chars(st, text.drop_last(), style, width);
        lemma_shape_step(run_chars(st, text.drop_last(), style, width), text.last(), style, width);
    }
}

proof fn lemma_shape_run_spans(spans: Seq<SpanModel>, width: nat)
    ensures
        shape_inv(run_spans(spans, width)),
    decreases spans.len(),
{
    if spans.len() == 0 {
        assert(spans_ok(Seq::<SpanModel>::empty()));
    } else {
        lemma_shape_run_spans(spans.drop_last(), width);
        let st = run_spans(spans.drop_last(), width);
        lemma_shape_run_chars(st, spans.last().text, spans.last().style, width);
        lemma_shape_push_chunk(run_chars(st, spans.last().text, spans.last().style, width), spans.last().style);
    }
}

/// Wrapped lines hold only two kinds of spans: pieces of words, non-empty
/// and free of spaces and newlines (a word keeps its input styles), and the
/// plain one-space separator between words. No output span holds a newline.
pub proof fn law_wrap_span_shape(spans: Seq<SpanModel>, width: nat)
    ensures
        forall|i: int| 0 <= i < wrap_spec(spans, width).len() ==> spans_ok(#[trigger] wrap_spec(spans, width)[i]),
{
    let w = eff_width(width);
    lemma_shape_run_spans(spans, w);
    lemma_shape_place_word(run_spans(spans, w), w);
    let st = place_word_spec(run_spans(spans, w), w);
    let out = wrap_spec(spans, width);
    assert forall|i: int| 0 <= i < out.len() implies spans_ok(#[trigger] out[i]) by {
        if st.line.len() > 0 && i == st.lines.len() {
            assert(out[i] == st.line);
        } else {
            assert(out[i] == st.lines[i]);
        }
    }
}

/// Separators of a line stand only between two pieces of words: a line
/// neither starts nor ends with one, and no two come in a row.
pub open spec fn separated(line: Seq<SpanModel>) -> bool {
    &&& line.len() > 0 ==> line[0] != space_span() && line.last() != space_span()
    &&& forall|i: int, j: int|
        0 <= i && j == i + 1 && j < line.len() && #[trigger] line[i] == space_span() ==> #[trigger] line[j] != space_span()
}

spec fn sep_inv(st: WrapModel) -> bool {
    &&& forall|i: int| 0 <= i < st.lines.len() ==> separated(#[trigger] st.lines[i])
    &&& separated(st.line)
    &&& forall|k: int| 0 <= k < st.word.len() ==> #[trigger] st.word[k] != space_span()
    &&& blank_free(st.chunk)
}

proof fn lemma_sep_push_chunk(st: WrapModel, style: Style)
    requires
        sep_inv(st),
    ensures
        sep_inv(push_chunk_spec(st, style)),
{
    if st.chunk.len() > 0 {
        let x = SpanModel { text: st.chunk, style };
        assert(x.text[0] != ' ');
        assert(space_span().text[0] == ' ');
        let w2 = st.word.push(x);
        assert forall|k: int| 0 <= k < w2.len() implies #[trigger] w2[k] != space_span() by {
            if k < st.word.len() {
                assert(w2[k] == st.word[k]);
            }
        }
    }
}

proof fn lemma_sep_place_word(st: WrapModel, width: nat)
    requires
        sep_inv(st),
    ensures
        sep_inv(place_word_spec(st, width)),
{
    if text_len(st.word) != 0 {
        if st.word.len() == 0 {
            assert(text_len(st.word) == 0);
        }
        let overflow = st.line.len() > 0 && text_len(st.line) + 1 + text_len(st.word) > width;
        let lines = if overflow { st.lines.push(st.line) } else { st.lines };
        let line = if overflow { Seq::<SpanModel>::empty() } else { st.line };
        let line2 = if line.len() > 0 { line.push(space_span()) } else { line };
        let t = place_word_spec(st, width);
        assert forall|i: int| 0 <= i < lines.len() implies separated(#[trigger] lines[i]) by {
            if i < st.lines.len() {
                assert(lines[i] == st.lines[i]);
            }
        }
        let nl = line2 + st.word;
        assert(t.line == nl);
        assert(separated(line));
        assert(nl.len() > 0 ==> nl[0] != space_span()) by {
            if line.len() > 0 {
                assert(nl[0] == line[0]);
            } else {
                assert(nl[0] == st.word[0]);
            }
        }
        assert(nl.last() == st.word.last());
        assert(st.word[st.word.len() - 1] != space_span());
        assert forall|i: int, j: int|
            0 <= i && j == i + 1 && j < nl.len() && #[trigger] nl[i] == space_span() implies #[trigger] nl[j] != space_span() by {
            if j < line.len() {
                assert(nl[i] == line[i] && nl[j] == line[j]);
            } else if j == line.len() {
                assert(nl[i] == line[i]);
                assert(line[line.len() - 1] != space_span());
            } else if j == line2.len() {
                assert(nl[j] == st.word[0]);
            } else {
                assert(nl[j] == st.word[j - line2.len()]);
            }
        }
    }
}

proof fn lemma_sep_step(st: WrapModel, c: char, style: Style, width: nat)
    requires
        sep_inv(st),
    ensures
        sep_inv(step_char(st, c, style, width)),
{
    if c == ' ' || c == '\n' {
        lemma_sep_push_chunk(st, style);
        lemma_sep_place_word(push_chunk_spec(st, style), width);
        if c == '\n' {
            let s = place_word_spec(push_chunk_spec(st, style), width);
            assert forall|i: int| 0 <= i < s.lines.push(s.line).len() implies separated(#[trigger] s.lines.push(s.line)[i]) by {
                if i < s.lines.len() {
                    assert(s.lines.push(s.line)[i] == s.lines[i]);
                }
            }
        }
    } else {
        let t = step_char(st, c, style, width);
        assert forall|k: int| 0 <= k < t.chunk.len() implies #[trigger] t.chunk[k] != ' ' && t.chunk[k] != '\n' by {
            if k < st.chunk.len() {
                assert(t.chunk[k] == st.chunk[k]);
            }
        }
    }
}

proof fn lemma_sep_run_chars(st: WrapModel, text: Seq<char>, style: Style, width: nat)
    requires
        sep_inv(st),
    ensures
        sep_inv(run_chars(st, text, style, width)),
    decreases text.len(),
{
    if text.len() > 0 {
        lemma_sep_run_chars(st, text.drop_last(), style, width);
        lemma_sep_step(run_chars(st, text.drop_last(), style, width), text.last(), style, width);
    }
}

proof fn lemma_sep_run_spans(spans: Seq<SpanModel>, width: nat)
    ensures
        sep_inv(run_spans(spans, width)),
    decreases spans.len(),
{
    if spans.len() > 0 {
        lemma_sep_run_spans(spans.drop_last(), width);
        let st = run_spans(spans.drop_last(), width);
        lemma_sep_run_chars(st, spans.last().text, spans.last().style, width);
        lemma_sep_push_chunk(run_chars(st, spans.last().text, spans.last().style, width), spans.last().style);
    }
}

/// In every wrapped line the words are separated by exactly one plain space
/// span: no line starts or ends with a separator, and no two separators
/// come in a row.
pub proof fn law_wrap_separates_words(spans: Seq<SpanModel>, width: nat)
    ensures
        forall|i: int| 0 <= i < wrap_spec(spans, width).len() ==> separated(#[trigger] wrap_spec(spans, width)[i]),
{
    let w = eff_width(width);
    lemma_sep_run_spans(spans, w);
    lemma_sep_place_word(run_spans(spans, w), w);
    let st = place_word_spec(run_spans(spans, w), w);
    let out = wrap_spec(spans, width);
    assert forall|i: int| 0 <= i < out.len() implies separated(#[trigger] out[i]) by {
        if st.line.len() > 0 && i == st.lines.len() {
            assert(out[i] == st.line);
        } else {
            assert(out[i] == st.lines[i]);
        }
    }
}

/// The width of the first word of a line: its spans up to the first
/// separator.
pub open spec fn first_word_len(line: Seq<SpanModel>) -> nat
    decreases line.len(),
{
    if line.len() == 0 || line[0] == space_span() {
        0
    } else {
        line[0].text.len() + first_word_len(line.drop_first())
    }
}

/// Line `a` was closed because the first word of line `b` would not have
/// fitted after it in `width` columns.
pub open spec fn full_before(a: Seq<SpanModel>, b: Seq<SpanModel>, width: nat) -> bool {
    text_len(a) + 1 + first_word_len(b) > width
}

proof fn lemma_first_word_sep(a: Seq<SpanModel>, c: Seq<SpanModel>)
    ensures
        first_word_len(a + (seq![space_span()] + c)) == first_word_len(a),
    decreases a.len(),
{
    let s = a + (seq![space_span()] + c);
    if a.len() == 0 {
        assert(s =~= seq![space_span()] + c);
        assert(s[0] == space_span());
    } else {
        assert(s[0] == a[0]);
        if a[0] != space_span() {
            assert(s.drop_first() =~= a.drop_first() + (seq![space_span()] + c));
            lemma_first_word_sep(a.drop_first(), c);
        }
    }
}

proof fn lemma_first_word_whole(a: Seq<SpanModel>)
    requires
        forall|k: int| 0 <= k < a.len() ==> #[trigger] a[k] != space_span(),
    ensures
        first_word_len(a) == text_len(a),
    decreases a.len(),
{
    if a.len() > 0 {
        let t = a.drop_first();
        assert forall|k: int| 0 <= k < t.len() implies #[trigger] t[k] != space_span() by {
            assert(t[k] == a[k + 1]);
        }
        lemma_first_word_whole(t);
        assert(seq![a[0]] + t =~= a);
        lemma_text_len_concat(seq![a[0]], t);
        assert(seq![a[0]].drop_last() =~= Seq::<SpanModel>::empty());
        assert(text_len(Seq::<SpanModel>::empty()) == 0);
        assert(text_len(seq![a[0]]) == a[0].text.len());
        assert(a[0] != space_span());
        assert(a.drop_first() == t);
    }
}

spec fn greedy_inv(st: WrapModel, width: nat) -> bool {
    &&& forall|i: int| 0 <= i < st.lines.len() - 1 ==> full_before(#[trigger] st.lines[i], st.lines[i + 1], width)
    &&& st.lines.len() > 0 ==> st.line.len() > 0 && full_before(st.lines.last(), st.line, width)
    &&& forall|k: int| 0 <= k < st.word.len() ==> #[trigger] st.word[k] != space_span()
    &&& blank_free(st.chunk)
}

proof fn lemma_greedy_push_chunk(st: WrapModel, style: Style, width: nat)
    requires
        greedy_inv(st, width),
    ensures
        greedy_inv(push_chunk_spec(st, style), width),
{
    if st.chunk.len() > 0 {
        let x = SpanModel { text: st.chunk, style };
        assert(x.text[0] != ' ');
        assert(space_span().text[0] == ' ');
        assert(x != space_span());
        let w2 = st.word.push(x);
        assert forall|k: int| 0 <= k < w2.len() implies #[trigger] w2[k] != space_span() by {
            if k < st.word.len() {
                assert(w2[k] == st.word[k]);
            }
        }
    }
}

proof fn lemma_greedy_place_word(st: WrapModel, width: nat)
    requires
        greedy_inv(st, width),
    ensures
        greedy_inv(place_word_spec(st, width), width),
{
    if text_len(st.word) != 0 {
        let overflow = st.line.len() > 0 && text_len(st.line) + 1 + text_len(st.word) > width;
        let t = place_word_spec(st, width);
        if st.word.len() == 0 {
            assert(text_len(st.word) == 0);
        }
        if overflow {
            lemma_first_word_whole(st.word);
            assert(t.line =~= st.word);
            let lines = st.lines.push(st.line);
            assert forall|i: int| 0 <= i < lines.len() - 1 implies full_before(#[trigger] lines[i], lines[i + 1], width) by {
                if i < st.lines.len() - 1 {
                    assert(lines[i] == st.lines[i] && lines[i + 1] == st.lines[i + 1]);
                } else {
                    assert(lines[i] == st.lines.last() && lines[i + 1] == st.line);
                }
            }
        } else if st.line.len() > 0 {
            assert(t.line =~= st.line + (seq![space_span()] + st.word));
            lemma_first_word_sep(st.line, st.word);
        } else {
            assert(st.lines.len() == 0);
        }
    }
}

proof fn lemma_greedy_run_chars(st: WrapModel, text: Seq<char>, style: Style, width: nat)
    requires
        greedy_inv(st, width),
        forall|k: int| 0 <= k < text.len() ==> #[trigger] text[k] != '\n',
    ensures
        greedy_inv(run_chars(st, text, style, width), width),
    decreases text.len(),
{
    if text.len() > 0 {
        let prefix = text.drop_last();
        assert forall|k: int| 0 <= k < prefix.len() implies #[trigger] prefix[k] != '\n' by {
            assert(prefix[k] == text[k]);
        }
        lemma_greedy_run_chars(st, prefix, style, width);
        let p = run_chars(st, prefix, style, width);
        let c = text.last();
        assert(c != '\n');
        if c == ' ' {
            lemma_greedy_push_chunk(p, style, width);
            lemma_greedy_place_word(push_chunk_spec(p, style), width);
        } else {
            let t = step_char(p, c, style, width);
            assert forall|k: int| 0 <= k < t.chunk.len() implies #[trigger] t.chunk[k] != ' ' && t.chunk[k] != '\n' by {
                if k < p.chunk.len() {
                    assert(t.chunk[k] == p.chunk[k]);
                }
            }
        }
    }
}

proof fn lemma_greedy_run_spans(spans: Seq<SpanModel>, width: nat)
    requires
        forall|i: int, k: int| 0 <= i < spans.len() && 0 <= k < spans[i].text.len() ==> #[trigger] spans[i].text[k] != '\n',
    ensures
        greedy_inv(run_spans(spans, width), width),
    decreases spans.len(),
{
    if spans.len() > 0 {
        let prev = spans.drop_last();
        assert forall|i: int, k: int| 0 <= i < prev.len() && 0 <= k < prev[i].text.len() implies #[trigger] prev[i].text[k] != '\n' by {
            assert(prev[i] == spans[i]);
        }
        lemma_greedy_run_spans(prev, width);
        let st = run_spans(prev, width);
        let last = spans.last();
        assert forall|k: int| 0 <= k < last.text.len() implies #[trigger] last.text[k] != '\n' by {
            assert(spans[spans.len() - 1] == last);
        }
        lemma_greedy_run_chars(st, last.text, last.style, width);
        lemma_greedy_push_chunk(run_chars(st, last.text, last.style, width), last.style, width);
    }
}

/// The wrap is greedy: where the input has no newline, a line ends only
/// because the first word of the next line would not have fitted after it.
pub proof fn law_wrap_is_greedy(spans: Seq<SpanModel>, width: nat)
    requires
        forall|i: int, k: int| 0 <= i < spans.len() && 0 <= k < spans[i].text.len() ==> #[trigger] spans[i].text[k] != '\n',
    ensures
        forall|i: int| 0 <= i < wrap_spec(spans, width).len() - 1
            ==> full_before(#[trigger] wrap_spec(spans, width)[i], wrap_spec(spans, width)[i + 1], eff_width(width)),
{
    let w = eff_width(width);
    lemma_greedy_run_spans(spans, w);
    lemma_greedy_place_word(run_spans(spans, w), w);
    let st = place_word_spec(run_spans(spans, w), w);
    let out = wrap_spec(spans, width);
    assert forall|i: int| 0 <= i < out.len() - 1 implies full_before(#[trigger] out[i], out[i + 1], w) by {
        if st.line.len() > 0 {
            assert(out == st.lines.push(st.line));
            if i < st.lines.len() - 1 {
                assert(out[i] == st.lines[i] && out[i + 1] == st.lines[i + 1]);
            } else {
                assert(out[i] == st.lines.last() && out[i + 1] == st.line);
            }
        } else {
            assert(out[i] == st.lines[i] && out[i + 1] == st.lines[i + 1]);
        }
    }
}

/// How many lines end early: adjacent lines where the first word of the
/// second would have fitted after the first in `width` columns.
pub open spec fn early_breaks(lines: Seq<Seq<SpanModel>>, width: nat) -> nat
    decreases lines.len(),
{
    if lines.len() < 2 {
        0
    } else {
        early_breaks(lines.drop_last(), width) + if full_before(lines[lines.len() - 2], lines.last(), width) { 0nat } else { 1nat }
    }
}

/// The number of newlines in `s`.
pub open spec fn newline_count(s: Seq<char>) -> nat
    decreases s.len(),
{
    if s.len() == 0 {
        0
    } else {
        newline_count(s.drop_last()) + if s.last() == '\n' { 1nat } else { 0nat }
    }
}

/// The break before the current line, when it is not yet known to be full.
spec fn pending_break(st: WrapModel, width: nat) -> nat {
    if st.lines.len() > 0 && (st.line.len() == 0 || !full_before(st.lines.last(), st.line, width)) { 1 } else { 0 }
}

spec fn breaks_inv(st: WrapModel, width: nat, read: Seq<char>) -> bool {
    &&& early_breaks(st.lines, width) + pending_break(st, width) <= newline_count(read)
    &&& forall|k: int| 0 <= k < st.word.len() ==> #[trigger] st.word[k] != space_span()
    &&& blank_free(st.chunk)
}

proof fn lemma_early_push(ls: Seq<Seq<SpanModel>>, l: Seq<SpanModel>, width: nat)
    ensures
        early_breaks(ls.push(l), width)
            == early_breaks(ls, width) + if ls.len() > 0 && !full_before(ls.last(), l, width) { 1nat } else { 0nat },
{
    assert(ls.push(l).drop_last() =~= ls);
    if ls.len() > 0 {
        assert(ls.push(l)[ls.push(l).len() - 2] == ls.last());
    }
}

proof fn lemma_breaks_push_chunk(st: WrapModel, style: Style, width: nat, read: Seq<char>)
    requires
        breaks_inv(st, width, read),
    ensures
        breaks_inv(push_chunk_spec(st, style), width, read),
{
    if st.chunk.len() > 0 {
        let x = SpanModel { text: st.chunk, style };
        assert(x.text[0] != ' ');
        assert(space_span().text[0] == ' ');
        let w2 = st.word.push(x);
        assert forall|k: int| 0 <= k < w2.len() implies #[trigger] w2[k] != space_span() by {
            if k < st.word.len() {
                assert(w2[k] == st.word[k]);
            }
        }
    }
}

proof fn lemma_breaks_place_word(st: WrapModel, width: nat, read: Seq<char>)
    requires
        breaks_inv(st, width, read),
    ensures
        breaks_inv(place_word_spec(st, width), width, read),
{
    if text_len(st.word) != 0 {
        if st.word.len() == 0 {
            assert(text_len(st.word) == 0);
        }
        let overflow = st.line.len() > 0 && text_len(st.line) + 1 + text_len(st.word) > width;
        let t = place_word_spec(st, width);
        if overflow {
            lemma_first_word_whole(st.word);
            assert(t.line =~= st.word);
            lemma_early_push(st.lines, st.line, width);
        } else if st.line.len() > 0 {
            assert(t.line =~= st.line + (seq![space_span()] + st.word));
            lemma_first_word_sep(st.line, st.word);
        } else {
            assert(t.line =~= st.word);
        }
    }
}

proof fn lemma_breaks_step(st: WrapModel, c: char, style: Style, width: nat, read: Seq<char>)
    requires
        breaks_inv(st, width, read),
    ensures
        breaks_inv(step_char(st, c, style, width), width, read.push(c)),
{
    assert(read.push(c).drop_last() =~= read);
    if c == ' ' || c == '\n' {
        lemma_breaks_push_chunk(st, style, width, read);
        lemma_breaks_place_word(push_chunk_spec(st, style), width, read);
        if c == '\n' {
            let s = place_word_spec(push_chunk_spec(st, style), width);
            lemma_early_push(s.lines, s.line, width);
        }
    } else {
        let t = step_char(st, c, style, width);
        assert forall|k: int| 0 <= k < t.chunk.len() implies #[trigger] t.chunk[k] != ' ' && t.chunk[k] != '\n' by {
            if k < st.chunk.len() {
                assert(t.chunk[k] == st.chunk[k]);
            }
        }
    }
}

proof fn lemma_breaks_run_chars(st: WrapModel, text: Seq<char>, style: Style, width: nat, read: Seq<char>)
    requires
        breaks_inv(st, width, read),
    ensures
        breaks_inv(run_chars(st, text, style, width), width, read + text),
    decreases text.len(),
{
    if text.len() == 0 {
        assert(read + text =~= read);
    } else {
        lemma_breaks_run_chars(st, text.drop_last(), style, width, read);
        lemma_breaks_step(run_chars(st, text.drop_last(), style, width), text.last(), style, width, read + text.drop_last());
        assert((read + text.drop_last()).push(text.last()) =~= read + text);
    }
}

proof fn lemma_breaks_run_spans(spans: Seq<SpanModel>, width: nat)
    ensures
        breaks_inv(run_spans(spans, width), width, texts(spans)),
    decreases spans.len(),
{
    if spans.len() > 0 {
        lemma_breaks_run_spans(spans.drop_last(), width);
        let st = run_spans(spans.drop_last(), width);
        let last = spans.last();
        lemma_breaks_run_chars(st, last.text, last.style, width, texts(spans.drop_last()));
        lemma_breaks_push_chunk(run_chars(st, last.text, last.style, width), last.style, width, texts(spans.drop_last()) + last.text);
    }
}

/// A line ends early, with room left for the first word of the next line,
/// only where the input breaks the line itself: there are no more such
/// lines than newlines in the input.
pub proof fn law_wrap_breaks_early_only_at_newlines(spans: Seq<SpanModel>, width: nat)
    ensures
        early_breaks(wrap_spec(spans, width), eff_width(width)) <= newline_count(texts(spans)),
{
    let w = eff_width(width);
    lemma_breaks_run_spans(spans, w);
    lemma_breaks_place_word(run_spans(spans, w), w, texts(spans));
    let st = place_word_spec(run_spans(spans, w), w);
    if st.line.len() > 0 {
        lemma_early_push(st.lines, st.line, w);
    }
}

/// Reading `s` from the left, for each word begun so far: whether a newline
/// stands between it and the word before it (or the start of `s`); then
/// whether a word is being read, and whether a newline has been met since
/// the last word.
pub open spec fn nl_scan(s: Seq<char>) -> (Seq<bool>, bool, bool)
    decreases s.len(),
{
    if s.len() == 0 {
        (seq![], false, false)
    } else {
        let prev = nl_scan(s.drop_last());
        let c = s.last();
        if c == '\n' {
            (prev.0, false, true)
        } else if c == ' ' {
            (prev.0, false, prev.2)
        } else if prev.1 {
            (prev.0, true, prev.2)
        } else {
            (prev.0.push(prev.2), true, false)
        }
    }
}

/// For each word of `s`, in order: whether a newline stands between it and
/// the word before it (for the first word: anywhere before it).
pub open spec fn newline_before_words(s: Seq<char>) -> Seq<bool> {
    nl_scan(s).0
}

/// The number of words on a line.
pub open spec fn line_words(l: Seq<SpanModel>) -> nat {
    words(texts(l)).len()
}

/// The number of words on the lines before line `j`: the index, among all
/// the words, of the first word of line `j`.
pub open spec fn words_before(ls: Seq<Seq<SpanModel>>, j: int) -> nat
    decreases j,
{
    if j <= 0 {
        0
    } else {
        words_before(ls, j - 1) + line_words(ls[j - 1])
    }
}

proof fn lemma_wb_agree(a: Seq<Seq<SpanModel>>, b: Seq<Seq<SpanModel>>, j: int)
    requires
        0 <= j <= a.len(),
        j <= b.len(),
        forall|t: int| 0 <= t < j ==> a[t] == b[t],
    ensures
        words_before(a, j) == words_before(b, j),
    decreases j,
{
    if j > 0 {
        lemma_wb_agree(a, b, j - 1);
        assert(a[j - 1] == b[j - 1]);
    }
}

proof fn lemma_wb_mono(ls: Seq<Seq<SpanModel>>, j: int, n: int)
    requires
        0 <= j < n <= ls.len(),
    ensures
        words_before(ls, j) + line_words(ls[j]) <= words_before(ls, n),
    decreases n,
{
    if n > j + 1 {
        lemma_wb_mono(ls, j, n - 1);
    }
}

proof fn lemma_line_words_empty()
    ensures
        line_words(Seq::<SpanModel>::empty()) == 0,
{
    assert(texts(Seq::<SpanModel>::empty()) == Seq::<char>::empty());
    assert(word_scan(Seq::<char>::empty()).1.len() == 0);
}

proof fn lemma_line_words_word(word: Seq<SpanModel>)
    requires
        blank_free(texts(word)),
        texts(word).len() > 0,
    ensures
        line_words(word) == 1,
{
    lemma_words_after_sep(Seq::<char>::empty(), ' ', texts(word));
}

proof fn lemma_line_words_append(line: Seq<SpanModel>, word: Seq<SpanModel>)
    requires
        line.len() > 0,
        blank_free(texts(word)),
        texts(word).len() > 0,
    ensures
        line_words(line.push(space_span()) + word) == line_words(line) + 1,
{
    let line2 = line.push(space_span());
    lemma_texts_concat(line2, word);
    assert(line2.drop_last() =~= line);
    assert(texts(line2) == texts(line) + seq![' ']);
    lemma_words_after_sep(texts(line), ' ', texts(word));
}

/// The greedy wrap between newlines, as an invariant of the state: `flags`,
/// `in_word` and `pending` are what [`nl_scan`] gives for the input read.
spec fn local_inv(st: WrapModel, flags: Seq<bool>, in_word: bool, pending: bool, width: nat) -> bool {
    let o = st.lines.push(st.line);
    &&& words_before(o, o.len() as int) + (if in_word { 1nat } else { 0nat }) == flags.len()
    &&& in_word <==> texts(st.word).len() + st.chunk.len() > 0
    &&& forall|i: int, j: int|
        #![trigger o[i], o[j]]
        0 <= i && j == i + 1 && j < o.len() && o[i].len() > 0 && o[j].len() > 0 && !flags[words_before(o, j) as int]
            ==> full_before(o[i], o[j], width)
    &&& st.lines.len() > 0 && st.line.len() == 0 ==> (in_word ==> flags.last()) && (!in_word ==> pending)
    &&& forall|t: int| 0 <= t < o.len() && #[trigger] o[t].len() > 0 ==> line_words(o[t]) > 0
    &&& forall|k: int| 0 <= k < st.word.len() ==> #[trigger] st.word[k] != space_span()
    &&& blank_free(st.chunk)
    &&& blank_free(texts(st.word))
}

proof fn lemma_local_push_chunk(st: WrapModel, style: Style, flags: Seq<bool>, in_word: bool, pending: bool, width: nat)
    requires
        local_inv(st, flags, in_word, pending, width),
    ensures
        local_inv(push_chunk_spec(st, style), flags, in_word, pending, width),
{
    if st.chunk.len() > 0 {
        let x = SpanModel { text: st.chunk, style };
        assert(x.text[0] != ' ');
        assert(space_span().text[0] == ' ');
        let w2 = st.word.push(x);
        assert forall|k: int| 0 <= k < w2.len() implies #[trigger] w2[k] != space_span() by {
            if k < st.word.len() {
                assert(w2[k] == st.word[k]);
            }
        }
        assert(w2.drop_last() =~= st.word);
        assert(texts(w2) == texts(st.word) + st.chunk);
        lemma_blank_free_concat(texts(st.word), st.chunk);
        let t = push_chunk_spec(st, style);
        assert(t.lines.push(t.line) == st.lines.push(st.line));
    }
}

/// Pairs of lines before position `n` keep their property when the lines
/// up to `n` are unchanged.
proof fn lemma_local_pairs_kept(o: Seq<Seq<SpanModel>>, o2: Seq<Seq<SpanModel>>, n: int, flags: Seq<bool>, width: nat)
    requires
        0 <= n <= o.len(),
        n <= o2.len(),
        forall|t: int| 0 <= t < n ==> o[t] == o2[t],
        forall|i: int, j: int|
            #![trigger o[i], o[j]]
            0 <= i && j == i + 1 && j < o.len() && o[i].len() > 0 && o[j].len() > 0 && !flags[words_before(o, j) as int]
                ==> full_before(o[i], o[j], width),
    ensures
        forall|i: int, j: int|
            #![trigger o2[i], o2[j]]
            0 <= i && j == i + 1 && j < n && o2[i].len() > 0 && o2[j].len() > 0 && !flags[words_before(o2, j) as int]
                ==> full_before(o2[i], o2[j], width),
{
    assert forall|i: int, j: int|
        #![trigger o2[i], o2[j]]
        0 <= i && j == i + 1 && j < n && o2[i].len() > 0 && o2[j].len() > 0 && !flags[words_before(o2, j) as int]
            implies full_before(o2[i], o2[j], width) by {
        assert(o[i] == o2[i] && o[j] == o2[j]);
        lemma_wb_agree(o, o2, j);
    }
}

proof fn lemma_local_place_word(st: WrapModel, flags: Seq<bool>, in_word: bool, pending: bool, width: nat)
    requires
        local_inv(st, flags, in_word, pending, width),
        st.chunk.len() == 0,
        !in_word ==> (st.lines.len() > 0 && st.line.len() == 0 ==> pending),
    ensures
        local_inv(place_word_spec(st, width), flags, false, pending, width),
{
    lemma_texts_len(st.word);
    let o = st.lines.push(st.line);
    let n = o.len() as int;
    let t = place_word_spec(st, width);
    if text_len(st.word) != 0 {
        assert(in_word);
        let w = texts(st.word);
        if st.word.len() == 0 {
            assert(text_len(st.word) == 0);
        }
        lemma_line_words_word(st.word);
        lemma_texts_len(t.word);
        lemma_ink_place_word(st, width);
        assert(texts(t.word).len() == 0);
        let overflow = st.line.len() > 0 && text_len(st.line) + 1 + text_len(st.word) > width;
        assert(o[n - 1] == st.line);
        if overflow {
            assert(t.line =~= st.word);
            let o2 = t.lines.push(t.line);
            assert(o2 =~= o.push(st.word));
            lemma_wb_agree(o, o2, n);
            lemma_local_pairs_kept(o, o2, n, flags, width);
            lemma_first_word_whole(st.word);
            assert forall|i: int, j: int|
                #![trigger o2[i], o2[j]]
                0 <= i && j == i + 1 && j < o2.len() && o2[i].len() > 0 && o2[j].len() > 0 && !flags[words_before(o2, j) as int]
                    implies full_before(o2[i], o2[j], width) by {
                if j == n {
                    assert(o2[i] == st.line && o2[j] == st.word);
                }
            }
            assert forall|k: int| 0 <= k < o2.len() && #[trigger] o2[k].len() > 0 implies line_words(o2[k]) > 0 by {
                if k < n {
                    assert(o2[k] == o[k]);
                }
            }
        } else if st.line.len() > 0 {
            let line2 = st.line.push(space_span()) + st.word;
            assert(t.line =~= line2);
            assert(t.line =~= st.line + (seq![space_span()] + st.word));
            lemma_line_words_append(st.line, st.word);
            lemma_first_word_sep(st.line, st.word);
            let o2 = t.lines.push(t.line);
            assert(o2 =~= o.update(n - 1, line2));
            lemma_wb_agree(o, o2, n - 1);
            lemma_local_pairs_kept(o, o2, n - 1, flags, width);
            assert forall|i: int, j: int|
                #![trigger o2[i], o2[j]]
                0 <= i && j == i + 1 && j < o2.len() && o2[i].len() > 0 && o2[j].len() > 0 && !flags[words_before(o2, j) as int]
                    implies full_before(o2[i], o2[j], width) by {
                if j == n - 1 {
                    assert(o2[i] == o[i] && o[j] == st.line);
                    assert(o[i].len() > 0 && o[j].len() > 0);
                }
            }
            assert forall|k: int| 0 <= k < o2.len() && #[trigger] o2[k].len() > 0 implies line_words(o2[k]) > 0 by {
                if k < n - 1 {
                    assert(o2[k] == o[k]);
                }
            }
        } else {
            assert(t.line =~= st.word);
            lemma_line_words_empty();
            let o2 = t.lines.push(t.line);
            assert(o2 =~= o.update(n - 1, st.word));
            lemma_wb_agree(o, o2, n - 1);
            lemma_local_pairs_kept(o, o2, n - 1, flags, width);
            assert(words_before(o, n) == words_before(o, n - 1));
            assert forall|i: int, j: int|
                #![trigger o2[i], o2[j]]
                0 <= i && j == i + 1 && j < o2.len() && o2[i].len() > 0 && o2[j].len() > 0 && !flags[words_before(o2, j) as int]
                    implies full_before(o2[i], o2[j], width) by {
                if j == n - 1 {
                    assert(words_before(o2, j) == flags.len() - 1);
                    assert(flags.last());
                }
            }
            assert forall|k: int| 0 <= k < o2.len() && #[trigger] o2[k].len() > 0 implies line_words(o2[k]) > 0 by {
                if k < n - 1 {
                    assert(o2[k] == o[k]);
                }
            }
        }
    } else {
        assert(!in_word);
    }
}

proof fn lemma_local_step(st: WrapModel, c: char, style: Style, width: nat, read: Seq<char>)
    requires
        local_inv(st, nl_scan(read).0, nl_scan(read).1, nl_scan(read).2, width),
        !nl_scan(read).1 ==> (st.lines.len() > 0 && st.line.len() == 0 ==> nl_scan(read).2),
    ensures
        local_inv(step_char(st, c, style, width), nl_scan(read.push(c)).0, nl_scan(read.push(c)).1, nl_scan(read.push(c)).2, width),
        !nl_scan(read.push(c)).1 ==> (step_char(st, c, style, width).lines.len() > 0 && step_char(st, c, style, width).line.len() == 0
            ==> nl_scan(read.push(c)).2),
{
    assert(read.push(c).drop_last() =~= read);
    let sc = nl_scan(read);
    let flags = sc.0;
    if c == ' ' || c == '\n' {
        lemma_local_push_chunk(st, style, flags, sc.1, sc.2, width);
        let p = push_chunk_spec(st, style);
        assert(p.chunk.len() == 0);
        if !sc.1 {
            assert(p.lines == st.lines && p.line == st.line);
        }
        lemma_local_place_word(p, flags, sc.1, sc.2, width);
        let s = place_word_spec(p, width);
        if c == '\n' {
            let t = step_char(st, c, style, width);
            let o = s.lines.push(s.line);
            let o2 = t.lines.push(t.line);
            assert(o2 =~= o.push(Seq::<SpanModel>::empty()));
            lemma_line_words_empty();
            lemma_wb_agree(o, o2, o.len() as int);
            lemma_local_pairs_kept(o, o2, o.len() as int, flags, width);
            assert forall|k: int| 0 <= k < o2.len() && #[trigger] o2[k].len() > 0 implies line_words(o2[k]) > 0 by {
                if k < o.len() {
                    assert(o2[k] == o[k]);
                }
            }
        }
    } else {
        let t = step_char(st, c, style, width);
        assert forall|k: int| 0 <= k < t.chunk.len() implies #[trigger] t.chunk[k] != ' ' && t.chunk[k] != '\n' by {
            if k < st.chunk.len() {
                assert(t.chunk[k] == st.chunk[k]);
            }
        }
        let o = st.lines.push(st.line);
        assert(t.lines.push(t.line) == o);
        if !sc.1 {
            let f2 = flags.push(sc.2);
            assert forall|i: int, j: int|
                #![trigger o[i], o[j]]
                0 <= i && j == i + 1 && j < o.len() && o[i].len() > 0 && o[j].len() > 0 && !f2[words_before(o, j) as int]
                    implies full_before(o[i], o[j], width) by {
                lemma_wb_mono(o, j, o.len() as int);
                assert(f2[words_before(o, j) as int] == flags[words_before(o, j) as int]);
            }
        }
    }
}

proof fn lemma_local_run_chars(st: WrapModel, text: Seq<char>, style: Style, width: nat, read: Seq<char>)
    requires
        local_inv(st, nl_scan(read).0, nl_scan(read).1, nl_scan(read).2, width),
        !nl_scan(read).1 ==> (st.lines.len() > 0 && st.line.len() == 0 ==> nl_scan(read).2),
    ensures
        local_inv(run_chars(st, text, style, width), nl_scan(read + text).0, nl_scan(read + text).1, nl_scan(read + text).2, width),
        !nl_scan(read + text).1 ==> (run_chars(st, text, style, width).lines.len() > 0 && run_chars(st, text, style, width).line.len() == 0
            ==> nl_scan(read + text).2),
    decreases text.len(),
{
    if text.len() == 0 {
        assert(read + text =~= read);
    } else {
        lemma_local_run_chars(st, text.drop_last(), style, width, read);
        lemma_local_step(run_chars(st, text.drop_last(), style, width), text.last(), style, width, read + text.drop_last());
        assert((read + text.drop_last()).push(text.last()) =~= read + text);
    }
}

proof fn lemma_local_run_spans(spans: Seq<SpanModel>, width: nat)
    ensures
        local_inv(run_spans(spans, width), nl_scan(texts(spans)).0, nl_scan(texts(spans)).1, nl_scan(texts(spans)).2, width),
        !nl_scan(texts(spans)).1 ==> (run_spans(spans, width).lines.len() > 0 && run_spans(spans, width).line.len() == 0
            ==> nl_scan(texts(spans)).2),
        run_spans(spans, width).chunk.len() == 0,
    decreases spans.len(),
{
    if spans.len() == 0 {
        let st = wrap_init();
        let o = st.lines.push(st.line);
        lemma_line_words_empty();
        assert(o[0] == st.line);
        assert(st.line =~= Seq::<SpanModel>::empty());
        assert(words_before(o, 0) == 0);
        assert(words_before(o, 1) == 0);
        assert(texts(st.word) == Seq::<char>::empty());
    } else {
        lemma_local_run_spans(spans.drop_last(), width);
        let st = run_spans(spans.drop_last(), width);
        let last = spans.last();
        let read = texts(spans.drop_last());
        lemma_local_run_chars(st, last.text, last.style, width, read);
        let r = run_chars(st, last.text, last.style, width);
        let sc = nl_scan(read + last.text);
        lemma_local_push_chunk(r, last.style, sc.0, sc.1, sc.2, width);
    }
}

/// The wrap is greedy wherever the input does not break the line itself:
/// when no newline stands between the last word of a line and the first word
/// of the next (that word's entry in [`newline_before_words`], found by
/// counting the words of the lines before it), the next line's first word
/// would not have fitted after the line.
pub proof fn law_wrap_is_greedy_between_newlines(spans: Seq<SpanModel>, width: nat)
    ensures
        forall|i: int, j: int|
            #![trigger wrap_spec(spans, width)[i], wrap_spec(spans, width)[j]]
            0 <= i && j == i + 1 && j < wrap_spec(spans, width).len() && wrap_spec(spans, width)[i].len() > 0
                && wrap_spec(spans, width)[j].len() > 0
                && !newline_before_words(texts(spans))[words_before(wrap_spec(spans, width), j) as int]
                ==> full_before(wrap_spec(spans, width)[i], wrap_spec(spans, width)[j], eff_width(width)),
{
    let w = eff_width(width);
    lemma_local_run_spans(spans, w);
    let r = run_spans(spans, w);
    let sc = nl_scan(texts(spans));
    lemma_local_place_word(r, sc.0, sc.1, sc.2, w);
    let st = place_word_spec(r, w);
    let o = st.lines.push(st.line);
    let out = wrap_spec(spans, width);
    if st.line.len() > 0 {
        assert(out == o);
    } else {
        assert(out =~= o.drop_last());
        lemma_local_pairs_kept(o, out, out.len() as int, sc.0, w);
    }
}

/// The exec state of the wrapper, mirroring [`WrapModel`]; widths are kept
/// capped at `width + 1`, which decides every comparison exactly.
struct Wrapper {
    lines: Vec<Vec<Span>>,
    line: Vec<Span>,
    line_width: u128,
    word: Vec<Span>,
    word_width: u128,
    chunk: Vec<char>,
    width: usize,
}

pub open spec fn cap(n: nat, width: nat) -> nat {
    if n > width + 1 { width + 1 } else { n }
}

impl Wrapper {
    spec fn model(&self) -> WrapModel {
        WrapModel {
            lines: self.lines@.map_values(|l: Vec<Span>| spans_model(l@)),
            line: spans_model(self.line@),
            word: spans_model(self.word@),
            chunk: self.chunk@,
        }
    }

    spec fn wf(&self) -> bool {
        &&& self.width >= 1
        &&& self.line_width == cap(text_len(spans_model(self.line@)), self.width as nat)
        &&& self.word_width == cap(text_len(spans_model(self.word@)), self.width as nat)
    }

    fn push_chunk(&mut self, style: Style)
        requires
            old(self).wf(),
        ensures
            final(self).wf(),
            final(self).width == old(self).width,
            final(self).model() == push_chunk_spec(old(self).model(), style),
    {
        if self.chunk.len() == 0 {
            return;
        }
        let n = self.chunk.len();
        let text = string_of(self.chunk.as_slice());
        let ghost old_word = self.word@;
        self.word.push(Span { text, style });
        proof {
            assert(spans_model(self.word@) =~= spans_model(old_word).push(SpanModel { text: self.chunk@, style }));
            lemma_text_len_push(spans_model(old_word), SpanModel { text: self.chunk@, style });
        }
        let w = self.word_width + (n as u128);
        self.word_width = if w > (self.width as u128) + 1 { (self.width as u128) + 1 } else { w };
        self.chunk = Vec::new();
        proof {
            assert(self.model() =~= push_chunk_spec(old(self).model(), style));
        }
    }

    fn place_word(&mut self)
        requires
            old(self).wf(),
        ensures
            final(self).wf(),
            final(self).width == old(self).width,
            final(self).model() == place_word_spec(old(self).model(), old(self).width as nat),
    {
        let ghost st = self.model();
        let ghost w = self.width as nat;
        if self.word_width == 0 {
            return;
        }
        let overflow = self.line.len() > 0 && self.line_width + 1 + self.word_width > (self.width as u128);
        if overflow {
            let mut full: Vec<Span> = Vec::new();
            std::mem::swap(&mut full, &mut self.line);
            self.lines.push(full);
            self.line_width = 0;
            proof {
                assert(self.lines@.map_values(|l: Vec<Span>| spans_model(l@)) =~= st.lines.push(st.line));
                assert(spans_model(self.line@) =~= Seq::<SpanModel>::empty());
            }
        }
        let ghost line_before = spans_model(self.line@);
        if self.line.len() > 0 {
            let mut sp: Vec<char> = Vec::new();
            sp.push(' ');
            self.line.push(Span { text: string_of(sp.as_slice()), style: Style::plain() });
            self.line_width = self.line_width + 1;
            proof {
                assert(spans_model(self.line@) =~= line_before.push(space_span()));
                lemma_text_len_push(line_before, space_span());
            }
        }
        let ghost line_mid = spans_model(self.line@);
        let ghost word_m = spans_model(self.word@);
        self.line.append(&mut self.word);
        let lw = self.line_width + self.word_width;
        self.line_width = if lw > (self.width as u128) + 1 { (self.width as u128) + 1 } else { lw };
        self.word_width = 0;
        proof {
            assert(spans_model(self.line@) =~= line_mid + word_m);
            lemma_text_len_concat(line_mid, word_m);
            assert(spans_model(self.word@) =~= Seq::<SpanModel>::empty());
            assert(self.model() =~= place_word_spec(st, w));
        }
    }

    fn step(&mut self, c: char, style: Style)
        requires
            old(self).wf(),
        ensures
            final(self).wf(),
            final(self).width == old(self).width,
            final(self).model() == step_char(old(self).model(), c, style, old(self).width as nat),
    {
        if c == ' ' {
            self.push_chunk(style);
            self.place_word();
        } else if c == '\n' {
            self.push_chunk(style);
            self.place_word();
            let ghost s = self.model();
            let mut full: Vec<Span> = Vec::new();
            std::mem::swap(&mut full, &mut self.line);
            self.lines.push(full);
            self.line_width = 0;
            proof {
                assert(self.lines@.map_values(|l: Vec<Span>| spans_model(l@)) =~= s.lines.push(s.line));
                assert(spans_model(self.line@) =~= Seq::<SpanModel>::empty());
                assert(self.model() =~= WrapModel { lines: s.lines.push(s.line), line: seq![], ..s });
            }
        } else {
            self.chunk.push(c);
        }
    }
}

/// Greedy word-wrap a run of spans to at most `width` visible columns per line.
/// Words break only at spaces; a `"\n"` span forces a new line; a word longer
/// than `width` overflows onto its own line rather than being split.
#[verifier::spinoff_prover]
pub fn wrap(spans: &[Span], width: usize) -> (lines: Vec<Vec<Span>>)
    ensures
        lines@.map_values(|l: Vec<Span>| spans_model(l@)) == wrap_spec(spans_model(spans@), width as nat),
{
    let width = if width < 1 { 1 } else { width };
    let mut w = Wrapper {
        lines: Vec::new(),
        line: Vec::new(),
        line_width: 0,
        word: Vec::new(),
        word_width: 0,
        chunk: Vec::new(),
        width,
    };
    proof {
        assert(w.lines@.map_values(|l: Vec<Span>| spans_model(l@)) =~= Seq::<Seq<SpanModel>>::empty());
        assert(spans_model(w.line@) =~= Seq::<SpanModel>::empty());
        assert(spans_model(w.word@) =~= Seq::<SpanModel>::empty());
        assert(w.model() =~= wrap_init());
    }
    let mut i: usize = 0;
    while i < spans.len()
        invariant
            i <= spans@.len(),
            w.wf(),
            w.width == width,
            w.model() == run_spans(spans_model(spans@.take(i as int)), width as nat),
        decreases spans.len() - i,
    {
        let span = &spans[i];
        let text = chars_of(span.text.as_str());
        let ghost start = w.model();
        let mut k: usize = 0;
        while k < text.len()
            invariant
                k <= text@.len(),
                text@ == span.text@,
                w.wf(),
                w.width == width,
                w.model() == run_chars(start, text@.take(k as int), span.style, width as nat),
            decreases text.len() - k,
        {
            w.step(text[k], span.style);
            proof {
                assert(text@.take(k + 1).drop_last() =~= text@.take(k as int));
            }
            k = k + 1;
        }
        w.push_chunk(span.style);
        proof {
            assert(text@.take(text@.len() as int) =~= text@);
            let m = spans_model(spans@.take(i + 1));
            assert(m.drop_last() =~= spans_model(spans@.take(i as int)));
            assert(m.last() == span@);
        }
        i = i + 1;
    }
    proof {
        assert(spans@.take(spans@.len() as int) =~= spans@);
    }
    w.place_word();
    let ghost fin = w.model();
    if w.line.len() > 0 {
        let mut last: Vec<Span> = Vec::new();
        std::mem::swap(&mut last, &mut w.line);
        w.lines.push(last);
        proof {
            assert(w.lines@.map_values(|l: Vec<Span>| spans_model(l@)) =~= fin.lines.push(fin.line));
        }
    }
    w.lines
}

} // verus!
