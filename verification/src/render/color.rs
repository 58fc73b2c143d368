//! What color adds to a rendering: SGR escape sequences and nothing else.
//! A colored text is *sound* when each of its escapes is complete (an `m`
//! ends it) and holds no newline; stripping the escapes of sound texts
//! commutes with joining them and with replacing their newlines.
use vstd::prelude::*;
use crate::md::{MdKind, MdNode, spec_parse_markdown};
use crate::render::inline::{
    SpanModel, Style, collect_spec, emit_span, emit_spec, footnote_marker, free_of, law_plain_emit_is_text, lemma_join_free,
    lemma_sgr_codes_free, nl_to_space, node_spans, plain_style, sgr_codes, strip_sgr, texts, with_bold, with_dim, with_italic,
    with_link, with_strike,
};
use crate::render::wrap::{
    WrapModel, eff_width, law_wrap_span_shape, output_span_ok, place_word_spec, push_chunk_spec, run_chars, run_spans, space_span,
    spans_ok, step_char, text_len, wrap_spec,
};
use crate::render::{
    block_spec, block_texts, code_spec, decorate_lines_spec, hashes, heading_spans, item_marker, item_text, items_texts, narrowed,
    render_lines_spec, render_spec, rule_spec, subst_nl,
};
use crate::template::{first_index_of, lemma_first_index_is, lemma_first_index_of};
use crate::text::{decimal, digit_char, join};

verus! {

/// Every escape of `s` is complete and newline-free: `ESC`, then characters
/// other than `m` and newline, then `m`.
pub open spec fn sgr_sound(s: Seq<char>) -> bool
    decreases s.len(),
{
    if s.len() == 0 {
        true
    } else if s[0] == '\x1b' {
        match first_index_of(s, 'm') {
            Some(k) => if 0 < k < s.len() {
                free_of(s.subrange(0, k), '\n') && sgr_sound(s.skip(k + 1))
            } else {
                false
            },
            None => false,
        }
    } else {
        sgr_sound(s.drop_first())
    }
}

/// Stripping a sound prefix can be done on its own; sound texts stay sound
/// when concatenated.
proof fn lemma_sound_concat(a: Seq<char>, b: Seq<char>)
    requires
        sgr_sound(a),
    ensures
        strip_sgr(a + b) == strip_sgr(a) + strip_sgr(b),
        sgr_sound(b) ==> sgr_sound(a + b),
    decreases a.len(),
{
    if a.len() == 0 {
        assert(a + b =~= b);
        assert(strip_sgr(a) + strip_sgr(b) =~= strip_sgr(b));
    } else if a[0] == '\x1b' {
        let ab = a + b;
        lemma_first_index_of(a, 'm');
        let k = first_index_of(a, 'm')->0;
        assert forall|j: int| 0 <= j < k implies ab[j] != 'm' by {
            assert(ab[j] == a[j]);
        }
        lemma_first_index_is(ab, 'm', k);
        assert(ab.skip(k + 1) =~= a.skip(k + 1) + b);
        assert(ab.subrange(0, k) =~= a.subrange(0, k));
        lemma_sound_concat(a.skip(k + 1), b);
    } else {
        let ab = a + b;
        assert(ab[0] == a[0]);
        assert(ab.drop_first() =~= a.drop_first() + b);
        lemma_sound_concat(a.drop_first(), b);
        assert(seq![a[0]] + (strip_sgr(a.drop_first()) + strip_sgr(b)) =~= (seq![a[0]] + strip_sgr(a.drop_first())) + strip_sgr(b));
    }
}

/// Text without an escape character is sound and strips to itself.
proof fn lemma_sound_plain(t: Seq<char>)
    requires
        free_of(t, '\x1b'),
    ensures
        sgr_sound(t),
        strip_sgr(t) == t,
    decreases t.len(),
{
    if t.len() > 0 {
        assert(free_of(t.drop_first(), '\x1b')) by {
            assert forall|k: int| 0 <= k < t.drop_first().len() implies #[trigger] t.drop_first()[k] != '\x1b' by {
                assert(t.drop_first()[k] == t[k + 1]);
            }
        }
        lemma_sound_plain(t.drop_first());
        assert(seq![t[0]] + t.drop_first() =~= t);
    }
}

/// A complete escape `ESC [ codes m` is sound and strips to nothing.
proof fn lemma_sound_escape(codes: Seq<char>)
    requires
        free_of(codes, 'm'),
        free_of(codes, '\n'),
    ensures
        sgr_sound("\x1b["@ + codes + "m"@),
        strip_sgr("\x1b["@ + codes + "m"@) == Seq::<char>::empty(),
{
    reveal_strlit("\x1b[");
    reveal_strlit("m");
    let s = "\x1b["@ + codes + "m"@;
    let k: int = codes.len() + 2int;
    assert(s[0] == '\x1b');
    assert forall|j: int| 0 <= j < k implies s[j] != 'm' && s[j] != '\n' by {
        if j >= 2 {
            assert(s[j] == codes[j - 2]);
        }
    }
    assert(s[k] == 'm');
    lemma_first_index_is(s, 'm', k);
    let t = s.skip(k + 1);
    assert(t =~= Seq::<char>::empty());
    assert(sgr_sound(t));
    assert(strip_sgr(t) == Seq::<char>::empty());
    assert forall|j: int| 0 <= j < s.subrange(0, k).len() implies #[trigger] s.subrange(0, k)[j] != '\n' by {
        assert(s.subrange(0, k)[j] == s[j]);
    }
    assert(sgr_sound(s));
}

/// Newline replacement distributes over concatenation.
pub(crate) proof fn lemma_subst_concat(a: Seq<char>, b: Seq<char>, r: Seq<char>)
    ensures
        subst_nl(a + b, r) == subst_nl(a, r) + subst_nl(b, r),
    decreases b.len(),
{
    if b.len() == 0 {
        assert(a + b =~= a);
        assert(subst_nl(a, r) + subst_nl(b, r) =~= subst_nl(a, r));
    } else {
        assert((a + b).drop_last() =~= a + b.drop_last());
        assert((a + b).last() == b.last());
        lemma_subst_concat(a, b.drop_last(), r);
        let tail = if b.last() == '\n' { r } else { seq![b.last()] };
        assert(subst_nl(a, r) + subst_nl(b.drop_last(), r) + tail =~= subst_nl(a, r) + (subst_nl(b.drop_last(), r) + tail));
    }
}

/// Text without a newline is left as it is by newline replacement.
proof fn lemma_subst_none(s: Seq<char>, r: Seq<char>)
    requires
        free_of(s, '\n'),
    ensures
        subst_nl(s, r) == s,
    decreases s.len(),
{
    if s.len() > 0 {
        assert(free_of(s.drop_last(), '\n')) by {
            assert forall|k: int| 0 <= k < s.drop_last().len() implies #[trigger] s.drop_last()[k] != '\n' by {
                assert(s.drop_last()[k] == s[k]);
            }
        }
        lemma_subst_none(s.drop_last(), r);
        assert(s.last() != '\n');
        assert(s.drop_last() + seq![s.last()] =~= s);
    }
}

/// Replacing the newlines of a sound text by a sound separator gives a sound
/// text, which strips to the stripped text with its newlines replaced by the
/// stripped separator.
pub proof fn lemma_sound_subst(x: Seq<char>, r: Seq<char>)
    requires
        sgr_sound(x),
        sgr_sound(r),
    ensures
        sgr_sound(subst_nl(x, r)),
        strip_sgr(subst_nl(x, r)) == subst_nl(strip_sgr(x), strip_sgr(r)),
    decreases x.len(),
{
    if x.len() == 0 {
        assert(subst_nl(x, r) =~= Seq::<char>::empty());
    } else if x[0] == '\x1b' {
        lemma_first_index_of(x, 'm');
        let k = first_index_of(x, 'm')->0;
        let e = x.subrange(0, k + 1);
        let rest = x.skip(k + 1);
        assert(x =~= e + rest);
        // The escape itself: sound, stripped to nothing, without newline.
        assert(free_of(e, '\n')) by {
            assert forall|j: int| 0 <= j < e.len() implies #[trigger] e[j] != '\n' by {
                if j < k {
                    assert(e[j] == x.subrange(0, k)[j]);
                } else {
                    assert(e[j] == x[k]);
                }
            }
        }
        assert forall|j: int| 0 <= j < k implies e[j] != 'm' by {
            assert(e[j] == x[j]);
        }
        lemma_first_index_is(e, 'm', k);
        let t = e.skip(k + 1);
        assert(t =~= Seq::<char>::empty());
        assert(sgr_sound(t));
        assert(strip_sgr(t) == Seq::<char>::empty());
        assert(e.subrange(0, k) =~= x.subrange(0, k));
        assert(sgr_sound(e));
        assert(strip_sgr(e) == Seq::<char>::empty());
        lemma_subst_none(e, r);
        lemma_subst_concat(e, rest, r);
        lemma_sound_subst(rest, r);
        lemma_sound_concat(e, subst_nl(rest, r));
        assert(strip_sgr(e) + strip_sgr(subst_nl(rest, r)) =~= strip_sgr(subst_nl(rest, r)));
    } else {
        let h = seq![x[0]];
        let rest = x.drop_first();
        assert(x =~= h + rest);
        lemma_subst_concat(h, rest, r);
        assert(h.drop_last() =~= Seq::<char>::empty());
        assert(subst_nl(Seq::<char>::empty(), r) == Seq::<char>::empty());
        assert(subst_nl(Seq::<char>::empty(), strip_sgr(r)) == Seq::<char>::empty());
        assert(h.last() == x[0]);
        let hs = if x[0] == '\n' { r } else { h };
        assert(subst_nl(h, r) =~= hs);
        if x[0] != '\n' {
            assert(free_of(h, '\x1b'));
            lemma_sound_plain(h);
        }
        lemma_sound_subst(rest, r);
        lemma_sound_concat(hs, subst_nl(rest, r));
        // The stripped side.
        assert(strip_sgr(x) == h + strip_sgr(rest));
        lemma_subst_concat(h, strip_sgr(rest), strip_sgr(r));
        let hp = if x[0] == '\n' { strip_sgr(r) } else { h };
        assert(subst_nl(h, strip_sgr(r)) =~= hp);
    }
}

/// Joining sound parts with a sound separator gives a sound text, which
/// strips to the stripped parts joined by the stripped separator.
pub proof fn lemma_sound_join(parts: Seq<Seq<char>>, plain: Seq<Seq<char>>, sep: Seq<char>)
    requires
        parts.len() == plain.len(),
        forall|i: int| 0 <= i < parts.len() ==> sgr_sound(#[trigger] parts[i]) && strip_sgr(parts[i]) == plain[i],
        sgr_sound(sep),
    ensures
        sgr_sound(join(parts, sep)),
        strip_sgr(join(parts, sep)) == join(plain, strip_sgr(sep)),
    decreases parts.len(),
{
    if parts.len() == 0 {
        assert(strip_sgr(Seq::<char>::empty()) == Seq::<char>::empty());
    } else if parts.len() == 1 {
        assert(sgr_sound(parts[0]));
    } else {
        let pp = parts.drop_last();
        let qq = plain.drop_last();
        assert forall|i: int| 0 <= i < pp.len() implies sgr_sound(#[trigger] pp[i]) && strip_sgr(pp[i]) == qq[i] by {
            assert(pp[i] == parts[i]);
            assert(qq[i] == plain[i]);
        }
        lemma_sound_join(pp, qq, sep);
        let a = join(pp, sep);
        let last = parts.last();
        assert(sgr_sound(last) && strip_sgr(last) == plain.last()) by {
            assert(sgr_sound(parts[parts.len() - 1]));
        }
        lemma_sound_concat(sep, last);
        lemma_sound_concat(a, sep + last);
        assert(a + sep + last =~= a + (sep + last));
        assert(join(qq, strip_sgr(sep)) + strip_sgr(sep) + plain.last() =~= join(qq, strip_sgr(sep)) + (strip_sgr(sep) + plain.last()));
    }
}

/// Colored emission of spans whose texts hold no escape character is sound
/// and strips to the plain emission.
pub proof fn lemma_sound_emit(spans: Seq<SpanModel>)
    requires
        spans_free(spans, '\x1b'),
    ensures
        sgr_sound(emit_spec(spans, true)),
        strip_sgr(emit_spec(spans, true)) == emit_spec(spans, false),
    decreases spans.len(),
{
    if spans.len() == 0 {
        assert(strip_sgr(Seq::<char>::empty()) == Seq::<char>::empty());
    } else {
        let prev = spans.drop_last();
        assert(spans_free(prev, '\x1b')) by {
            assert forall|i: int| 0 <= i < prev.len() implies free_of(#[trigger] prev[i].text, '\x1b') by {
                assert(prev[i] == spans[i]);
            }
        }
        lemma_sound_emit(prev);
        let last = spans.last();
        assert(free_of(last.text, '\x1b'));
        let unit = emit_span(last, true);
        let codes = sgr_codes(last.style);
        lemma_sound_plain(last.text);
        if codes.len() > 0 {
            lemma_sgr_codes_free(last.style);
            reveal_strlit(";");
            assert(free_of(";"@, 'm'));
            assert(free_of(";"@, '\n'));
            lemma_join_free(codes, ";"@, 'm');
            lemma_join_free(codes, ";"@, '\n');
            let j = join(codes, ";"@);
            lemma_sound_escape(j);
            reveal_strlit("\x1b[0m");
            reveal_strlit("\x1b[");
            reveal_strlit("m");
            assert("\x1b[0m"@ =~= "\x1b["@ + seq!['0'] + "m"@);
            assert(free_of(seq!['0'], 'm'));
            assert(free_of(seq!['0'], '\n'));
            lemma_sound_escape(seq!['0']);
            let open = "\x1b["@ + j + "m"@;
            let close = "\x1b[0m"@;
            lemma_sound_concat(last.text, close);
            lemma_sound_concat(open, last.text + close);
            assert(unit =~= open + (last.text + close));
            assert(strip_sgr(unit) =~= last.text);
        }
        assert(emit_span(last, false) == last.text);
        lemma_sound_concat(emit_spec(prev, true), unit);
    }
}

/// No span of the run holds `c`.
pub open spec fn spans_free(spans: Seq<SpanModel>, c: char) -> bool {
    forall|i: int| 0 <= i < spans.len() ==> free_of(#[trigger] spans[i].text, c)
}

spec fn state_free(st: WrapModel, c: char) -> bool {
    &&& forall|i: int| 0 <= i < st.lines.len() ==> spans_free(#[trigger] st.lines[i], c)
    &&& spans_free(st.line, c)
    &&& spans_free(st.word, c)
    &&& free_of(st.chunk, c)
}

proof fn lemma_spans_free_concat(a: Seq<SpanModel>, b: Seq<SpanModel>, c: char)
    requires
        spans_free(a, c),
        spans_free(b, c),
    ensures
        spans_free(a + b, c),
{
    assert forall|i: int| 0 <= i < (a + b).len() implies free_of(#[trigger] (a + b)[i].text, c) by {
        if i < a.len() {
            assert((a + b)[i] == a[i]);
        } else {
            assert((a + b)[i] == b[i - a.len()]);
        }
    }
}

proof fn lemma_free_push_chunk(st: WrapModel, style: Style, c: char)
    requires
        state_free(st, c),
    ensures
        state_free(push_chunk_spec(st, style), c),
{
    if st.chunk.len() > 0 {
        let x = SpanModel { text: st.chunk, style };
        lemma_spans_free_concat(st.word, seq![x], c);
        assert(st.word + seq![x] =~= st.word.push(x));
        assert(free_of(Seq::<char>::empty(), c));
    }
}

proof fn lemma_free_place_word(st: WrapModel, width: nat, c: char)
    requires
        state_free(st, c),
        c != ' ',
    ensures
        state_free(place_word_spec(st, width), c),
{
    if text_len(st.word) != 0 {
        let overflow = st.line.len() > 0 && text_len(st.line) + 1 + text_len(st.word) > width;
        let lines = if overflow { st.lines.push(st.line) } else { st.lines };
        let line = if overflow { Seq::<SpanModel>::empty() } else { st.line };
        let line2 = if line.len() > 0 { line.push(space_span()) } else { line };
        assert forall|i: int| 0 <= i < lines.len() implies spans_free(#[trigger] lines[i], c) by {
            if i < st.lines.len() {
                assert(lines[i] == st.lines[i]);
            }
        }
        assert(spans_free(line, c));
        if line.len() > 0 {
            assert(spans_free(seq![space_span()], c)) by {
                assert(seq![space_span()][0].text =~= seq![' ']);
            }
            lemma_spans_free_concat(line, seq![space_span()], c);
            assert(line + seq![space_span()] =~= line2);
        }
        lemma_spans_free_concat(line2, st.word, c);
        assert(spans_free(Seq::<SpanModel>::empty(), c));
    }
}

proof fn lemma_free_step(st: WrapModel, ch: char, style: Style, width: nat, c: char)
    requires
        state_free(st, c),
        c != ' ',
        ch != c,
    ensures
        state_free(step_char(st, ch, style, width), c),
{
    if ch == ' ' || ch == '\n' {
        lemma_free_push_chunk(st, style, c);
        lemma_free_place_word(push_chunk_spec(st, style), width, c);
        if ch == '\n' {
            let s = place_word_spec(push_chunk_spec(st, style), width);
            assert forall|i: int| 0 <= i < s.lines.push(s.line).len() implies spans_free(#[trigger] s.lines.push(s.line)[i], c) by {
                if i < s.lines.len() {
                    assert(s.lines.push(s.line)[i] == s.lines[i]);
                }
            }
            assert(spans_free(Seq::<SpanModel>::empty(), c));
        }
    } else {
        let t = step_char(st, ch, style, width);
        assert forall|k: int| 0 <= k < t.chunk.len() implies #[trigger] t.chunk[k] != c by {
            if k < st.chunk.len() {
                assert(t.chunk[k] == st.chunk[k]);
            }
        }
    }
}

proof fn lemma_free_run_chars(st: WrapModel, text: Seq<char>, style: Style, width: nat, c: char)
    requires
        state_free(st, c),
        free_of(text, c),
        c != ' ',
    ensures
        state_free(run_chars(st, text, style, width), c),
    decreases text.len(),
{
    if text.len() > 0 {
        assert(free_of(text.drop_last(), c)) by {
            assert forall|k: int| 0 <= k < text.drop_last().len() implies #[trigger] text.drop_last()[k] != c by {
                assert(text.drop_last()[k] == text[k]);
            }
        }
        lemma_free_run_chars(st, text.drop_last(), style, width, c);
        assert(text.last() != c);
        lemma_free_step(run_chars(st, text.drop_last(), style, width), text.last(), style, width, c);
    }
}

proof fn lemma_free_run_spans(spans: Seq<SpanModel>, width: nat, c: char)
    requires
        spans_free(spans, c),
        c != ' ',
    ensures
        state_free(run_spans(spans, width), c),
    decreases spans.len(),
{
    if spans.len() == 0 {
        assert(spans_free(Seq::<SpanModel>::empty(), c));
        assert(free_of(Seq::<char>::empty(), c));
    } else {
        let prev = spans.drop_last();
        assert(spans_free(prev, c)) by {
            assert forall|i: int| 0 <= i < prev.len() implies free_of(#[trigger] prev[i].text, c) by {
                assert(prev[i] == spans[i]);
            }
        }
        lemma_free_run_spans(prev, width, c);
        let st = run_spans(prev, width);
        let last = spans.last();
        assert(free_of(last.text, c));
        lemma_free_run_chars(st, last.text, last.style, width, c);
        lemma_free_push_chunk(run_chars(st, last.text, last.style, width), last.style, c);
    }
}

/// Wrapping moves characters but brings in none but the separating spaces:
/// a character other than a space that no input span holds, no output span
/// holds.
pub proof fn lemma_wrap_free(spans: Seq<SpanModel>, width: nat, c: char)
    requires
        spans_free(spans, c),
        c != ' ',
    ensures
        forall|i: int| 0 <= i < wrap_spec(spans, width).len() ==> spans_free(#[trigger] wrap_spec(spans, width)[i], c),
{
    let w = eff_width(width);
    lemma_free_run_spans(spans, w, c);
    lemma_free_place_word(run_spans(spans, w), w, c);
    let st = place_word_spec(run_spans(spans, w), w);
    let out = wrap_spec(spans, width);
    assert forall|i: int| 0 <= i < out.len() implies spans_free(#[trigger] out[i], c) by {
        if st.line.len() > 0 && i == st.lines.len() {
            assert(out[i] == st.line);
        } else {
            assert(out[i] == st.lines[i]);
        }
    }
}

/// Text that is sound, strips to `plain`, and is empty only when `plain` is.
pub open spec fn shows_as(colored: Seq<char>, plain: Seq<char>) -> bool {
    &&& sgr_sound(colored)
    &&& strip_sgr(colored) == plain
    &&& plain.len() == 0 ==> colored.len() == 0
}

/// Wrapped, emitted lines of spans without escape characters: the colored
/// rendering shows as the plain one.
pub proof fn lemma_lines_show(spans: Seq<SpanModel>, width: nat)
    requires
        spans_free(spans, '\x1b'),
    ensures
        shows_as(render_lines_spec(spans, width, true), render_lines_spec(spans, width, false)),
{
    let lines = wrap_spec(spans, width);
    lemma_wrap_free(spans, width, '\x1b');
    law_wrap_span_shape(spans, width);
    let pc = lines.map_values(|l: Seq<SpanModel>| emit_spec(l, true));
    let pp = lines.map_values(|l: Seq<SpanModel>| emit_spec(l, false));
    assert forall|i: int| 0 <= i < pc.len() implies sgr_sound(#[trigger] pc[i]) && strip_sgr(pc[i]) == pp[i] by {
        assert(spans_free(lines[i], '\x1b'));
        lemma_sound_emit(lines[i]);
    }
    reveal_strlit("\n");
    assert(free_of("\n"@, '\x1b'));
    lemma_sound_plain("\n"@);
    lemma_sound_join(pc, pp, "\n"@);
    let plain = render_lines_spec(spans, width, false);
    let colored = render_lines_spec(spans, width, true);
    if plain.len() == 0 && lines.len() > 0 {
        if lines.len() == 1 {
            let l = lines[0];
            law_plain_emit_is_text(l);
            if l.len() > 0 {
                assert(spans_ok(l));
                assert(output_span_ok(l[l.len() - 1]));
                assert(l.last().text.len() > 0) by {
                    reveal_strlit(" ");
                }
                assert(texts(l) == texts(l.drop_last()) + l.last().text);
            }
            assert(l =~= Seq::<SpanModel>::empty());
            assert(colored == emit_spec(l, true));
        } else {
            assert(join(pp, "\n"@) == join(pp.drop_last(), "\n"@) + "\n"@ + pp.last());
        }
    }
}

/// Inline nodes whose texts (values, URLs, alt texts, footnote markers) hold
/// no escape character.
pub open spec fn node_esc_free(n: MdNode) -> bool
    decreases n, 1nat,
{
    match n.kind {
        MdKind::Text { value } => free_of(value@, '\x1b'),
        MdKind::InlineCode { value } => free_of(value@, '\x1b'),
        MdKind::Html { value } => free_of(value@, '\x1b'),
        MdKind::Link { url } => free_of(url@, '\x1b') && nodes_esc_free(n.children@),
        MdKind::Image { alt } => free_of(alt@, '\x1b'),
        MdKind::ImageReference { alt } => free_of(alt@, '\x1b'),
        MdKind::FootnoteReference { label, identifier } => free_of(footnote_marker(label, identifier), '\x1b'),
        MdKind::Break => true,
        _ => nodes_esc_free(n.children@),
    }
}

/// Every node of the run is [`node_esc_free`].
pub open spec fn nodes_esc_free(ns: Seq<MdNode>) -> bool
    decreases ns, 0nat,
{
    if ns.len() == 0 {
        true
    } else {
        nodes_esc_free(ns.subrange(0, ns.len() - 1)) && node_esc_free(ns[ns.len() - 1])
    }
}

/// A block whose rendering color only decorates: no table (tables are
/// drawn by tabled), no empty HTML block (colored, it would still show its
/// escapes), and no escape character in any text.
pub open spec fn block_colorable(n: MdNode) -> bool
    decreases n, 3nat,
{
    match n.kind {
        MdKind::List { ordered, start } => items_colorable(n.children@),
        MdKind::Code { value } => free_of(value@, '\x1b'),
        MdKind::Blockquote => blocks_colorable(n.children@),
        MdKind::ThematicBreak => true,
        MdKind::Html { value } => free_of(value@, '\x1b') && value@.len() > 0,
        MdKind::Table { align } => false,
        _ => nodes_esc_free(n.children@),
    }
}

/// Every block of the run is [`block_colorable`].
pub open spec fn blocks_colorable(ns: Seq<MdNode>) -> bool
    decreases ns, 2nat,
{
    if ns.len() == 0 {
        true
    } else {
        blocks_colorable(ns.subrange(0, ns.len() - 1)) && block_colorable(ns[ns.len() - 1])
    }
}

/// The blocks of every list item of the run are [`blocks_colorable`].
pub open spec fn items_colorable(items: Seq<MdNode>) -> bool
    decreases items, 1nat,
{
    if items.len() == 0 {
        true
    } else {
        let rest = items.subrange(1, items.len() as int);
        items_colorable(rest) && match items[0].kind {
            MdKind::ListItem { checked } => blocks_colorable(items[0].children@),
            _ => true,
        }
    }
}

proof fn lemma_wrapped_esc_free(open: Seq<char>, middle: Seq<char>, close: Seq<char>)
    requires
        free_of(open, '\x1b'),
        free_of(middle, '\x1b'),
        free_of(close, '\x1b'),
    ensures
        free_of(open + middle + close, '\x1b'),
{
    let s = open + middle + close;
    assert forall|k: int| 0 <= k < s.len() implies #[trigger] s[k] != '\x1b' by {
        if k < open.len() {
            assert(s[k] == open[k]);
        } else if k < open.len() + middle.len() {
            assert(s[k] == middle[k - open.len()]);
        } else {
            assert(s[k] == close[k - open.len() - middle.len()]);
        }
    }
}

proof fn lemma_nl_to_space_free(s: Seq<char>)
    requires
        free_of(s, '\x1b'),
    ensures
        free_of(nl_to_space(s), '\x1b'),
{
    assert forall|k: int| 0 <= k < nl_to_space(s).len() implies #[trigger] nl_to_space(s)[k] != '\x1b' by {
        assert(s[k] != '\x1b');
    }
}

proof fn lemma_node_spans_free(n: MdNode, base: Style)
    requires
        node_esc_free(n),
    ensures
        spans_free(node_spans(n, base), '\x1b'),
    decreases n, 1nat,
{
    reveal_strlit(" (");
    reveal_strlit(")");
    reveal_strlit("[image: ");
    reveal_strlit("]");
    reveal_strlit("[^");
    reveal_strlit("\n");
    match n.kind {
        MdKind::Text { value } => lemma_nl_to_space_free(value@),
        MdKind::InlineCode { value } => lemma_nl_to_space_free(value@),
        MdKind::Html { value } => lemma_nl_to_space_free(value@),
        MdKind::Emphasis => lemma_collect_free(n.children@, with_italic(base)),
        MdKind::Strong => lemma_collect_free(n.children@, with_bold(base)),
        MdKind::Delete => lemma_collect_free(n.children@, with_strike(base)),
        MdKind::Link { url } => {
            lemma_collect_free(n.children@, with_link(base));
            lemma_wrapped_esc_free(" ("@, url@, ")"@);
            let tail = SpanModel { text: " ("@ + url@ + ")"@, style: with_dim(base) };
            assert(spans_free(seq![tail], '\x1b'));
            lemma_spans_free_concat(collect_spec(n.children@, with_link(base)), seq![tail], '\x1b');
            assert(collect_spec(n.children@, with_link(base)) + seq![tail] =~= collect_spec(n.children@, with_link(base)).push(tail));
        },
        MdKind::Image { alt } => lemma_wrapped_esc_free("[image: "@, alt@, "]"@),
        MdKind::ImageReference { alt } => lemma_wrapped_esc_free("[image: "@, alt@, "]"@),
        MdKind::FootnoteReference { label, identifier } => lemma_wrapped_esc_free("[^"@, footnote_marker(label, identifier), "]"@),
        MdKind::LinkReference => lemma_collect_free(n.children@, with_link(base)),
        MdKind::Break => {
            assert(free_of("\n"@, '\x1b'));
        },
        _ => lemma_collect_free(n.children@, base),
    }
}

proof fn lemma_collect_free(ns: Seq<MdNode>, base: Style)
    requires
        nodes_esc_free(ns),
    ensures
        spans_free(collect_spec(ns, base), '\x1b'),
    decreases ns, 0nat,
{
    if ns.len() == 0 {
        assert(spans_free(Seq::<SpanModel>::empty(), '\x1b'));
    } else {
        lemma_collect_free(ns.subrange(0, ns.len() - 1), base);
        lemma_node_spans_free(ns[ns.len() - 1], base);
        lemma_spans_free_concat(collect_spec(ns.subrange(0, ns.len() - 1), base), node_spans(ns[ns.len() - 1], base), '\x1b');
    }
}

/// `colored` is sound and strips to `plain`.
pub open spec fn strips_to(colored: Seq<char>, plain: Seq<char>) -> bool {
    sgr_sound(colored) && strip_sgr(colored) == plain
}

proof fn lemma_cat(a: Seq<char>, pa: Seq<char>, b: Seq<char>, pb: Seq<char>)
    requires
        strips_to(a, pa),
        strips_to(b, pb),
    ensures
        strips_to(a + b, pa + pb),
{
    lemma_sound_concat(a, b);
}

proof fn lemma_plain(t: Seq<char>)
    requires
        free_of(t, '\x1b'),
    ensures
        strips_to(t, t),
{
    lemma_sound_plain(t);
}

/// The dim and reset escapes strip to nothing.
proof fn lemma_dim_reset()
    ensures
        strips_to("\x1b[2m"@, Seq::<char>::empty()),
        strips_to("\x1b[0m"@, Seq::<char>::empty()),
{
    reveal_strlit("\x1b[2m");
    reveal_strlit("\x1b[0m");
    reveal_strlit("\x1b[");
    reveal_strlit("m");
    assert(free_of(seq!['2'], 'm') && free_of(seq!['2'], '\n'));
    assert(free_of(seq!['0'], 'm') && free_of(seq!['0'], '\n'));
    lemma_sound_escape(seq!['2']);
    lemma_sound_escape(seq!['0']);
    assert("\x1b[2m"@ =~= "\x1b["@ + seq!['2'] + "m"@);
    assert("\x1b[0m"@ =~= "\x1b["@ + seq!['0'] + "m"@);
}

/// Text between the dim and reset escapes strips to the text.
proof fn lemma_dim_wrap(x: Seq<char>)
    requires
        free_of(x, '\x1b'),
    ensures
        strips_to("\x1b[2m"@ + x + "\x1b[0m"@, x),
{
    lemma_dim_reset();
    lemma_plain(x);
    lemma_cat("\x1b[2m"@, Seq::<char>::empty(), x, x);
    lemma_cat("\x1b[2m"@ + x, Seq::<char>::empty() + x, "\x1b[0m"@, Seq::<char>::empty());
    assert(Seq::<char>::empty() + x + Seq::<char>::empty() =~= x);
}

proof fn lemma_subst_newline_id(s: Seq<char>)
    ensures
        subst_nl(s, seq!['\n']) == s,
    decreases s.len(),
{
    if s.len() > 0 {
        lemma_subst_newline_id(s.drop_last());
        assert(s.drop_last() + seq![s.last()] =~= s);
    }
}

/// Joining parts that show as their plain forms, with a separator whose
/// plain form is not empty.
proof fn lemma_join_shows(parts: Seq<Seq<char>>, plain: Seq<Seq<char>>, sep: Seq<char>)
    requires
        parts.len() == plain.len(),
        forall|i: int| 0 <= i < parts.len() ==> shows_as(#[trigger] parts[i], plain[i]),
        sgr_sound(sep),
        strip_sgr(sep).len() > 0,
    ensures
        shows_as(join(parts, sep), join(plain, strip_sgr(sep))),
{
    assert forall|i: int| 0 <= i < parts.len() implies sgr_sound(#[trigger] parts[i]) && strip_sgr(parts[i]) == plain[i] by {
        assert(shows_as(parts[i], plain[i]));
    }
    lemma_sound_join(parts, plain, sep);
    if parts.len() == 1 {
        assert(shows_as(parts[0], plain[0]));
    } else if parts.len() > 1 {
        let q = strip_sgr(sep);
        assert(join(plain, q) == join(plain.drop_last(), q) + q + plain.last());
    }
}

proof fn lemma_decimal_free(n: nat)
    ensures
        free_of(decimal(n), '\x1b'),
        decimal(n).len() > 0,
    decreases n,
{
    if n >= 10 {
        lemma_decimal_free(n / 10);
        let d = decimal(n / 10);
        assert forall|k: int| 0 <= k < d.push(digit_char(n % 10)).len() implies #[trigger] d.push(digit_char(n % 10))[k] != '\x1b' by {
            if k < d.len() {
                assert(d.push(digit_char(n % 10))[k] == d[k]);
            }
        }
    }
}

proof fn lemma_marker_free(ordered: bool, number: nat, checked: Option<bool>)
    ensures
        free_of(item_marker(ordered, number, checked), '\x1b'),
        item_marker(ordered, number, checked).len() > 0,
{
    reveal_strlit(". ");
    reveal_strlit("• ");
    reveal_strlit("[x] ");
    reveal_strlit("[ ] ");
    reveal_strlit("");
    lemma_decimal_free(number);
    let marker = if ordered { decimal(number) + ". "@ } else { "• "@ };
    let check = match checked {
        Some(true) => "[x] "@,
        Some(false) => "[ ] "@,
        None => ""@,
    };
    assert(free_of(check, '\x1b'));
    assert(free_of(". "@, '\x1b'));
    assert(free_of("• "@, '\x1b'));
    lemma_wrapped_esc_free(Seq::<char>::empty(), marker, check);
    if ordered {
        lemma_wrapped_esc_free(decimal(number), ". "@, Seq::<char>::empty());
        assert(decimal(number) + ". "@ + Seq::<char>::empty() =~= marker);
    }
    assert(Seq::<char>::empty() + marker + check =~= item_marker(ordered, number, checked));
}

proof fn lemma_heading_free(depth: u8, children: Seq<MdNode>)
    requires
        nodes_esc_free(children),
    ensures
        spans_free(heading_spans(depth, children), '\x1b'),
{
    lemma_collect_free(children, plain_style());
    let h = hashes(depth as nat);
    assert(free_of(h, '\x1b')) by {
        assert forall|k: int| 0 <= k < h.len() implies #[trigger] h[k] != '\x1b' by {
            if k < depth {
                assert(h[k] == '#');
            } else {
                assert(h[k] == ' ');
            }
        }
    }
    let hs = heading_spans(depth, children);
    let c = collect_spec(children, plain_style());
    assert forall|i: int| 0 <= i < hs.len() implies free_of(#[trigger] hs[i].text, '\x1b') by {
        if i > 0 {
            assert(hs[i].text == c[i - 1].text);
        }
    }
}

proof fn lemma_code_shows(v: Seq<char>)
    requires
        free_of(v, '\x1b'),
    ensures
        shows_as(code_spec(v, true), code_spec(v, false)),
{
    reveal_strlit("\x1b[2m    ");
    reveal_strlit("\x1b[0m\n\x1b[2m    ");
    reveal_strlit("\x1b[0m");
    reveal_strlit("\x1b[2m");
    reveal_strlit("    ");
    reveal_strlit("\n    ");
    lemma_dim_reset();
    let dim = "\x1b[2m"@;
    let reset = "\x1b[0m"@;
    let ind = "    "@;
    let e = Seq::<char>::empty();
    assert(free_of(ind, '\x1b'));
    assert(free_of(seq!['\n'], '\x1b'));
    lemma_plain(ind);
    lemma_plain(seq!['\n']);
    lemma_cat(dim, e, ind, ind);
    let head = dim + ind;
    lemma_cat(seq!['\n'], seq!['\n'], head, e + ind);
    lemma_cat(reset, e, seq!['\n'] + head, seq!['\n'] + (e + ind));
    let sep = reset + (seq!['\n'] + head);
    assert(sep =~= "\x1b[0m\n\x1b[2m    "@);
    assert(e + (seq!['\n'] + (e + ind)) =~= "\n    "@);
    assert(head =~= "\x1b[2m    "@);
    lemma_sound_plain(v);
    lemma_sound_subst(v, sep);
    let body = subst_nl(v, sep);
    lemma_cat(head, e + ind, body, subst_nl(v, "\n    "@));
    lemma_cat(head + body, e + ind + subst_nl(v, "\n    "@), reset, e);
    assert(e + ind + subst_nl(v, "\n    "@) + e =~= code_spec(v, false));
    assert(head + body + reset =~= code_spec(v, true));
}

proof fn lemma_rule_shows(width: nat)
    ensures
        shows_as(rule_spec(width, true), rule_spec(width, false)),
{
    let n: nat = if width < 1 { 1 } else if width > 80 { 80 } else { width };
    let line = Seq::new(n, |i: int| '─');
    assert(free_of(line, '\x1b'));
    lemma_dim_wrap(line);
}

proof fn lemma_html_shows(v: Seq<char>)
    requires
        free_of(v, '\x1b'),
        v.len() > 0,
    ensures
        shows_as(
            decorate_lines_spec(v, true, "\x1b[2m"@, "\x1b[0m"@),
            decorate_lines_spec(v, false, "\x1b[2m"@, "\x1b[0m"@),
        ),
{
    lemma_dim_reset();
    let dim = "\x1b[2m"@;
    let reset = "\x1b[0m"@;
    let e = Seq::<char>::empty();
    assert(free_of(seq!['\n'], '\x1b'));
    lemma_plain(seq!['\n']);
    lemma_cat(reset, e, seq!['\n'], seq!['\n']);
    lemma_cat(reset + seq!['\n'], e + seq!['\n'], dim, e);
    let sep = reset + seq!['\n'] + dim;
    assert(e + seq!['\n'] + e =~= seq!['\n']);
    lemma_sound_plain(v);
    lemma_sound_subst(v, sep);
    lemma_subst_newline_id(v);
    let body = subst_nl(v, sep);
    lemma_cat(dim, e, body, v);
    lemma_cat(dim + body, e + v, reset, e);
    assert(e + v + e =~= v);
}

/// Rendering a colorable block with color shows as rendering it without.
proof fn lemma_block_shows(n: MdNode, width: nat)
    requires
        block_colorable(n),
    ensures
        shows_as(block_spec(n, width, true), block_spec(n, width, false)),
    decreases n, 3nat,
{
    match n.kind {
        MdKind::Heading { depth } => {
            lemma_heading_free(depth, n.children@);
            lemma_lines_show(heading_spans(depth, n.children@), width);
        },
        MdKind::List { ordered, start } => {
            let number: nat = match start { Some(s) => s as nat, None => 1 };
            lemma_items_show(n.children@, number, ordered, width);
            reveal_strlit("\n");
            assert(free_of("\n"@, '\x1b'));
            lemma_sound_plain("\n"@);
            lemma_join_shows(
                items_texts(n.children@, number, ordered, width, true),
                items_texts(n.children@, number, ordered, width, false),
                "\n"@,
            );
        },
        MdKind::Code { value } => lemma_code_shows(value@),
        MdKind::Blockquote => {
            let w2 = narrowed(width, 2);
            lemma_blocks_show(n.children@, w2);
            reveal_strlit("\n\n");
            assert(free_of("\n\n"@, '\x1b'));
            lemma_sound_plain("\n\n"@);
            let bc = block_texts(n.children@, w2, true);
            let bp = block_texts(n.children@, w2, false);
            lemma_join_shows(bc, bp, "\n\n"@);
            let body = join(bc, "\n\n"@);
            let pbody = join(bp, "\n\n"@);
            reveal_strlit("\x1b[2m│\x1b[0m ");
            reveal_strlit("│ ");
            reveal_strlit("\x1b[2m");
            reveal_strlit("\x1b[0m");
            lemma_dim_reset();
            let e = Seq::<char>::empty();
            assert(free_of(seq!['│'], '\x1b') && free_of(seq![' '], '\x1b') && free_of(seq!['\n'], '\x1b'));
            lemma_plain(seq!['│']);
            lemma_plain(seq![' ']);
            lemma_plain(seq!['\n']);
            lemma_cat("\x1b[2m"@, e, seq!['│'], seq!['│']);
            lemma_cat("\x1b[2m"@ + seq!['│'], e + seq!['│'], "\x1b[0m"@, e);
            lemma_cat("\x1b[2m"@ + seq!['│'] + "\x1b[0m"@, e + seq!['│'] + e, seq![' '], seq![' ']);
            let bar = "\x1b[2m│\x1b[0m "@;
            assert(bar =~= "\x1b[2m"@ + seq!['│'] + "\x1b[0m"@ + seq![' ']);
            assert(e + seq!['│'] + e + seq![' '] =~= "│ "@);
            lemma_cat(seq!['\n'], seq!['\n'], bar, "│ "@);
            lemma_sound_subst(body, seq!['\n'] + bar);
            lemma_cat(bar, "│ "@, subst_nl(body, seq!['\n'] + bar), subst_nl(pbody, seq!['\n'] + "│ "@));
        },
        MdKind::ThematicBreak => lemma_rule_shows(width),
        MdKind::Html { value } => lemma_html_shows(value@),
        MdKind::Table { align } => {},
        _ => {
            lemma_collect_free(n.children@, plain_style());
            lemma_lines_show(collect_spec(n.children@, plain_style()), width);
        },
    }
}

/// The renderings of a run of colorable blocks, with and without color:
/// the same blocks are kept, each showing as its plain rendering.
proof fn lemma_blocks_show(ns: Seq<MdNode>, width: nat)
    requires
        blocks_colorable(ns),
    ensures
        block_texts(ns, width, true).len() == block_texts(ns, width, false).len(),
        forall|i: int| 0 <= i < block_texts(ns, width, true).len()
            ==> shows_as(#[trigger] block_texts(ns, width, true)[i], block_texts(ns, width, false)[i]),
    decreases ns, 2nat,
{
    if ns.len() > 0 {
        let prev = ns.subrange(0, ns.len() - 1);
        lemma_blocks_show(prev, width);
        lemma_block_shows(ns[ns.len() - 1], width);
        let bc = block_spec(ns[ns.len() - 1], width, true);
        let bp = block_spec(ns[ns.len() - 1], width, false);
        if bc.len() == 0 {
            assert(bc =~= Seq::<char>::empty());
            assert(strip_sgr(Seq::<char>::empty()) == Seq::<char>::empty());
        }
        let pc = block_texts(prev, width, true);
        let pp = block_texts(prev, width, false);
        if bc.len() > 0 {
            assert forall|i: int| 0 <= i < pc.push(bc).len() implies shows_as(#[trigger] pc.push(bc)[i], pp.push(bp)[i]) by {
                if i < pc.len() {
                    assert(shows_as(pc[i], pp[i]));
                }
            }
        }
    }
}

/// One list item, with and without color.
proof fn lemma_item_shows(item: MdNode, ordered: bool, number: nat, checked: Option<bool>, width: nat)
    requires
        blocks_colorable(item.children@),
    ensures
        shows_as(item_text(item, ordered, number, checked, width, true), item_text(item, ordered, number, checked, width, false)),
    decreases item, 0nat,
{
    let first_plain = item_marker(ordered, number, checked);
    let pad = Seq::new(first_plain.len(), |i: int| ' ');
    let w2 = narrowed(width, first_plain.len());
    lemma_blocks_show(item.children@, w2);
    reveal_strlit("\n");
    assert(free_of("\n"@, '\x1b'));
    lemma_sound_plain("\n"@);
    let bc = block_texts(item.children@, w2, true);
    let bp = block_texts(item.children@, w2, false);
    lemma_join_shows(bc, bp, "\n"@);
    let body = join(bc, "\n"@);
    let pbody = join(bp, "\n"@);
    lemma_marker_free(ordered, number, checked);
    lemma_dim_wrap(first_plain);
    let sep = seq!['\n'] + pad;
    assert(free_of(sep, '\x1b')) by {
        assert forall|k: int| 0 <= k < sep.len() implies #[trigger] sep[k] != '\x1b' by {
            if k > 0 {
                assert(sep[k] == pad[k - 1]);
            }
        }
    }
    lemma_plain(sep);
    lemma_sound_subst(body, sep);
    let first = "\x1b[2m"@ + first_plain + "\x1b[0m"@;
    lemma_cat(first, first_plain, subst_nl(body, sep), subst_nl(pbody, sep));
}

/// The items of a list, with and without color.
proof fn lemma_items_show(items: Seq<MdNode>, number: nat, ordered: bool, width: nat)
    requires
        items_colorable(items),
    ensures
        items_texts(items, number, ordered, width, true).len() == items_texts(items, number, ordered, width, false).len(),
        forall|i: int| 0 <= i < items_texts(items, number, ordered, width, true).len()
            ==> shows_as(#[trigger] items_texts(items, number, ordered, width, true)[i], items_texts(items, number, ordered, width, false)[i]),
    decreases items, 1nat,
{
    if items.len() > 0 {
        let rest = items.subrange(1, items.len() as int);
        match items[0].kind {
            MdKind::ListItem { checked } => {
                let next: nat = if ordered { number + 1 } else { number };
                lemma_item_shows(items[0], ordered, number, checked, width);
                lemma_items_show(rest, next, ordered, width);
                let hc = item_text(items[0], ordered, number, checked, width, true);
                let hp = item_text(items[0], ordered, number, checked, width, false);
                let rc = items_texts(rest, next, ordered, width, true);
                let rp = items_texts(rest, next, ordered, width, false);
                assert forall|i: int| 0 <= i < (seq![hc] + rc).len() implies shows_as(#[trigger] (seq![hc] + rc)[i], (seq![hp] + rp)[i]) by {
                    if i > 0 {
                        assert((seq![hc] + rc)[i] == rc[i - 1]);
                        assert((seq![hp] + rp)[i] == rp[i - 1]);
                    }
                }
            },
            _ => lemma_items_show(rest, number, ordered, width),
        }
    }
}

/// Color only adds escape codes to a rendering: with every SGR sequence
/// removed, the colored rendering of a Markdown document is its plain
/// rendering, character for character. This holds for documents without
/// tables (tabled draws those), without empty HTML blocks, and without an
/// escape character in their text.
pub proof fn law_render_color_only_adds_sgr(markdown: Seq<char>, width: nat)
    requires
        match spec_parse_markdown(markdown) {
            Some(root) => if root.kind is Root { blocks_colorable(root.children@) } else { free_of(markdown, '\x1b') },
            None => free_of(markdown, '\x1b'),
        },
    ensures
        strip_sgr(render_spec(markdown, width, true)) == render_spec(markdown, width, false),
{
    match spec_parse_markdown(markdown) {
        Some(root) => match root.kind {
            MdKind::Root => {
                lemma_blocks_show(root.children@, width);
                reveal_strlit("\n\n");
                assert(free_of("\n\n"@, '\x1b'));
                lemma_sound_plain("\n\n"@);
                lemma_join_shows(block_texts(root.children@, width, true), block_texts(root.children@, width, false), "\n\n"@);
            },
            _ => lemma_sound_plain(markdown),
        },
        None => lemma_sound_plain(markdown),
    }
}

} // verus!
