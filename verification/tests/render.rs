use noki::md::{parse_markdown, MdKind, MdNode};
use noki::render::inline::{collect, emit, spans, Span, Style};
use noki::render::render;
use noki::render::wrap::wrap;

/// Inline children of the first paragraph in `md`.
fn inline(md: &str) -> Vec<MdNode> {
    let root = parse_markdown(md).expect("parses");
    assert!(matches!(root.kind, MdKind::Root), "no root");
    for node in root.children {
        if let MdKind::Paragraph = node.kind {
            return node.children;
        }
    }
    panic!("no paragraph in: {md}");
}

fn plain(text: &str) -> Vec<Span> {
    vec![Span { text: text.into(), style: Style::default() }]
}

fn line_text(line: &[Span]) -> String {
    line.iter().map(|s| s.text.as_str()).collect()
}

const TABLE: &str = "| Name | Qty |\n| :--- | ---: |\n| Apples | 3 |\n| Pears | 12 |\n";

#[test]
fn heading_is_bold() {
    let out = render("## Hi", 80, true);
    assert!(out.contains("\x1b[1m"), "expected bold in {out:?}");
    assert!(out.contains("Hi"));
}

#[test]
fn h1_is_bold_and_underlined() {
    let out = render("# Hi", 80, true);
    assert!(out.contains("\x1b[1;4m"), "expected bold+underline in {out:?}");
    assert!(out.contains("Hi"));
}

#[test]
fn paragraph_wraps_to_width() {
    let out = render("aaa bbb ccc ddd", 7, false);
    assert!(out.contains('\n'), "expected a wrap in {out:?}");
}

#[test]
fn bullet_list_uses_marker() {
    let out = render("- one\n- two", 80, false);
    assert!(out.contains("• one"), "in {out:?}");
    assert!(out.contains("• two"), "in {out:?}");
}

#[test]
fn ordered_list_numbers() {
    let out = render("1. a\n2. b", 80, false);
    assert!(out.contains("1. a"), "in {out:?}");
    assert!(out.contains("2. b"), "in {out:?}");
}

#[test]
fn task_list_shows_checkbox() {
    let out = render("- [x] done\n- [ ] todo", 80, false);
    assert!(out.contains("[x] done"), "in {out:?}");
    assert!(out.contains("[ ] todo"), "in {out:?}");
}

#[test]
fn nested_list_is_indented() {
    let out = render("- outer\n  - inner", 80, false);
    let inner_line = out.lines().find(|l| l.contains("inner")).unwrap();
    assert!(inner_line.starts_with("  "), "inner not indented: {out:?}");
}

#[test]
fn code_block_is_indented() {
    let out = render("```\nlet x = 1;\n```", 80, false);
    assert!(out.contains("    let x = 1;"), "in {out:?}");
}

#[test]
fn blockquote_has_bar() {
    let out = render("> quoted", 80, false);
    assert!(out.contains("│ quoted"), "in {out:?}");
}

#[test]
fn thematic_break_draws_rule() {
    let out = render("a\n\n---\n\nb", 80, false);
    assert!(out.contains('─'), "expected rule in {out:?}");
}

#[test]
fn invalid_stays_as_input_text() {
    let out = render("just text", 80, false);
    assert!(out.contains("just text"));
}

#[test]
fn renders_headers_and_cells() {
    let out = render(TABLE, 80, false);
    assert!(out.contains("Name"), "in {out:?}");
    assert!(out.contains("Qty"), "in {out:?}");
    assert!(out.contains("Apples"), "in {out:?}");
    assert!(out.contains("12"), "in {out:?}");
}

#[test]
fn draws_box_borders() {
    let out = render(TABLE, 80, false);
    assert!(out.contains('│') || out.contains('─'), "expected borders in {out:?}");
}

#[test]
fn bold_header_when_color() {
    let out = render(TABLE, 80, true);
    assert!(out.contains("\x1b[1m"), "expected bold header in {out:?}");
}

#[test]
fn strong_sets_bold() {
    let sp = spans(&inline("**hi**"));
    assert_eq!(sp.len(), 1);
    assert_eq!(sp[0].text, "hi");
    assert!(sp[0].style.bold);
    assert!(!sp[0].style.italic);
}

#[test]
fn nested_emphasis_merges_styles() {
    let sp = spans(&inline("**_hi_**"));
    assert_eq!(sp.len(), 1);
    assert!(sp[0].style.bold && sp[0].style.italic);
}

#[test]
fn inline_code_sets_code_flag() {
    let sp = spans(&inline("`x`"));
    assert_eq!(sp[0].text, "x");
    assert!(sp[0].style.code);
}

#[test]
fn link_appends_dim_url() {
    let sp = spans(&inline("[text](https://e.com)"));
    assert!(sp.iter().any(|s| s.text == "text" && s.style.link));
    assert!(sp.iter().any(|s| s.text.contains("https://e.com") && s.style.dim));
}

#[test]
fn link_is_underlined_and_blue() {
    let link = Span { text: "text".to_string(), style: Style { link: true, ..Style::default() } };
    let out = emit(&[link], true);
    assert!(out.contains("\x1b[4;34m"), "link should be underlined + blue: {out:?}");
}

#[test]
fn soft_break_becomes_space() {
    let sp = spans(&inline("a\nb"));
    let joined: String = sp.iter().map(|s| s.text.as_str()).collect();
    assert!(!joined.contains('\n'), "soft break should be a space: {joined:?}");
}

#[test]
fn emit_wraps_bold_in_ansi() {
    let out = emit(&[Span { text: "hi".into(), style: Style { bold: true, ..Style::default() } }], true);
    assert!(out.contains("\x1b[1m"), "expected bold SGR in {out:?}");
    assert!(out.contains("hi"));
    assert!(out.ends_with("\x1b[0m"));
}

#[test]
fn emit_plain_has_no_ansi() {
    let out = emit(&[Span { text: "hi".into(), style: Style { bold: true, ..Style::default() } }], false);
    assert_eq!(out, "hi");
}

#[test]
fn link_reference_gets_link_style() {
    let sp = spans(&inline("[text][ref]\n\n[ref]: https://example.com"));
    assert!(
        sp.iter().any(|s| s.text == "text" && s.style.link),
        "expected link-styled reference text in {:?}",
        sp.iter().map(|s| &s.text).collect::<Vec<_>>()
    );
}

#[test]
fn image_reference_shows_dim_placeholder() {
    let sp = spans(&inline("![alt][ref]\n\n[ref]: https://example.com/i.png"));
    assert!(
        sp.iter().any(|s| s.text.contains("[image: alt]") && s.style.dim),
        "expected dim image placeholder in {:?}",
        sp.iter().map(|s| &s.text).collect::<Vec<_>>()
    );
}

#[test]
fn footnote_reference_shows_dim_marker() {
    let sp = spans(&inline("a[^1]\n\n[^1]: the note"));
    assert!(
        sp.iter().any(|s| s.text.contains("[^1]") && s.style.dim),
        "expected dim footnote marker in {:?}",
        sp.iter().map(|s| &s.text).collect::<Vec<_>>()
    );
}

#[test]
fn breaks_at_width() {
    let lines = wrap(&plain("aaa bbb ccc"), 7);
    assert_eq!(lines.len(), 2);
    assert_eq!(line_text(&lines[0]), "aaa bbb");
    assert_eq!(line_text(&lines[1]), "ccc");
}

#[test]
fn fits_on_one_line() {
    let lines = wrap(&plain("a b c"), 80);
    assert_eq!(lines.len(), 1);
    assert_eq!(line_text(&lines[0]), "a b c");
}

#[test]
fn hard_break_forces_new_line() {
    let spans = vec![
        Span { text: "a".into(), style: Style::default() },
        Span { text: "\n".into(), style: Style::default() },
        Span { text: "b".into(), style: Style::default() },
    ];
    let lines = wrap(&spans, 80);
    assert_eq!(lines.len(), 2);
    assert_eq!(line_text(&lines[0]), "a");
    assert_eq!(line_text(&lines[1]), "b");
}

#[test]
fn overlong_word_gets_its_own_line() {
    let lines = wrap(&plain("hi supercalifragilistic bye"), 6);
    assert_eq!(lines.len(), 3);
    assert_eq!(line_text(&lines[1]), "supercalifragilistic");
}

#[test]
fn keeps_styled_word_intact() {
    let spans = vec![
        Span { text: "un".into(), style: Style::default() },
        Span { text: "bold".into(), style: Style { bold: true, ..Style::default() } },
    ];
    let lines = wrap(&spans, 3);
    assert_eq!(lines.len(), 1, "no space, so it is one word");
    assert_eq!(line_text(&lines[0]), "unbold");
}

#[test]
fn wrapped_lines_fit_the_width() {
    let lines = wrap(&plain("the quick brown fox jumps over the lazy dog"), 10);
    for line in &lines {
        let t = line_text(line);
        assert!(t.chars().count() <= 10, "line too wide: {t:?}");
    }
    let joined: Vec<String> = lines.iter().map(|l| line_text(l)).collect();
    assert_eq!(joined.join(" "), "the quick brown fox jumps over the lazy dog");
}

#[test]
fn width_zero_is_treated_as_one() {
    let lines = wrap(&plain("a b"), 0);
    assert_eq!(lines.len(), 2);
}

#[test]
fn ordered_list_starts_at_its_number() {
    let out = render("3. c\n4. d", 80, false);
    assert!(out.contains("3. c"), "in {out:?}");
    assert!(out.contains("4. d"), "in {out:?}");
}

#[test]
fn plain_rule_fills_the_width() {
    let out = render("---", 5, false);
    assert_eq!(out, "─────");
}

#[test]
fn plain_emit_concatenates_texts() {
    let sp = vec![
        Span { text: "a".into(), style: Style { italic: true, ..Style::default() } },
        Span { text: "b".into(), style: Style::default() },
    ];
    assert_eq!(emit(&sp, false), "ab");
}

#[test]
fn rule_is_clamped_to_one_through_eighty() {
    let s = |v: Vec<char>| v.into_iter().collect::<String>();
    assert_eq!(s(noki::render::rule(0, false)), "─");
    assert_eq!(s(noki::render::rule(200, false)).chars().count(), 80);
    assert_eq!(s(noki::render::rule(3, true)), "\x1b[2m───\x1b[0m");
}

#[test]
fn decorate_lines_wraps_each_line_only_with_color() {
    let text: Vec<char> = "a\nb".chars().collect();
    let s = |v: Vec<char>| v.into_iter().collect::<String>();
    assert_eq!(s(noki::render::decorate_lines(&text, false, "<", ">")), "a\nb");
    assert_eq!(s(noki::render::decorate_lines(&text, true, "<", ">")), "<a>\n<b>");
}

fn without_sgr(s: &str) -> String {
    let mut out = String::new();
    let mut in_escape = false;
    for c in s.chars() {
        if in_escape {
            if c == 'm' {
                in_escape = false;
            }
        } else if c == '\u{1b}' {
            in_escape = true;
        } else {
            out.push(c);
        }
    }
    out
}

#[test]
fn color_only_adds_escape_sequences() {
    let md = "# Title\n\nSome *emphasis*, **bold** and `code` with a [link](https://x.y).\n\n\
              > quoted\n> text\n\n1. one\n2. two\n   - nested\n\n    indented code\n\n---\n\n<div>html</div>";
    let colored = render(md, 30, true);
    let plain = render(md, 30, false);
    assert!(colored.contains('\u{1b}'), "in {colored:?}");
    assert!(!plain.contains('\u{1b}'), "in {plain:?}");
    assert_eq!(without_sgr(&colored), plain);
}

#[test]
fn wrap_separates_words_by_one_plain_space() {
    let input = vec![
        Span { text: "  one   two".into(), style: Style { bold: true, ..Style::default() } },
        Span { text: "   three  ".into(), style: Style::default() },
    ];
    let lines = wrap(&input, 9);
    let texts: Vec<String> = lines.iter().map(|l| line_text(l)).collect();
    assert_eq!(texts, vec!["one two".to_string(), "three".to_string()]);
    let first = &lines[0];
    assert_eq!(first.len(), 3);
    assert!(first[0].style.bold && first[2].style.bold);
    assert_eq!(first[1].text, " ");
    assert_eq!(first[1].style, Style::default());
}

#[test]
fn wrap_keeps_words_whole_across_styles() {
    let input = vec![
        Span { text: "alpha be".into(), style: Style::default() },
        Span { text: "ta\ngamma".into(), style: Style { italic: true, ..Style::default() } },
    ];
    let lines = wrap(&input, 6);
    let texts: Vec<String> = lines.iter().map(|l| line_text(l)).collect();
    assert_eq!(texts, vec!["alpha".to_string(), "beta".to_string(), "gamma".to_string()]);
    assert_eq!(lines[1].len(), 2);
    assert!(!lines[1][0].style.italic && lines[1][1].style.italic);
}

#[test]
fn wrap_breaks_early_only_at_a_newline() {
    let lines = wrap(&plain("one\ntwo three four"), 9);
    let texts: Vec<String> = lines.iter().map(|l| line_text(l)).collect();
    assert_eq!(texts, vec!["one".to_string(), "two three".to_string(), "four".to_string()]);
}

#[test]
fn collect_appends_spans_without_newlines() {
    let nodes = inline("soft\nbreak and *it*");
    let mut out = vec![Span { text: "kept".into(), style: Style::default() }];
    collect(&nodes, Style::default(), &mut out);
    assert_eq!(out[0].text, "kept");
    let rest: String = out[1..].iter().map(|s| s.text.as_str()).collect();
    assert_eq!(rest, "soft break and it");
    assert!(out.iter().all(|s| !s.text.contains('\n')));
    assert!(out.last().unwrap().style.italic);
}
