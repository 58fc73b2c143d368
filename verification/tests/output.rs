use noki::label::{LabelColor, Rgb};
use noki::note::{Meta, MetaEntry, MetaValue, Note};
use noki::output::{render_list_human, render_note_human, TableWidth};
use noki::timestamp::Timestamp;

fn at(s: &str) -> Timestamp {
    let dt = chrono::DateTime::parse_from_rfc3339(s).unwrap();
    Timestamp { secs: dt.timestamp(), nanos: dt.timestamp_subsec_nanos(), offset: dt.offset().local_minus_utc() }
}

fn colors(n: usize) -> Vec<LabelColor> {
    (0..n)
        .map(|i| LabelColor {
            background: Rgb { r: (i * 40) as u8, g: 60, b: 90 },
            foreground: Rgb { r: 240, g: 240, b: (i * 10) as u8 },
        })
        .collect()
}

fn note(title: &str, path: &str, labels: &[&str], extra: Vec<MetaEntry>, content: &str) -> Note {
    Note {
        meta: Meta {
            title: title.to_string(),
            path: path.to_string(),
            labels: labels.iter().map(|s| s.to_string()).collect(),
            created: at("2026-06-02T10:00:00+01:00"),
            updated: at("2026-06-02T10:00:02+01:00"),
            extra,
        },
        content: content.to_string(),
    }
}

/// The note of the plain frontmatter example.
fn raw() -> Note {
    note("My new note", "2026/06/02/10:00:00-my-new-note.md", &[], vec![], "Hello, World!\n")
}

/// The note carrying four labels.
fn raw_labels() -> Note {
    note("A note", "2026/06/02/a.md", &["feature", "backend", "priority", "ops"], vec![], "Body\n")
}

/// Visible column count of a line, ignoring ANSI CSI SGR (`\x1b[…m`) escapes.
fn visible_width(line: &str) -> usize {
    let mut width = 0;
    let mut chars = line.chars();
    while let Some(ch) = chars.next() {
        if ch == '\x1b' {
            for esc in chars.by_ref() {
                if esc == 'm' {
                    break;
                }
            }
        } else {
            width += 1;
        }
    }
    width
}

#[test]
fn list_human_shows_colored_labels_truncated() {
    let text = render_list_human(&[raw_labels()], 3, true, &colors(4));
    assert!(text.contains("\x1b["), "expected ANSI color codes in:\n{text}");
    assert!(text.contains("feature"), "expected first label in:\n{text}");
    assert!(text.contains("+1 more"), "expected overflow marker in:\n{text}");
}

#[test]
fn list_human_without_color_omits_ansi() {
    let text = render_list_human(&[raw_labels()], 3, false, &colors(4));
    assert!(!text.contains('\x1b'), "expected no ANSI codes in:\n{text}");
    assert!(text.contains("feature"), "expected first label in:\n{text}");
    assert!(text.contains("+1 more"), "expected overflow marker in:\n{text}");
}

#[test]
fn list_human_bold_headers_when_color() {
    let text = render_list_human(&[raw()], 3, true, &colors(0));
    assert!(text.contains("\x1b[1m"), "expected bold header ANSI in:\n{text}");
}

#[test]
fn note_human_bold_header_column_when_color() {
    let text = render_note_human(&raw(), TableWidth::Fit(80), true, &colors(0));
    assert!(text.contains("\x1b[1m"), "expected bold header-column ANSI in:\n{text}");
}

#[test]
fn note_human_shows_title_and_content() {
    let text = render_note_human(&raw(), TableWidth::Fit(80), true, &colors(0));
    assert!(text.contains("My new note"));
    assert!(text.contains("Hello, World!"));
}

#[test]
fn note_human_shows_extra_meta() {
    let extra = vec![MetaEntry { key: "author".to_string(), value: MetaValue::Text("Paul van der Meijs".to_string()) }];
    let n = note("T", "p.md", &[], extra, "Body\n");
    let text = render_note_human(&n, TableWidth::Fit(80), true, &colors(0));
    assert!(text.contains("author"), "expected author key in:\n{text}");
    assert!(text.contains("Paul van der Meijs"), "expected author value in:\n{text}");
}

#[test]
fn note_human_colors_labels() {
    let text = render_note_human(&raw_labels(), TableWidth::Fit(80), true, &colors(4));
    assert!(text.contains("labels"), "expected labels row in:\n{text}");
    assert!(text.contains("\x1b["), "expected ANSI color codes in:\n{text}");
    assert!(text.contains("feature"), "expected label text in:\n{text}");
    assert!(text.contains("ops"), "single-note view shows all labels:\n{text}");
}

#[test]
fn note_human_without_color_omits_ansi() {
    let text = render_note_human(&raw_labels(), TableWidth::Fit(80), false, &colors(4));
    assert!(!text.contains('\x1b'), "expected no ANSI codes in:\n{text}");
    assert!(text.contains("feature"), "expected label text in:\n{text}");
    assert!(text.contains("ops"), "single-note view shows all labels:\n{text}");
}

#[test]
fn note_human_renders_body_when_color() {
    let n = note("T", "p.md", &[], vec![], "# Heading\n");
    let text = render_note_human(&n, TableWidth::Fit(80), true, &colors(0));
    assert!(text.contains("\x1b[1m"), "expected rendered bold heading in:\n{text}");
    assert!(text.contains("Heading"), "expected heading text in:\n{text}");
}

#[test]
fn note_human_keeps_raw_body_when_no_color() {
    let n = note("T", "p.md", &[], vec![], "# Heading\n");
    let text = render_note_human(&n, TableWidth::Fit(80), false, &colors(0));
    assert!(text.contains("# Heading"), "expected literal markdown source in:\n{text}");
    assert!(text.ends_with("\n\n# Heading\n"));
}

#[test]
fn note_human_fixed_forces_exact_width() {
    let text = render_note_human(&raw(), TableWidth::Fixed(60), false, &colors(0));
    let top = text.lines().next().unwrap();
    assert_eq!(top.chars().count(), 60, "top border should be exactly 60 wide, was {}: {top:?}", top.chars().count());
}

#[test]
fn note_human_fixed_wraps_long_content_to_width() {
    let n = note(
        "An extremely long note title that clearly exceeds the configured maximum width",
        "p.md",
        &[],
        vec![],
        "ok\n",
    );
    let text = render_note_human(&n, TableWidth::Fixed(30), false, &colors(0));
    for line in text.lines() {
        assert!(line.chars().count() <= 30, "line exceeds width (30): {line:?} in:\n{text}");
    }
    assert!(text.contains("An extremely"), "title start missing in:\n{text}");
    assert!(text.contains("maximum width"), "title end missing in:\n{text}");
}

#[test]
fn note_human_fit_shrinks_to_content_not_padded() {
    let text = render_note_human(&raw(), TableWidth::Fit(200), false, &colors(0));
    let widest = text.lines().map(|line| line.chars().count()).max().unwrap();
    assert!(widest < 100, "Fit should adapt to content, not pad to 200; widest was {widest} in:\n{text}");
}

#[test]
fn note_human_fit_caps_over_wide_content() {
    let n = note("An extremely long note title that clearly exceeds any small width", "p.md", &[], vec![], "ok\n");
    let text = render_note_human(&n, TableWidth::Fit(30), false, &colors(0));
    for line in text.lines() {
        assert!(line.chars().count() <= 30, "line exceeds bound (30): {line:?} in:\n{text}");
    }
}

#[test]
fn note_human_fixed_colored_table_by_visible_width() {
    let n = note(
        "An extremely long note title that clearly exceeds the configured maximum width",
        "p.md",
        &["feature", "backend"],
        vec![],
        "ok\n",
    );
    let text = render_note_human(&n, TableWidth::Fixed(40), true, &colors(2));
    assert!(text.contains('\x1b'), "expected ANSI in colored output:\n{text}");
    for line in text.lines() {
        assert!(visible_width(line) <= 40, "visible width exceeds width (40): {:?} in:\n{text}", line);
    }
}

#[test]
fn note_human_shows_times_in_rfc2822() {
    let text = render_note_human(&raw(), TableWidth::Fit(80), false, &colors(0));
    assert!(text.contains("Tue, 2 Jun 2026 10:00:00 +0100"), "in:\n{text}");
    assert!(text.contains("Tue, 2 Jun 2026 10:00:02 +0100"), "in:\n{text}");
}

#[test]
fn list_human_has_a_row_per_note_under_the_header() {
    let text = render_list_human(&[raw(), raw_labels()], 3, false, &colors(4));
    for header in ["path", "title", "labels", "updated"] {
        assert!(text.contains(header), "missing {header} in:\n{text}");
    }
    assert!(text.contains("My new note") && text.contains("A note"), "in:\n{text}");
}

#[test]
fn tiny_and_zero_widths_still_draw() {
    for width in [0usize, 1, 2, 3, 5, 8] {
        for color in [false, true] {
            let fixed = render_note_human(&raw_labels(), TableWidth::Fixed(width), color, &colors(4));
            let fit = render_note_human(&raw_labels(), TableWidth::Fit(width), color, &colors(4));
            assert!(fixed.contains("\n\n") && fit.contains("\n\n"));
        }
    }
}

#[test]
fn wide_characters_and_chips_wrap_without_breaking() {
    let n = note("Ünïcödé 日本語のタイトル — with emoji 🎉🎉 and more words", "p.md", &["déjà-vu", "日本"], vec![], "ok\n");
    for width in [4usize, 7, 10, 13, 20] {
        let text = render_note_human(&n, TableWidth::Fixed(width), true, &colors(2));
        assert!(text.contains("ok"));
    }
}
