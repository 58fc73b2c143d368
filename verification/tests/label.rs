use noki::label::{render_label, render_labels, LabelColor, LabelPalette, Rgb};

fn color(n: u8) -> LabelColor {
    LabelColor { background: Rgb { r: n, g: n, b: n }, foreground: Rgb { r: 255 - n, g: 255 - n, b: 255 - n } }
}

fn colors(n: usize) -> Vec<LabelColor> {
    (0..n).map(|i| color(i as u8)).collect()
}

fn strings(items: &[&str]) -> Vec<String> {
    items.iter().map(|s| s.to_string()).collect()
}

#[test]
fn render_label_wraps_padded_text_in_color_codes() {
    let color = LabelColor { background: Rgb { r: 10, g: 20, b: 30 }, foreground: Rgb { r: 200, g: 210, b: 220 } };
    let chip = render_label("feature", color);
    assert!(chip.contains(" feature "), "expected padded text in: {chip:?}");
    assert!(chip.contains("\x1b[48;2;10;20;30m"), "missing background: {chip:?}");
    assert!(chip.contains("\x1b[38;2;200;210;220m"), "missing foreground: {chip:?}");
    assert!(chip.ends_with("\x1b[0m"), "missing reset: {chip:?}");
}

#[test]
fn render_label_is_exact() {
    let color = LabelColor { background: Rgb { r: 0, g: 9, b: 255 }, foreground: Rgb { r: 100, g: 1, b: 99 } };
    assert_eq!(render_label("x", color), "\x1b[38;2;100;1;99m\x1b[48;2;0;9;255m x \x1b[0m");
}

#[test]
fn palette_reuses_index_for_repeated_label() {
    let mut palette = LabelPalette::new();
    let first = palette.index_for("backend");
    let _other = palette.index_for("frontend");
    let again = palette.index_for("backend");
    assert_eq!(first, again);
}

#[test]
fn palette_assigns_indices_in_first_seen_order() {
    let mut palette = LabelPalette::new();
    assert_eq!(palette.index_for("a"), 0);
    assert_eq!(palette.index_for("b"), 1);
    assert_eq!(palette.index_for("a"), 0);
    assert_eq!(palette.index_for("c"), 2);
}

#[test]
fn render_labels_empty_is_blank() {
    let mut palette = LabelPalette::new();
    assert_eq!(render_labels(&[], 3, &mut palette, true, &colors(3)), "");
    assert_eq!(render_labels(&[], 3, &mut palette, false, &colors(3)), "");
}

#[test]
fn render_labels_under_limit_shows_all_without_overflow() {
    let mut palette = LabelPalette::new();
    let labels = strings(&["feature", "backend"]);
    let out = render_labels(&labels, 3, &mut palette, true, &colors(2));
    assert!(out.contains(" feature "), "missing feature in: {out:?}");
    assert!(out.contains(" backend "), "missing backend in: {out:?}");
    assert!(!out.contains("more"), "unexpected overflow in: {out:?}");
}

#[test]
fn render_labels_over_limit_truncates_with_overflow_marker() {
    let mut palette = LabelPalette::new();
    let labels = strings(&["a", "b", "c", "d", "e"]);
    let out = render_labels(&labels, 3, &mut palette, true, &colors(3));
    assert!(out.contains(" a "), "missing first label in: {out:?}");
    assert!(out.contains("+2 more"), "missing overflow marker in: {out:?}");
    assert!(!out.contains(" d "), "hidden label leaked in: {out:?}");
}

#[test]
fn render_labels_plain_is_comma_separated() {
    let mut palette = LabelPalette::new();
    let labels = strings(&["feature", "priority::high", "backend", "x", "y", "z"]);
    let out = render_labels(&labels, 3, &mut palette, false, &colors(3));
    assert_eq!(out, "feature, priority::high, backend, +3 more");
    assert!(!out.contains('\x1b'));
}

#[test]
fn render_labels_colored_chips_are_space_separated() {
    let mut palette = LabelPalette::new();
    let labels = strings(&["a", "b", "a"]);
    let table = colors(3);
    let out = render_labels(&labels, 5, &mut palette, true, &table);
    let expected = format!("{} {} {}", render_label("a", table[0]), render_label("b", table[1]), render_label("a", table[0]));
    assert_eq!(out, expected);
}

#[test]
fn shared_palette_keeps_colors_across_notes() {
    let mut palette = LabelPalette::new();
    let table = colors(4);
    let first = render_labels(&strings(&["x", "y"]), 5, &mut palette, true, &table);
    let second = render_labels(&strings(&["y", "z"]), 5, &mut palette, true, &table);
    assert_eq!(first, format!("{} {}", render_label("x", table[0]), render_label("y", table[1])));
    assert_eq!(second, format!("{} {}", render_label("y", table[1]), render_label("z", table[2])));
}

#[test]
fn zero_visible_shows_only_the_marker() {
    let mut palette = LabelPalette::new();
    assert_eq!(render_labels(&strings(&["a", "b"]), 0, &mut palette, true, &colors(1)), "+2 more");
}
