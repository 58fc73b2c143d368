use noki::template::{render, Binding, Field, Sanitize, TemplateError, MAX_SLUG_LENGTH};
use noki::timestamp::Timestamp;

fn at(s: &str) -> Timestamp {
    let dt = chrono::DateTime::parse_from_rfc3339(s).unwrap();
    Timestamp { secs: dt.timestamp(), nanos: dt.timestamp_subsec_nanos(), offset: dt.offset().local_minus_utc() }
}

fn text(name: &str, value: &str) -> Binding {
    Binding { name: name.to_string(), value: Field::Text(value.to_string()) }
}

fn date(name: &str, when: Timestamp) -> Binding {
    Binding { name: name.to_string(), value: Field::Date(when) }
}

fn message(err: TemplateError) -> String {
    err.message()
}

#[test]
fn text_field_is_slugified() {
    let out = render("{title}", &[text("title", "My Great Note!")], Sanitize::Slug).unwrap();
    assert_eq!(out, "my-great-note");
}

#[test]
fn date_field_uses_its_format() {
    let when = at("2026-06-02T10:00:00+01:00");
    let out = render("{created:%Y/%m/%d}", &[date("created", when)], Sanitize::Slug).unwrap();
    assert_eq!(out, "2026/06/02");
}

#[test]
fn date_field_defaults_to_iso_date() {
    let when = at("2026-06-02T10:00:00+01:00");
    let out = render("{created}", &[date("created", when)], Sanitize::Slug).unwrap();
    assert_eq!(out, "2026-06-02");
}

#[test]
fn literal_text_and_tokens_combine() {
    let out = render("notes/{title}", &[text("title", "hi there")], Sanitize::Slug).unwrap();
    assert_eq!(out, "notes/hi-there");
}

#[test]
fn braces_can_be_escaped() {
    let out = render("{{literal}}", &[], Sanitize::Slug).unwrap();
    assert_eq!(out, "{literal}");
}

#[test]
fn missing_field_defaults_to_unknown_placeholder() {
    let out = render("{author}", &[], Sanitize::Slug).unwrap();
    assert_eq!(out, "unknown-author");
}

#[test]
fn empty_value_defaults_to_unknown_placeholder() {
    // An empty (or unslugifiable) value must not leave an empty path segment.
    let out = render("{labels}", &[text("labels", "")], Sanitize::Slug).unwrap();
    assert_eq!(out, "unknown-labels");
}

#[test]
fn overlong_slug_cuts_exactly_on_a_word_boundary() {
    // "sentence" slugs to 8 chars; n words join to 9n-1 chars, so 9 words
    // is exactly 80 — the boundary sits precisely at the cap.
    let value = "sentence ".repeat(20);
    let out = render("{title}", &[text("title", &value)], Sanitize::Slug).unwrap();
    let nine_words = ["sentence"; 9].join("-");
    assert_eq!(out, nine_words);
    assert_eq!(out.len(), 80);
}

#[test]
fn overlong_slug_floors_to_the_last_whole_word() {
    // "abcdefghij" slugs to 10 chars; 7 words = 76 chars, 8 words = 87.
    let value = "abcdefghij ".repeat(20);
    let out = render("{title}", &[text("title", &value)], Sanitize::Slug).unwrap();
    let seven_words = ["abcdefghij"; 7].join("-");
    assert_eq!(out, seven_words);
    assert!(!out.ends_with('-'));
}

#[test]
fn single_giant_word_is_hard_cut_never_empty() {
    let value = "a".repeat(200);
    let out = render("{title}", &[text("title", &value)], Sanitize::Slug).unwrap();
    assert_eq!(out, "a".repeat(80));
}

#[test]
fn slug_of_exactly_max_length_is_unchanged() {
    let value = "sentence ".repeat(9);
    let out = render("{title}", &[text("title", &value)], Sanitize::Slug).unwrap();
    assert_eq!(out.len(), 80);
    assert_eq!(out, ["sentence"; 9].join("-"));
}

#[test]
fn raw_mode_keeps_text_verbatim() {
    let out = render("Journal by {author}", &[text("author", "Paul van der Meijs")], Sanitize::Raw).unwrap();
    assert_eq!(out, "Journal by Paul van der Meijs");
}

#[test]
fn raw_mode_dates_still_format() {
    let when = at("2026-06-02T10:00:00+01:00");
    let out = render("Daily note for {created:%Y-%m-%d}", &[date("created", when)], Sanitize::Raw).unwrap();
    assert_eq!(out, "Daily note for 2026-06-02");
}

#[test]
fn raw_mode_missing_field_is_unslugified_placeholder() {
    let out = render("by {author}", &[], Sanitize::Raw).unwrap();
    assert_eq!(out, "by unknown-author");
}

#[test]
fn format_on_text_field_is_an_error() {
    let err = render("{title:%Y}", &[text("title", "x")], Sanitize::Slug).unwrap_err();
    let msg = message(err);
    assert!(msg.contains("does not take"), "got: {msg}");
}

#[test]
fn invalid_date_format_is_an_error_not_a_panic() {
    let when = at("2026-06-02T10:00:00+01:00");
    let err = render("{created:%J}", &[date("created", when)], Sanitize::Slug).unwrap_err();
    let msg = message(err);
    assert!(msg.contains("invalid date format"), "got: {msg}");
}

#[test]
fn unterminated_token_is_an_error() {
    let err = render("{title", &[text("title", "x")], Sanitize::Slug).unwrap_err();
    let msg = message(err);
    assert!(msg.contains("unterminated"), "got: {msg}");
}

#[test]
fn error_messages_name_the_offending_part() {
    let err = render("{title:%Y}", &[text("title", "x")], Sanitize::Slug).unwrap_err();
    assert_eq!(err.message(), "template field 'title' does not take a ':format'");
    let when = at("2026-06-02T10:00:00+01:00");
    let err = render("{created:%J}", &[date("created", when)], Sanitize::Slug).unwrap_err();
    assert_eq!(err.message(), "invalid date format '%J' in template");
    let err = render("a{b", &[], Sanitize::Raw).unwrap_err();
    assert_eq!(err.message(), "unterminated '{' in template");
}

#[test]
fn literal_template_renders_verbatim() {
    let out = render("plain/path-without-tokens", &[text("title", "ignored")], Sanitize::Slug).unwrap();
    assert_eq!(out, "plain/path-without-tokens");
}

#[test]
fn first_binding_of_a_name_wins() {
    let out = render("{title}", &[text("title", "First"), text("title", "Second")], Sanitize::Raw).unwrap();
    assert_eq!(out, "First");
}

#[test]
fn slug_cap_is_eighty() {
    assert_eq!(MAX_SLUG_LENGTH, 80);
    let out = render("{title}", &[text("title", &"word ".repeat(40))], Sanitize::Slug).unwrap();
    assert!(out.len() <= MAX_SLUG_LENGTH);
    assert!(!out.ends_with('-'));
}

#[test]
fn date_in_its_own_offset() {
    // 23:30 at -05:00 is already the next day in UTC; the offset's own date is used.
    let when = at("2026-06-02T23:30:00-05:00");
    let out = render("{created:%Y-%m-%d %H:%M}", &[date("created", when)], Sanitize::Raw).unwrap();
    assert_eq!(out, "2026-06-02 23:30");
}

#[test]
fn truncate_slug_floors_to_a_word() {
    let s = |v: Vec<char>| v.into_iter().collect::<String>();
    let c = |t: &str| t.chars().collect::<Vec<char>>();
    assert_eq!(s(noki::template::truncate_slug(c("abc-def-ghi"), 7)), "abc-def");
    assert_eq!(s(noki::template::truncate_slug(c("abc-def"), 7)), "abc-def");
    assert_eq!(s(noki::template::truncate_slug(c("abcdefghij"), 4)), "abcd");
    assert_eq!(s(noki::template::truncate_slug(c("ab-cdefghij"), 5)), "ab");
}

#[test]
fn missing_fields_never_fail_and_the_first_mistake_decides() {
    assert_eq!(render("{nothing}-{{x}}", &[], Sanitize::Raw).unwrap(), "unknown-nothing-{x}");
    let first = render("{title:x} {", &[text("title", "t")], Sanitize::Slug).unwrap_err();
    assert!(matches!(first, TemplateError::FormatOnText { ref name } if name == "title"), "{first:?}");
    let unterminated = render("{title} {", &[text("title", "t")], Sanitize::Raw).unwrap_err();
    assert!(matches!(unterminated, TemplateError::Unterminated), "{unterminated:?}");
}

#[test]
fn a_text_token_never_resolves_empty() {
    let token: Vec<char> = "mood".chars().collect();
    let slug = noki::template::resolve_token(&token, &[text("mood", "!!!")], Sanitize::Slug).unwrap();
    assert_eq!(slug.into_iter().collect::<String>(), "unknown-mood");
    let raw = noki::template::resolve_token(&token, &[text("mood", "")], Sanitize::Raw).unwrap();
    assert_eq!(raw.into_iter().collect::<String>(), "unknown-mood");
    let odd: Vec<char> = "!?".chars().collect();
    let missing = noki::template::resolve_token(&odd, &[], Sanitize::Slug).unwrap();
    assert_eq!(missing.into_iter().collect::<String>(), "unknown");
}
