//! Notes: their metadata model, the frontmatter framing of the on-disk form,
//! and the rules that derive a note's path and title.
use vstd::prelude::*;
use crate::config::{ConfigEntry, ConfigValue};
use crate::md::{MdNode, MdKind, parse_markdown, spec_parse_markdown};
use crate::template::{Binding, BindingModel, Field, FieldModel, Sanitize, TemplateError, TemplateErrorModel, bindings_model, dates_valid, render, render_spec};
use crate::text::{
    chars_of, string_of, extend_chars, extend_str, sub_vec, find_chars, trim, trim_bounds, join,
    first_occurrence, occurs_at, absent_before, starts_with, lemma_first_occurrence_unique,
};
use crate::timestamp::Timestamp;
use crate::render::inline::{
    SpanModel, Style, collect_spec, nl_to_space, node_spans, texts, with_bold, with_code, with_italic, with_link, with_strike,
};

verus! {

/// The default filename template for a new note.
pub const DEFAULT_FILENAME: &'static str = "{created:%Y/%m/%d/%H:%M:%S}-{title}";
/// The default filename template for a daily note.
pub const DEFAULT_DAILY_FILENAME: &'static str = "{created:%Y/%m/%d}";
/// The default title template for a daily note.
pub const DEFAULT_DAILY_TITLE: &'static str = "Daily note for {created:%Y-%m-%d}";
/// The default label every daily note carries.
pub const DEFAULT_DAILY_LABEL: &'static str = "daily";

/// A frontmatter value beyond the built-in fields.
#[derive(Clone, Debug)]
pub enum MetaValue {
    /// A string.
    Text(String),
    /// Any other value, as its YAML serialization.
    Yaml(String),
}

/// One extra frontmatter entry.
#[derive(Clone, Debug)]
pub struct MetaEntry {
    pub key: String,
    pub value: MetaValue,
}

/// A note's frontmatter.
#[derive(Clone, Debug)]
pub struct Meta {
    pub title: String,
    pub path: String,
    pub labels: Vec<String>,
    pub created: Timestamp,
    pub updated: Timestamp,
    /// Further keys, each at most once.
    pub extra: Vec<MetaEntry>,
}

/// No extra frontmatter key occurs twice: the extra keys form a map.
pub open spec fn extra_keys_unique(extra: Seq<MetaEntry>) -> bool {
    forall|i: int, j: int| 0 <= i < j < extra.len() ==> #[trigger] extra[i].key@ != #[trigger] extra[j].key@
}

impl Meta {
    /// A well-formed frontmatter: its extra keys are distinct.
    pub open spec fn wf(self) -> bool {
        extra_keys_unique(self.extra@)
    }
}

/// A note: frontmatter and Markdown body.
#[derive(Clone, Debug)]
pub struct Note {
    pub meta: Meta,
    pub content: String,
}

/// Which frontmatter syntax a note uses.
#[derive(Clone, Copy, Debug, PartialEq, Eq, Structural)]
pub enum FrontmatterFormat {
    /// `---` fenced YAML.
    Yaml,
    /// `+++` fenced TOML.
    Toml,
}

/// A raw note split into its frontmatter text and body.
#[derive(Debug)]
pub struct Frontmatter {
    pub format: FrontmatterFormat,
    pub header: String,
    pub body: String,
}

/// Why a raw note could not be read.
#[derive(Clone, Copy, Debug, PartialEq, Eq, Structural)]
pub enum NoteError {
    /// It does not start with a frontmatter fence.
    MissingFrontmatter,
    /// The frontmatter has no closing fence.
    Unterminated,
    /// The frontmatter is not valid for its syntax.
    InvalidFrontmatter,
}

pub open spec fn note_error_message(e: NoteError) -> Seq<char> {
    match e {
        NoteError::MissingFrontmatter => "Note is missing frontmatter"@,
        NoteError::Unterminated => "Note frontmatter is not terminated"@,
        NoteError::InvalidFrontmatter => "Invalid note frontmatter"@,
    }
}

impl NoteError {
    /// The human-readable description of the error.
    pub fn message(&self) -> (r: String)
        ensures
            r@ == note_error_message(*self),
    {
        let s = match self {
            NoteError::MissingFrontmatter => "Note is missing frontmatter",
            NoteError::Unterminated => "Note frontmatter is not terminated",
            NoteError::InvalidFrontmatter => "Invalid note frontmatter",
        };
        string_of(chars_of(s).as_slice())
    }
}

/// The framing of a raw note: an opening fence (`---\n` or `+++\n`), the
/// header up to the first closing fence (`\n---\n` or `\n+++\n`), then the
/// body, without the single blank line that separates it.
#[verifier::opaque]
pub open spec fn split_frontmatter_spec(raw: Seq<char>) -> Result<(FrontmatterFormat, Seq<char>, Seq<char>), NoteError> {
    let (format, open, close) = if starts_with(raw, "---\n"@) {
        (FrontmatterFormat::Yaml, "---\n"@, "\n---\n"@)
    } else {
        (FrontmatterFormat::Toml, "+++\n"@, "\n+++\n"@)
    };
    if !starts_with(raw, open) {
        Err(NoteError::MissingFrontmatter)
    } else {
        let body = raw.skip(4);
        match first_occurrence(body, close) {
            None => Err(NoteError::Unterminated),
            Some(m) => {
                let content = body.skip(m + 5);
                let content = if content.len() > 0 && content[0] == '\n' { content.skip(1) } else { content };
                Ok((format, body.take(m), content))
            },
        }
    }
}

/// Split a raw note (`---` YAML or `+++` TOML frontmatter followed by a
/// Markdown body) into its frontmatter text and body.
#[verifier::spinoff_prover]
pub fn split_frontmatter(raw: &str) -> (r: Result<Frontmatter, NoteError>)
    ensures
        match r {
            Ok(f) => split_frontmatter_spec(raw@) == Ok::<(FrontmatterFormat, Seq<char>, Seq<char>), NoteError>((f.format, f.header@, f.body@)),
            Err(e) => split_frontmatter_spec(raw@) == Err::<(FrontmatterFormat, Seq<char>, Seq<char>), NoteError>(e),
        },
{
    proof {
        reveal(split_frontmatter_spec);
        reveal_strlit("---\n");
        reveal_strlit("+++\n");
        reveal_strlit("\n---\n");
        reveal_strlit("\n+++\n");
    }
    let v = chars_of(raw);
    let yaml_open = chars_of("---\n");
    let toml_open = chars_of("+++\n");
    let (format, close) = if v.len() >= 4 && crate::text::occurs_at_exec(&v, &yaml_open, 0) {
        (FrontmatterFormat::Yaml, chars_of("\n---\n"))
    } else if v.len() >= 4 && crate::text::occurs_at_exec(&v, &toml_open, 0) {
        (FrontmatterFormat::Toml, chars_of("\n+++\n"))
    } else {
        proof {
            if v@.len() >= 4 {
                assert(v@.subrange(0, 4) =~= v@.take(4));
            }
        }
        return Err(NoteError::MissingFrontmatter);
    };
    proof {
        assert(v@.subrange(0, 4) =~= v@.take(4));
    }
    let body = sub_vec(&v, 4, v.len());
    proof {
        assert(body@ =~= v@.skip(4));
    }
    match find_chars(&body, &close) {
        None => Err(NoteError::Unterminated),
        Some(m) => {
            let header = sub_vec(&body, 0, m);
            let start = if m + 5 < body.len() && body[m + 5] == '\n' { m + 6 } else { m + 5 };
            let content = sub_vec(&body, start, body.len());
            proof {
                assert(header@ =~= body@.take(m as int));
                let c0 = body@.skip(m + 5);
                if m + 5 < body@.len() && body@[m + 5] == '\n' {
                    assert(c0[0] == '\n');
                    assert(content@ =~= c0.skip(1));
                } else {
                    assert(content@ =~= c0);
                }
            }
            Ok(Frontmatter { format, header: string_of(header.as_slice()), body: string_of(content.as_slice()) })
        },
    }
}

/// The on-disk form of a note whose frontmatter serializes to `yaml`.
pub open spec fn assemble_raw_spec(yaml: Seq<char>, content: Seq<char>) -> Seq<char> {
    "---\n"@ + yaml + "---\n\n"@ + content
}

/// Frame serialized YAML frontmatter and a body into a raw note:
/// `---\n{yaml}---\n\n{content}`.
pub fn assemble_raw(yaml: &str, content: &str) -> (r: String)
    ensures
        r@ == assemble_raw_spec(yaml@, content@),
{
    let mut out: Vec<char> = Vec::new();
    extend_str(&mut out, "---\n");
    extend_str(&mut out, yaml);
    extend_str(&mut out, "---\n\n");
    extend_str(&mut out, content);
    string_of(out.as_slice())
}

/// Framing a note and splitting it again gives back its frontmatter text
/// (without the newline that ends the serialized YAML) and its body, as long
/// as the YAML does not itself hold a closing fence.
#[verifier::spinoff_prover]
#[verifier::rlimit(40)]
pub proof fn law_frontmatter_round_trip(yaml: Seq<char>, content: Seq<char>)
    requires
        yaml.len() > 0,
        yaml.last() == '\n',
        absent_before(yaml + "---\n"@, "\n---\n"@, yaml.len() - 1),
    ensures
        split_frontmatter_spec(assemble_raw_spec(yaml, content))
            == Ok::<(FrontmatterFormat, Seq<char>, Seq<char>), NoteError>((FrontmatterFormat::Yaml, yaml.drop_last(), content)),
{
    let raw = assemble_raw_spec(yaml, content);
    let body = yaml + "---\n\n"@ + content;
    lemma_raw_parts(yaml, content);
    lemma_close_found(yaml, content);
    let m = yaml.len() - 1;
    assert(body.take(m) =~= yaml.drop_last());
    lemma_after_close(yaml, content);
    lemma_split_yaml(raw, m);
}

/// How `split_frontmatter_spec` reads a YAML-fenced note whose closing fence
/// is first found at `m`.
proof fn lemma_split_yaml(raw: Seq<char>, m: int)
    requires
        starts_with(raw, "---\n"@),
        first_occurrence(raw.skip(4), "\n---\n"@) == Some(m),
    ensures
        split_frontmatter_spec(raw) == Ok::<(FrontmatterFormat, Seq<char>, Seq<char>), NoteError>((
            FrontmatterFormat::Yaml,
            raw.skip(4).take(m),
            if raw.skip(4).skip(m + 5).len() > 0 && raw.skip(4).skip(m + 5)[0] == '\n' {
                raw.skip(4).skip(m + 5).skip(1)
            } else {
                raw.skip(4).skip(m + 5)
            },
        )),
{
    reveal(split_frontmatter_spec);
}

proof fn lemma_raw_parts(yaml: Seq<char>, content: Seq<char>)
    ensures
        starts_with(assemble_raw_spec(yaml, content), "---\n"@),
        assemble_raw_spec(yaml, content).skip(4) == yaml + "---\n\n"@ + content,
{
    reveal_strlit("---\n");
    let raw = assemble_raw_spec(yaml, content);
    assert(raw.take(4) =~= "---\n"@);
    assert(raw.skip(4) =~= yaml + "---\n\n"@ + content);
}

proof fn lemma_close_found(yaml: Seq<char>, content: Seq<char>)
    requires
        yaml.len() > 0,
        yaml.last() == '\n',
        absent_before(yaml + "---\n"@, "\n---\n"@, yaml.len() - 1),
    ensures
        first_occurrence(yaml + "---\n\n"@ + content, "\n---\n"@) == Some(yaml.len() - 1),
{
    reveal_strlit("---\n");
    reveal_strlit("\n---\n");
    reveal_strlit("---\n\n");
    let body = yaml + "---\n\n"@ + content;
    let close = "\n---\n"@;
    let pre = yaml + "---\n"@;
    let m = yaml.len() - 1;
    assert(body.subrange(m, m + 5) =~= close);
    assert forall|k: int| 0 <= k < m implies !#[trigger] occurs_at(body, close, k) by {
        assert(!occurs_at(pre, close, k));
        assert(body.subrange(k, k + 5) =~= pre.subrange(k, k + 5));
    }
    lemma_first_occurrence_unique(body, close, m);
}

proof fn lemma_after_close(yaml: Seq<char>, content: Seq<char>)
    requires
        yaml.len() > 0,
    ensures
        (yaml + "---\n\n"@ + content).skip(yaml.len() - 1 + 5).len() > 0,
        (yaml + "---\n\n"@ + content).skip(yaml.len() - 1 + 5)[0] == '\n',
        (yaml + "---\n\n"@ + content).skip(yaml.len() - 1 + 5).skip(1) == content,
{
    reveal_strlit("---\n\n");
    let body = yaml + "---\n\n"@ + content;
    assert(body.skip(yaml.len() - 1 + 5) =~= seq!['\n'] + content);
    assert(body.skip(yaml.len() - 1 + 5).skip(1) =~= content);
}

/// How a config meta value reads in a template: a string as is, anything
/// else in its TOML rendering.
pub open spec fn meta_value_string(v: ConfigValue) -> Seq<char> {
    match v {
        ConfigValue::Text(s) => s@,
        ConfigValue::Other { toml, yaml } => toml@,
    }
}

/// How an extra frontmatter value is shown in a table cell: a string as is,
/// anything else as its trimmed YAML.
pub open spec fn meta_value_display_spec(v: MetaValue) -> Seq<char> {
    match v {
        MetaValue::Text(s) => s@,
        MetaValue::Yaml(y) => trim(y@),
    }
}

/// Render a frontmatter value as a table cell.
pub fn meta_value_display(value: &MetaValue) -> (r: String)
    ensures
        r@ == meta_value_display_spec(*value),
{
    match value {
        MetaValue::Text(s) => string_of(chars_of(s.as_str()).as_slice()),
        MetaValue::Yaml(y) => crate::text::trim_str(y.as_str()),
    }
}

fn copy_string(s: &String) -> (r: String)
    ensures
        r@ == s@,
{
    string_of(chars_of(s.as_str()).as_slice())
}

/// The static config meta as template bindings.
pub open spec fn meta_bindings(meta: Seq<ConfigEntry>) -> Seq<BindingModel> {
    meta.map_values(|e: ConfigEntry| BindingModel { name: e.key@, value: FieldModel::Text(meta_value_string(e.value)) })
}

fn push_meta_bindings(out: &mut Vec<Binding>, meta: &Vec<ConfigEntry>)
    ensures
        bindings_model(final(out)@) == bindings_model(old(out)@) + meta_bindings(meta@),
{
    let ghost start = bindings_model(out@);
    let mut i: usize = 0;
    while i < meta.len()
        invariant
            i <= meta@.len(),
            bindings_model(out@) == start + meta_bindings(meta@.take(i as int)),
        decreases meta.len() - i,
    {
        let e = &meta[i];
        let text = match &e.value {
            ConfigValue::Text(s) => copy_string(s),
            ConfigValue::Other { toml, yaml } => copy_string(toml),
        };
        let ghost prev = out@;
        out.push(Binding { name: copy_string(&e.key), value: Field::Text(text) });
        proof {
            assert(out@ =~= prev.push(out@.last()));
            assert(bindings_model(out@) =~= bindings_model(prev).push(out@.last()@));
            assert(meta@.take(i + 1) =~= meta@.take(i as int).push(meta@[i as int]));
            assert(bindings_model(out@) =~= start + meta_bindings(meta@.take(i + 1)));
        }
        i = i + 1;
    }
    assert(meta@.take(meta@.len() as int) =~= meta@);
}

fn text_binding(name: &str, value: String) -> (b: Binding)
    ensures
        b@ == (BindingModel { name: name@, value: FieldModel::Text(value@) }),
{
    Binding { name: string_of(chars_of(name).as_slice()), value: Field::Text(value) }
}

fn date_binding(name: &str, when: Timestamp) -> (b: Binding)
    ensures
        b@ == (BindingModel { name: name@, value: FieldModel::Date(when) }),
{
    Binding { name: string_of(chars_of(name).as_slice()), value: Field::Date(when) }
}

/// The fields a note path resolves: its title and labels (joined by
/// spaces), both timestamps, then the static config meta.
pub open spec fn path_bindings(title: Seq<char>, labels: Seq<Seq<char>>, meta: Seq<ConfigEntry>, when: Timestamp) -> Seq<BindingModel> {
    seq![
        BindingModel { name: "title"@, value: FieldModel::Text(title) },
        BindingModel { name: "created"@, value: FieldModel::Date(when) },
        BindingModel { name: "updated"@, value: FieldModel::Date(when) },
        BindingModel { name: "labels"@, value: FieldModel::Text(join(labels, " "@)) },
    ] + meta_bindings(meta)
}

proof fn lemma_bindings_dates_valid(head: Seq<BindingModel>, meta: Seq<ConfigEntry>)
    requires
        dates_valid(head),
    ensures
        dates_valid(head + meta_bindings(meta)),
{
    let all = head + meta_bindings(meta);
    assert forall|i: int| 0 <= i < all.len() implies (#[trigger] all[i].value matches FieldModel::Date(w) ==> w.valid()) by {
        if i < head.len() {
            assert(all[i] == head[i]);
        } else {
            assert(all[i] == meta_bindings(meta)[i - head.len()]);
        }
    }
}

/// The note path a template renders to: the slugified template plus `.md`.
pub open spec fn note_path_spec(template: Seq<char>, title: Seq<char>, labels: Seq<Seq<char>>, meta: Seq<ConfigEntry>, when: Timestamp) -> Result<Seq<char>, TemplateErrorModel> {
    match render_spec(template, path_bindings(title, labels, meta, when), Sanitize::Slug) {
        Ok(s) => Ok(s + ".md"@),
        Err(e) => Err(e),
    }
}

pub open spec fn strings_model(v: Seq<String>) -> Seq<Seq<char>> {
    v.map_values(|s: String| s@)
}

/// Join strings with a separator.
pub fn join_strings(parts: &[String], sep: &str) -> (r: String)
    ensures
        r@ == join(strings_model(parts@), sep@),
{
    let ghost pm = strings_model(parts@);
    let mut out: Vec<char> = Vec::new();
    let mut i: usize = 0;
    while i < parts.len()
        invariant
            i <= parts@.len(),
            pm == strings_model(parts@),
            out@ == join(pm.take(i as int), sep@),
        decreases parts.len() - i,
    {
        if i > 0 {
            extend_str(&mut out, sep);
        }
        extend_str(&mut out, parts[i].as_str());
        proof {
            let t = pm.take(i + 1);
            assert(t.drop_last() =~= pm.take(i as int));
            assert(t.last() == parts@[i as int]@);
            if i == 0 {
                assert(t.len() == 1);
                assert(out@ =~= t[0]);
            }
        }
        i = i + 1;
    }
    assert(pm.take(parts@.len() as int) =~= pm);
    string_of(out.as_slice())
}

/// Render a relative note path from a flat template (`{field}` /
/// `{field:fmt}`) against the note's `title`, `labels`, static config `meta`,
/// and timestamp `when`; the `.md` extension is appended. Errors on an
/// invalid template.
pub fn note_path(template: &str, title: &str, labels: &[String], meta: &Vec<ConfigEntry>, when: Timestamp) -> (r: Result<String, TemplateError>)
    requires
        Timestamp::valid(when),
    ensures
        match r {
            Ok(s) => note_path_spec(template@, title@, strings_model(labels@), meta@, when) == Ok::<Seq<char>, TemplateErrorModel>(s@),
            Err(e) => note_path_spec(template@, title@, strings_model(labels@), meta@, when) == Err::<Seq<char>, TemplateErrorModel>(e@),
        },
{
    let mut fields: Vec<Binding> = Vec::new();
    fields.push(text_binding("title", string_of(chars_of(title).as_slice())));
    fields.push(date_binding("created", when));
    fields.push(date_binding("updated", when));
    fields.push(text_binding("labels", join_strings(labels, " ")));
    let ghost head = bindings_model(fields@);
    proof {
        assert(head =~= path_bindings(title@, strings_model(labels@), meta@, when).take(4));
    }
    push_meta_bindings(&mut fields, meta);
    proof {
        assert(bindings_model(fields@) =~= path_bindings(title@, strings_model(labels@), meta@, when));
        assert(dates_valid(head));
        lemma_bindings_dates_valid(head, meta@);
    }
    match render(template, fields.as_slice(), Sanitize::Slug) {
        Ok(s) => {
            let mut v = chars_of(s.as_str());
            extend_str(&mut v, ".md");
            Ok(string_of(v.as_slice()))
        },
        Err(e) => Err(e),
    }
}

/// The fields a title resolves: both timestamps, then the static config
/// meta (the path-only `{title}` and `{labels}` are not among them).
pub open spec fn title_bindings(meta: Seq<ConfigEntry>, when: Timestamp) -> Seq<BindingModel> {
    seq![
        BindingModel { name: "created"@, value: FieldModel::Date(when) },
        BindingModel { name: "updated"@, value: FieldModel::Date(when) },
    ] + meta_bindings(meta)
}

/// Render a human title from a template: `{created}`/`{updated}` and meta
/// keys resolve, and text is kept verbatim (not slugified).
pub fn render_title(template: &str, meta: &Vec<ConfigEntry>, when: Timestamp) -> (r: Result<String, TemplateError>)
    requires
        Timestamp::valid(when),
    ensures
        match r {
            Ok(s) => render_spec(template@, title_bindings(meta@, when), Sanitize::Raw) == Ok::<Seq<char>, TemplateErrorModel>(s@),
            Err(e) => render_spec(template@, title_bindings(meta@, when), Sanitize::Raw) == Err::<Seq<char>, TemplateErrorModel>(e@),
        },
{
    let mut fields: Vec<Binding> = Vec::new();
    fields.push(date_binding("created", when));
    fields.push(date_binding("updated", when));
    let ghost head = bindings_model(fields@);
    push_meta_bindings(&mut fields, meta);
    proof {
        assert(bindings_model(fields@) =~= title_bindings(meta@, when));
        assert(dates_valid(head));
        lemma_bindings_dates_valid(head, meta@);
    }
    render(template, fields.as_slice(), Sanitize::Raw)
}

/// The concatenated plain text of inline nodes, with markup stripped.
pub open spec fn inline_text_node(n: MdNode) -> Seq<char>
    decreases n, 1nat,
{
    match n.kind {
        MdKind::Text { value } => value@,
        MdKind::InlineCode { value } => value@,
        _ => inline_text(n.children@),
    }
}

pub open spec fn inline_text(ns: Seq<MdNode>) -> Seq<char>
    decreases ns, 0nat,
{
    if ns.len() == 0 {
        seq![]
    } else {
        inline_text(ns.subrange(0, ns.len() - 1)) + inline_text_node(ns[ns.len() - 1])
    }
}

/// Inline content made only of text, code and markup that merely styles its
/// children (emphasis, strong, strikethrough, link references and the
/// like): no link, image, hard break, HTML or footnote reference, which the
/// renderer shows with text of its own.
pub open spec fn markup_only(n: MdNode) -> bool
    decreases n, 1nat,
{
    match n.kind {
        MdKind::Text { value } => true,
        MdKind::InlineCode { value } => true,
        MdKind::Link { url } => false,
        MdKind::Image { alt } => false,
        MdKind::ImageReference { alt } => false,
        MdKind::Break => false,
        MdKind::Html { value } => false,
        MdKind::FootnoteReference { label, identifier } => false,
        _ => markup_only_nodes(n.children@),
    }
}

/// Every node of the run is [`markup_only`].
pub open spec fn markup_only_nodes(ns: Seq<MdNode>) -> bool
    decreases ns, 0nat,
{
    if ns.len() == 0 {
        true
    } else {
        markup_only_nodes(ns.subrange(0, ns.len() - 1)) && markup_only(ns[ns.len() - 1])
    }
}

proof fn lemma_texts_cat(a: Seq<SpanModel>, b: Seq<SpanModel>)
    ensures
        texts(a + b) == texts(a) + texts(b),
    decreases b.len(),
{
    if b.len() == 0 {
        assert(a + b =~= a);
        assert(texts(a) + texts(b) =~= texts(a));
    } else {
        lemma_texts_cat(a, b.drop_last());
        assert((a + b).drop_last() =~= a + b.drop_last());
        assert(texts(a) + texts(b.drop_last()) + b.last().text =~= texts(a) + (texts(b.drop_last()) + b.last().text));
    }
}

proof fn lemma_plain_text_node(n: MdNode, base: Style)
    requires
        markup_only(n),
    ensures
        nl_to_space(inline_text_node(n)) == texts(node_spans(n, base)),
    decreases n, 1nat,
{
    match n.kind {
        MdKind::Text { value } => {
            let sp = seq![SpanModel { text: nl_to_space(value@), style: base }];
            assert(sp.drop_last() =~= Seq::<SpanModel>::empty());
            assert(texts(Seq::<SpanModel>::empty()) == Seq::<char>::empty());
            assert(texts(sp) =~= nl_to_space(value@));
        },
        MdKind::InlineCode { value } => {
            let sp = seq![SpanModel { text: nl_to_space(value@), style: with_code(base) }];
            assert(sp.drop_last() =~= Seq::<SpanModel>::empty());
            assert(texts(Seq::<SpanModel>::empty()) == Seq::<char>::empty());
            assert(texts(sp) =~= nl_to_space(value@));
        },
        MdKind::Emphasis => lemma_plain_text(n.children@, with_italic(base)),
        MdKind::Strong => lemma_plain_text(n.children@, with_bold(base)),
        MdKind::Delete => lemma_plain_text(n.children@, with_strike(base)),
        MdKind::LinkReference => lemma_plain_text(n.children@, with_link(base)),
        MdKind::Link { url } => {},
        MdKind::Image { alt } => {},
        MdKind::ImageReference { alt } => {},
        MdKind::Break => {},
        MdKind::Html { value } => {},
        MdKind::FootnoteReference { label, identifier } => {},
        _ => lemma_plain_text(n.children@, base),
    }
}

proof fn lemma_plain_text(ns: Seq<MdNode>, base: Style)
    requires
        markup_only_nodes(ns),
    ensures
        nl_to_space(inline_text(ns)) == texts(collect_spec(ns, base)),
    decreases ns, 0nat,
{
    if ns.len() == 0 {
        assert(nl_to_space(Seq::<char>::empty()) =~= Seq::<char>::empty());
    } else {
        let prev = ns.subrange(0, ns.len() - 1);
        let last = ns[ns.len() - 1];
        lemma_plain_text(prev, base);
        lemma_plain_text_node(last, base);
        lemma_texts_cat(collect_spec(prev, base), node_spans(last, base));
        assert(nl_to_space(inline_text(prev) + inline_text_node(last)) =~= nl_to_space(inline_text(prev)) + nl_to_space(inline_text_node(last)));
    }
}

/// A title keeps all the words of its heading and only drops the markup:
/// for inline content made only of text, code and styling markup, the plain
/// text (newlines read as spaces) is exactly the text the renderer shows
/// for it, span by span.
pub proof fn law_plain_text_is_rendered_text(ns: Seq<MdNode>, base: Style)
    requires
        markup_only_nodes(ns),
    ensures
        nl_to_space(inline_text(ns)) == texts(collect_spec(ns, base)),
{
    lemma_plain_text(ns, base);
}

fn inline_text_node_exec(n: &MdNode, out: &mut Vec<char>)
    ensures
        final(out)@ == old(out)@ + inline_text_node(*n),
    decreases *n, 1nat,
{
    match &n.kind {
        MdKind::Text { value } => extend_str(out, value.as_str()),
        MdKind::InlineCode { value } => extend_str(out, value.as_str()),
        _ => inline_text_exec(&n.children, out),
    }
}

fn inline_text_exec(ns: &Vec<MdNode>, out: &mut Vec<char>)
    ensures
        final(out)@ == old(out)@ + inline_text(ns@),
    decreases ns@, 0nat,
{
    let ghost start = out@;
    let mut i: usize = 0;
    while i < ns.len()
        invariant
            i <= ns@.len(),
            out@ == start + inline_text(ns@.subrange(0, i as int)),
        decreases ns.len() - i,
    {
        inline_text_node_exec(&ns[i], out);
        proof {
            let sub = ns@.subrange(0, i + 1);
            assert(sub.subrange(0, sub.len() - 1) =~= ns@.subrange(0, i as int));
            assert(sub[sub.len() - 1] == ns@[i as int]);
            assert(out@ =~= start + inline_text(sub));
        }
        i = i + 1;
    }
    assert(ns@.subrange(0, ns@.len() as int) =~= ns@);
}

/// The first line of `s` (all of it when it has no newline).
pub open spec fn first_line(s: Seq<char>) -> Seq<char> {
    match crate::template::first_index_of(s, '\n') {
        Some(i) => s.take(i),
        None => s,
    }
}

/// The title a block offers: a heading's trimmed text, or the trimmed first
/// line of a paragraph's text — when non-empty.
pub open spec fn title_candidate(n: MdNode) -> Option<Seq<char>> {
    match n.kind {
        MdKind::Heading { depth } => {
            let t = trim(inline_text(n.children@));
            if t.len() > 0 { Some(t) } else { None }
        },
        MdKind::Paragraph => {
            let t = trim(first_line(inline_text(n.children@)));
            if t.len() > 0 { Some(t) } else { None }
        },
        _ => None,
    }
}

/// The first title offered by a run of blocks.
pub open spec fn first_title(ns: Seq<MdNode>) -> Option<Seq<char>>
    decreases ns.len(),
{
    if ns.len() == 0 {
        None
    } else {
        match title_candidate(ns[0]) {
            Some(t) => Some(t),
            None => first_title(ns.subrange(1, ns.len() as int)),
        }
    }
}

/// The title derived from note content: the first heading, else the first
/// line of the first paragraph, else `untitled`.
pub open spec fn title_from_content_spec(content: Seq<char>) -> Seq<char> {
    let found = match spec_parse_markdown(content) {
        Some(root) => match root.kind {
            MdKind::Root => first_title(root.children@),
            _ => None,
        },
        None => None,
    };
    match found {
        Some(t) => t,
        None => "untitled"@,
    }
}

fn title_candidate_exec(n: &MdNode) -> (r: Option<Vec<char>>)
    ensures
        match r {
            Some(t) => title_candidate(*n) == Some(t@),
            None => title_candidate(*n) is None,
        },
{
    match &n.kind {
        MdKind::Heading { depth } => {
            let mut text: Vec<char> = Vec::new();
            inline_text_exec(&n.children, &mut text);
            assert(text@ =~= inline_text(n.children@));
            let (a, b) = trim_bounds(&text);
            if a < b {
                Some(sub_vec(&text, a, b))
            } else {
                None
            }
        },
        MdKind::Paragraph => {
            let mut text: Vec<char> = Vec::new();
            inline_text_exec(&n.children, &mut text);
            assert(text@ =~= inline_text(n.children@));
            proof {
                crate::template::lemma_first_index_of(text@, '\n');
            }
            let end = match crate::template::find_char_in(&text, '\n') {
                Some(i) => i,
                None => text.len(),
            };
            let line = sub_vec(&text, 0, end);
            proof {
                crate::template::lemma_first_index_of(text@, '\n');
                assert(line@ =~= first_line(text@));
            }
            let (a, b) = trim_bounds(&line);
            if a < b {
                Some(sub_vec(&line, a, b))
            } else {
                None
            }
        },
        _ => None,
    }
}

/// Derive a human title from the content: the first heading, else the first
/// line of the first paragraph, else "untitled".
pub fn title_from_content(content: &str) -> (r: String)
    ensures
        r@ == title_from_content_spec(content@),
{
    let untitled = string_of(chars_of("untitled").as_slice());
    let parsed = parse_markdown(content);
    let ghost g = parsed;
    let root = match parsed {
        Some(root) => root,
        None => return untitled,
    };
    assert(g == Some(root));
    let is_root = match &root.kind {
        MdKind::Root => true,
        _ => false,
    };
    if !is_root {
        return untitled;
    }
    assert(root.kind is Root);
    let ns = &root.children;
    let mut i: usize = 0;
    proof {
        assert(ns@.subrange(0, ns@.len() as int) =~= ns@);
    }
    while i < ns.len()
        invariant
            i <= ns@.len(),
            spec_parse_markdown(content@) == Some(root),
            root.kind is Root,
            ns@ == root.children@,
            untitled@ == "untitled"@,
            first_title(ns@) == first_title(ns@.subrange(i as int, ns@.len() as int)),
        decreases ns.len() - i,
    {
        let ghost rest = ns@.subrange(i as int, ns@.len() as int);
        proof {
            assert(rest[0] == ns@[i as int]);
            assert(rest.subrange(1, rest.len() as int) =~= ns@.subrange(i + 1, ns@.len() as int));
        }
        match title_candidate_exec(&ns[i]) {
            Some(t) => {
                proof {
                    assert(first_title(ns@) == Some(t@));
                    assert(spec_parse_markdown(content@) == Some(root));
                    assert(title_from_content_spec(content@) == t@);
                }
                return string_of(t.as_slice());
            },
            None => {},
        }
        i = i + 1;
    }
    proof {
        assert(ns@.subrange(i as int, ns@.len() as int) =~= Seq::<MdNode>::empty());
    }
    untitled
}

} // verus!
