//! The flat `{field}` / `{field:format}` template engine used for note
//! filenames (slugified) and daily-note titles (verbatim).
use vstd::prelude::*;
use crate::text::{chars_of, string_of, extend_chars, sub_vec, chars_eq};
use crate::timestamp::{Timestamp, format_timestamp, spec_format_timestamp};

verus! {

/// Path-segment slugs are capped so a paragraph-length title cannot exceed
/// the OS filename-component limit (255 bytes on macOS/Linux).
pub const MAX_SLUG_LENGTH: usize = 80;

/// A value a template field resolves to.
#[derive(Debug)]
pub enum Field {
    /// A string; slugified for a path segment or kept verbatim, per [`Sanitize`].
    Text(String),
    /// A timestamp, formatted with the token's `:format` (chrono strftime),
    /// defaulting to `%Y-%m-%d`.
    Date(Timestamp),
}

pub enum FieldModel {
    Text(Seq<char>),
    Date(Timestamp),
}

impl View for Field {
    type V = FieldModel;

    open spec fn view(&self) -> FieldModel {
        match self {
            Field::Text(s) => FieldModel::Text(s@),
            Field::Date(t) => FieldModel::Date(*t),
        }
    }
}

/// A field name together with the value it resolves to.
#[derive(Debug)]
pub struct Binding {
    pub name: String,
    pub value: Field,
}

pub struct BindingModel {
    pub name: Seq<char>,
    pub value: FieldModel,
}

impl View for Binding {
    type V = BindingModel;

    open spec fn view(&self) -> BindingModel {
        BindingModel { name: self.name@, value: self.value@ }
    }
}

pub open spec fn bindings_model(b: Seq<Binding>) -> Seq<BindingModel> {
    b.map_values(|x: Binding| x@)
}

/// Every date bound is one chrono can hold.
pub open spec fn dates_valid(fields: Seq<BindingModel>) -> bool {
    forall|i: int| 0 <= i < fields.len() ==> (#[trigger] fields[i].value matches FieldModel::Date(w) ==> w.valid())
}

/// How a resolved string value is emitted.
#[derive(Clone, Copy, PartialEq, Eq, Structural, Debug)]
pub enum Sanitize {
    /// Slugify into a single path-safe segment (for filenames).
    Slug,
    /// Emit verbatim (for human text like titles).
    Raw,
}

/// A template *syntax* mistake.
#[derive(Debug)]
pub enum TemplateError {
    /// A `{` with no closing `}`.
    Unterminated,
    /// A `:format` on a text field.
    FormatOnText { name: String },
    /// A date format chrono cannot use.
    InvalidDateFormat { format: String },
}

pub enum TemplateErrorModel {
    Unterminated,
    FormatOnText(Seq<char>),
    InvalidDateFormat(Seq<char>),
}

impl View for TemplateError {
    type V = TemplateErrorModel;

    open spec fn view(&self) -> TemplateErrorModel {
        match self {
            TemplateError::Unterminated => TemplateErrorModel::Unterminated,
            TemplateError::FormatOnText { name } => TemplateErrorModel::FormatOnText(name@),
            TemplateError::InvalidDateFormat { format } => TemplateErrorModel::InvalidDateFormat(format@),
        }
    }
}

pub open spec fn error_message(e: TemplateErrorModel) -> Seq<char> {
    match e {
        TemplateErrorModel::Unterminated => "unterminated '{' in template"@,
        TemplateErrorModel::FormatOnText(name) => "template field '"@ + name + "' does not take a ':format'"@,
        TemplateErrorModel::InvalidDateFormat(f) => "invalid date format '"@ + f + "' in template"@,
    }
}

impl TemplateError {
    /// The human-readable description of the error.
    pub fn message(&self) -> (r: String)
        ensures
            r@ == error_message(self@),
    {
        let mut out: Vec<char> = Vec::new();
        match self {
            TemplateError::Unterminated => {
                crate::text::extend_str(&mut out, "unterminated '{' in template");
            },
            TemplateError::FormatOnText { name } => {
                crate::text::extend_str(&mut out, "template field '");
                crate::text::extend_str(&mut out, name.as_str());
                crate::text::extend_str(&mut out, "' does not take a ':format'");
            },
            TemplateError::InvalidDateFormat { format } => {
                crate::text::extend_str(&mut out, "invalid date format '");
                crate::text::extend_str(&mut out, format.as_str());
                crate::text::extend_str(&mut out, "' in template");
            },
        }
        proof {
            assert(out@ =~= error_message(self@));
        }
        string_of(out.as_slice())
    }
}

/// What `slug::slugify` makes of a string.
pub uninterp spec fn spec_slugify(s: Seq<char>) -> Seq<char>;

/// The shape the slug crate documents for its output: only `a-z`, `0-9`
/// and `-`, never two dashes in a row, and no leading or trailing dash.
pub open spec fn is_slug(s: Seq<char>) -> bool {
    &&& forall|i: int| 0 <= i < s.len() ==> ('a' <= #[trigger] s[i] && s[i] <= 'z') || ('0' <= s[i] && s[i] <= '9') || s[i] == '-'
    &&& forall|i: int| 0 <= i < s.len() - 1 ==> !(#[trigger] s[i] == '-' && s[i + 1] == '-')
    &&& s.len() > 0 ==> s[0] != '-' && s[s.len() - 1] != '-'
}

/// An ASCII letter or digit.
pub open spec fn is_ascii_alnum(c: char) -> bool {
    ('a' <= c && c <= 'z') || ('A' <= c && c <= 'Z') || ('0' <= c && c <= '9')
}

/// `slug::slugify`: its result is named by [`spec_slugify`], and has the
/// documented slug shape ([`is_slug`]). It is not empty when the input holds
/// an ASCII letter or digit: the crate's source keeps every such character
/// (lowercased) and removes at most one trailing dash.
#[verifier::external_body]
fn slugify(s: &str) -> (r: String)
    ensures
        r@ == spec_slugify(s@),
        is_slug(r@),
        (exists|i: int| 0 <= i < s@.len() && is_ascii_alnum(#[trigger] s@[i])) ==> r@.len() > 0,
{
    slug::slugify(s)
}

/// The index of the first `c` in `s`.
pub open spec fn first_index_of(s: Seq<char>, c: char) -> Option<int>
    decreases s.len(),
{
    if s.len() == 0 {
        None
    } else if s[0] == c {
        Some(0)
    } else {
        match first_index_of(s.drop_first(), c) {
            Some(i) => Some(i + 1),
            None => None,
        }
    }
}

pub proof fn lemma_first_index_of(s: Seq<char>, c: char)
    ensures
        match first_index_of(s, c) {
            Some(i) => 0 <= i < s.len() && s[i] == c && forall|k: int| 0 <= k < i ==> s[k] != c,
            None => forall|k: int| 0 <= k < s.len() ==> s[k] != c,
        },
    decreases s.len(),
{
    if s.len() > 0 && s[0] != c {
        let t = s.drop_first();
        lemma_first_index_of(t, c);
        assert forall|k: int| 1 <= k < s.len() implies s[k] == t[k - 1] by {}
    }
}

/// `first_index_of` is the unique index holding `c` with none before it.
pub proof fn lemma_first_index_is(s: Seq<char>, c: char, i: int)
    requires
        0 <= i <= s.len(),
        forall|k: int| 0 <= k < i ==> s[k] != c,
        i < s.len() ==> s[i] == c,
    ensures
        first_index_of(s, c) == if i < s.len() { Some(i) } else { None::<int> },
{
    lemma_first_index_of(s, c);
    match first_index_of(s, c) {
        Some(j) => {
            if j < i {
                assert(s[j] != c);
            }
            if j > i {
                assert(s[i] != c);
            }
        },
        None => {
            if i < s.len() {
                assert(s[i] != c);
            }
        },
    }
}

/// The index of the last `c` in `s`.
pub open spec fn last_index_of(s: Seq<char>, c: char) -> Option<int>
    decreases s.len(),
{
    if s.len() == 0 {
        None
    } else if s.last() == c {
        Some(s.len() - 1)
    } else {
        last_index_of(s.drop_last(), c)
    }
}

/// `last_index_of` finds the index holding `c` with none after it.
pub proof fn lemma_last_index_is(s: Seq<char>, c: char, i: int)
    requires
        0 <= i <= s.len(),
        forall|k: int| i <= k < s.len() ==> s[k] != c,
        i > 0 ==> s[i - 1] == c,
    ensures
        last_index_of(s, c) == if i > 0 { Some(i - 1) } else { None::<int> },
    decreases s.len(),
{
    if s.len() > 0 {
        if s.last() != c {
            let t = s.drop_last();
            assert(i < s.len());
            assert forall|k: int| i <= k < t.len() implies t[k] != c by {
                assert(t[k] == s[k]);
            }
            if i > 0 {
                assert(t[i - 1] == s[i - 1]);
            }
            lemma_last_index_is(t, c, i);
        } else {
            if i < s.len() {
                assert(s[s.len() - 1] != c);
            }
        }
    }
}

/// Cap a slug at `max` characters, flooring to a whole word: cut at the last
/// `-` among the first `max + 1` characters, or hard-cut a single overlong word.
pub open spec fn truncate_slug_spec(slug: Seq<char>, max: nat) -> Seq<char> {
    if slug.len() <= max {
        slug
    } else {
        match last_index_of(slug.take(max as int + 1), '-') {
            Some(cut) => slug.take(cut),
            None => slug.take(max as int),
        }
    }
}

/// The fallback segment for a missing or empty field: `unknown-<name>`,
/// slugified for paths and verbatim otherwise.
pub open spec fn placeholder_spec(name: Seq<char>, sanitize: Sanitize) -> Seq<char> {
    let raw = "unknown-"@ + name;
    match sanitize {
        Sanitize::Slug => spec_slugify(raw),
        Sanitize::Raw => raw,
    }
}

/// The value bound to `name`: the first binding with that name.
pub open spec fn lookup(fields: Seq<BindingModel>, name: Seq<char>) -> Option<FieldModel>
    decreases fields.len(),
{
    if fields.len() == 0 {
        None
    } else if fields[0].name == name {
        Some(fields[0].value)
    } else {
        lookup(fields.drop_first(), name)
    }
}

/// A token's field name and optional `:format`, split at the first `:`.
pub open spec fn split_token(token: Seq<char>) -> (Seq<char>, Option<Seq<char>>) {
    match first_index_of(token, ':') {
        Some(p) => (token.take(p), Some(token.skip(p + 1))),
        None => (token, None),
    }
}

/// What one `{token}` renders to.
pub open spec fn resolve_token_spec(token: Seq<char>, fields: Seq<BindingModel>, sanitize: Sanitize) -> Result<Seq<char>, TemplateErrorModel> {
    let (name, format) = split_token(token);
    match lookup(fields, name) {
        None => Ok(placeholder_spec(name, sanitize)),
        Some(FieldModel::Text(value)) => {
            if format is Some {
                Err(TemplateErrorModel::FormatOnText(name))
            } else {
                let rendered = match sanitize {
                    Sanitize::Slug => truncate_slug_spec(spec_slugify(value), MAX_SLUG_LENGTH as nat),
                    Sanitize::Raw => value,
                };
                Ok(if rendered.len() == 0 { placeholder_spec(name, sanitize) } else { rendered })
            }
        },
        Some(FieldModel::Date(when)) => {
            let f = match format {
                Some(f) => f,
                None => "%Y-%m-%d"@,
            };
            match spec_format_timestamp(when, f) {
                Some(s) => Ok(s),
                None => Err(TemplateErrorModel::InvalidDateFormat(f)),
            }
        },
    }
}

pub open spec fn prepend(prefix: Seq<char>, r: Result<Seq<char>, TemplateErrorModel>) -> Result<Seq<char>, TemplateErrorModel> {
    match r {
        Ok(s) => Ok(prefix + s),
        Err(e) => Err(e),
    }
}

/// Render a flat template: `{field}` / `{field:format}` tokens resolve
/// through `fields`, `{{` and `}}` are literal braces, and everything else
/// is literal text. The first syntax error met left to right is the result.
#[verifier::opaque]
pub open spec fn render_spec(t: Seq<char>, fields: Seq<BindingModel>, sanitize: Sanitize) -> Result<Seq<char>, TemplateErrorModel>
    decreases t.len(),
{
    if t.len() == 0 {
        Ok(seq![])
    } else if t[0] == '{' && t.len() > 1 && t[1] == '{' {
        prepend(seq!['{'], render_spec(t.skip(2), fields, sanitize))
    } else if t[0] == '}' && t.len() > 1 && t[1] == '}' {
        prepend(seq!['}'], render_spec(t.skip(2), fields, sanitize))
    } else if t[0] == '{' {
        let rest = t.skip(1);
        match first_index_of(rest, '}') {
            None => Err(TemplateErrorModel::Unterminated),
            Some(k) => {
                proof {
                    lemma_first_index_of(rest, '}');
                }
                match resolve_token_spec(rest.take(k), fields, sanitize) {
                Err(e) => Err(e),
                    Ok(r) => prepend(r, render_spec(rest.skip(k + 1), fields, sanitize)),
                }
            },
        }
    } else {
        prepend(seq![t[0]], render_spec(t.skip(1), fields, sanitize))
    }
}

/// The first `c` in `v` at or after `from`.
fn find_char_from(v: &Vec<char>, from: usize, c: char) -> (r: Option<usize>)
    requires
        from <= v@.len(),
    ensures
        match r {
            Some(j) => from <= j < v@.len() && first_index_of(v@.skip(from as int), c) == Some(j - from),
            None => first_index_of(v@.skip(from as int), c) is None,
        },
{
    let ghost s = v@.skip(from as int);
    let mut j = from;
    while j < v.len()
        invariant
            from <= j <= v@.len(),
            s == v@.skip(from as int),
            forall|k: int| 0 <= k < j - from ==> s[k] != c,
        decreases v.len() - j,
    {
        if v[j] == c {
            proof {
                lemma_first_index_is(s, c, j - from);
            }
            return Some(j);
        }
        j = j + 1;
    }
    proof {
        lemma_first_index_is(s, c, j - from);
    }
    None
}

/// The first `c` in `v`.
pub fn find_char_in(v: &Vec<char>, c: char) -> (r: Option<usize>)
    ensures
        match r {
            Some(j) => first_index_of(v@, c) == Some(j as int),
            None => first_index_of(v@, c) is None,
        },
{
    proof {
        assert(v@.skip(0) =~= v@);
    }
    find_char_from(v, 0, c)
}

proof fn lemma_lookup_first(fields: Seq<BindingModel>, name: Seq<char>, k: int)
    requires
        0 <= k <= fields.len(),
        forall|j: int| 0 <= j < k ==> #[trigger] fields[j].name != name,
        k < fields.len() ==> fields[k].name == name,
    ensures
        lookup(fields, name) == if k < fields.len() { Some(fields[k].value) } else { None },
    decreases k,
{
    if k > 0 {
        let t = fields.drop_first();
        assert forall|j: int| 0 <= j < k - 1 implies #[trigger] t[j].name != name by {
            assert(t[j] == fields[j + 1]);
        }
        if k < fields.len() {
            assert(t[k - 1] == fields[k]);
        }
        assert(fields[0].name != name);
        lemma_lookup_first(t, name, k - 1);
    }
}

/// The position of the binding `name` resolves to.
fn find_binding(fields: &[Binding], name: &Vec<char>) -> (r: Option<usize>)
    ensures
        match r {
            Some(k) => k < fields@.len() && lookup(bindings_model(fields@), name@) == Some(fields@[k as int].value@),
            None => lookup(bindings_model(fields@), name@) is None,
        },
{
    let ghost fm = bindings_model(fields@);
    let mut k: usize = 0;
    while k < fields.len()
        invariant
            k <= fields@.len(),
            fm == bindings_model(fields@),
            forall|j: int| 0 <= j < k ==> #[trigger] fm[j].name != name@,
        decreases fields.len() - k,
    {
        let nm = chars_of(fields[k].name.as_str());
        if chars_eq(&nm, name) {
            proof {
                lemma_lookup_first(fm, name@, k as int);
            }
            return Some(k);
        }
        k = k + 1;
    }
    proof {
        lemma_lookup_first(fm, name@, k as int);
    }
    None
}

/// Cap `slug` at `max` characters, flooring to a whole word. Slug output is
/// ASCII, so counting characters here is counting bytes.
pub fn truncate_slug(slug: Vec<char>, max: usize) -> (r: Vec<char>)
    ensures
        r@ == truncate_slug_spec(slug@, max as nat),
{
    if slug.len() <= max {
        return slug;
    }
    let mut i = max + 1;
    while i > 0 && slug[i - 1] != '-'
        invariant
            i <= max + 1 <= slug@.len(),
            forall|k: int| i <= k < max + 1 ==> slug@[k] != '-',
        decreases i,
    {
        i = i - 1;
    }
    let ghost p = slug@.take(max as int + 1);
    proof {
        assert forall|k: int| i <= k < p.len() implies p[k] != '-' by {
            assert(p[k] == slug@[k]);
        }
        if i > 0 {
            assert(p[i - 1] == slug@[i - 1]);
        }
        lemma_last_index_is(p, '-', i as int);
    }
    if i > 0 {
        sub_vec(&slug, 0, i - 1)
    } else {
        sub_vec(&slug, 0, max)
    }
}

/// The fallback `unknown-<name>` segment.
fn placeholder(name: &Vec<char>, sanitize: Sanitize) -> (r: Vec<char>)
    ensures
        r@ == placeholder_spec(name@, sanitize),
        r@.len() > 0,
{
    let mut raw: Vec<char> = Vec::new();
    crate::text::extend_str(&mut raw, "unknown-");
    extend_chars(&mut raw, name);
    proof {
        reveal_strlit("unknown-");
        assert(raw@[0] == 'u');
    }
    match sanitize {
        Sanitize::Slug => {
            let s = string_of(raw.as_slice());
            assert(is_ascii_alnum(s@[0]));
            let slug = slugify(s.as_str());
            chars_of(slug.as_str())
        },
        Sanitize::Raw => raw,
    }
}

/// A text value as emitted: slugified and capped, or verbatim.
pub open spec fn text_value_spec(value: Seq<char>, sanitize: Sanitize) -> Seq<char> {
    match sanitize {
        Sanitize::Slug => truncate_slug_spec(spec_slugify(value), MAX_SLUG_LENGTH as nat),
        Sanitize::Raw => value,
    }
}

fn text_value(value: &str, sanitize: Sanitize) -> (r: Vec<char>)
    ensures
        r@ == text_value_spec(value@, sanitize),
{
    match sanitize {
        Sanitize::Slug => {
            let slug = slugify(value);
            truncate_slug(chars_of(slug.as_str()), MAX_SLUG_LENGTH)
        },
        Sanitize::Raw => chars_of(value),
    }
}

/// Split a token into its name and optional format.
fn split_token_exec(token: &Vec<char>) -> (r: (Vec<char>, Option<Vec<char>>))
    ensures
        r.0@ == split_token(token@).0,
        match r.1 {
            Some(f) => split_token(token@).1 == Some(f@),
            None => split_token(token@).1 is None,
        },
{
    proof {
        assert(token@.skip(0) =~= token@);
    }
    match find_char_from(token, 0, ':') {
        Some(p) => {
            let len = token.len();
            assert(p < len);
            let n = sub_vec(token, 0, p);
            let f = sub_vec(token, p + 1, len);
            proof {
                assert(n@ =~= token@.take(p as int));
                assert(f@ =~= token@.skip(p + 1));
            }
            (n, Some(f))
        },
        None => {
            let n = sub_vec(token, 0, token.len());
            proof {
                assert(n@ =~= token@);
            }
            (n, None)
        },
    }
}

/// Render one `{token}`.
pub fn resolve_token(token: &Vec<char>, fields: &[Binding], sanitize: Sanitize) -> (r: Result<Vec<char>, TemplateError>)
    requires
        dates_valid(bindings_model(fields@)),
    ensures
        match r {
            Ok(v) => resolve_token_spec(token@, bindings_model(fields@), sanitize) == Ok::<Seq<char>, TemplateErrorModel>(v@),
            Err(e) => resolve_token_spec(token@, bindings_model(fields@), sanitize) == Err::<Seq<char>, TemplateErrorModel>(e@),
        },
        r matches Ok(v) ==> (!(lookup(bindings_model(fields@), split_token(token@).0) matches Some(FieldModel::Date(_))) ==> v@.len() > 0),
{
    let (name, format) = split_token_exec(token);
    match find_binding(fields, &name) {
        None => Ok(placeholder(&name, sanitize)),
        Some(k) => match &fields[k].value {
            Field::Text(value) => {
                if format.is_some() {
                    return Err(TemplateError::FormatOnText { name: string_of(name.as_slice()) });
                }
                let rendered = text_value(value.as_str(), sanitize);
                if rendered.len() == 0 {
                    Ok(placeholder(&name, sanitize))
                } else {
                    Ok(rendered)
                }
            },
            Field::Date(when) => {
                proof {
                    assert(bindings_model(fields@)[k as int].value == fields@[k as int].value@);
                }
                let f = match format {
                    Some(f) => f,
                    None => chars_of("%Y-%m-%d"),
                };
                let fs = string_of(f.as_slice());
                match format_timestamp(*when, fs.as_str()) {
                    Some(s) => Ok(chars_of(s.as_str())),
                    None => Err(TemplateError::InvalidDateFormat { format: fs }),
                }
            },
        },
    }
}

/// The four ways `render_spec` unfolds on a non-empty template.
proof fn lemma_render_unfold(t: Seq<char>, fields: Seq<BindingModel>, sanitize: Sanitize)
    requires
        t.len() > 0,
    ensures
        t[0] == '{' && t.len() > 1 && t[1] == '{' ==>
            render_spec(t, fields, sanitize) == prepend(seq!['{'], render_spec(t.skip(2), fields, sanitize)),
        !(t[0] == '{' && t.len() > 1 && t[1] == '{') && t[0] == '}' && t.len() > 1 && t[1] == '}' ==>
            render_spec(t, fields, sanitize) == prepend(seq!['}'], render_spec(t.skip(2), fields, sanitize)),
        !(t[0] == '{' && t.len() > 1 && t[1] == '{') && t[0] == '{' ==>
            render_spec(t, fields, sanitize) == match first_index_of(t.skip(1), '}') {
                None => Err(TemplateErrorModel::Unterminated),
                Some(k) => match resolve_token_spec(t.skip(1).take(k), fields, sanitize) {
                    Err(e) => Err(e),
                    Ok(r) => prepend(r, render_spec(t.skip(1).skip(k + 1), fields, sanitize)),
                },
            },
        t[0] != '{' && !(t[0] == '}' && t.len() > 1 && t[1] == '}') ==>
            render_spec(t, fields, sanitize) == prepend(seq![t[0]], render_spec(t.skip(1), fields, sanitize)),
{
    reveal(render_spec);
}

/// What an error of [`render_spec`] points at: an unterminated `{` is a
/// `{` in the template; a `:format` on a text field names a field bound to
/// text; an invalid date format is one some date field was given and chrono
/// refuses.
pub open spec fn error_has_cause(e: TemplateErrorModel, t: Seq<char>, fields: Seq<BindingModel>) -> bool {
    match e {
        TemplateErrorModel::Unterminated => exists|i: int| 0 <= i < t.len() && #[trigger] t[i] == '{',
        TemplateErrorModel::FormatOnText(name) => lookup(fields, name) matches Some(FieldModel::Text(_)),
        TemplateErrorModel::InvalidDateFormat(f) => exists|name: Seq<char>|
            #[trigger] lookup(fields, name) matches Some(FieldModel::Date(w)) && spec_format_timestamp(w, f) is None,
    }
}

proof fn lemma_cause_suffix(e: TemplateErrorModel, t: Seq<char>, n: int, fields: Seq<BindingModel>)
    requires
        0 <= n <= t.len(),
        error_has_cause(e, t.skip(n), fields),
    ensures
        error_has_cause(e, t, fields),
{
    if e is Unterminated {
        let i = choose|i: int| 0 <= i < t.skip(n).len() && #[trigger] t.skip(n)[i] == '{';
        assert(t[i + n] == '{');
    }
}

/// Rendering fails only for the template mistakes it reports: every error
/// has its cause in the template and the fields.
pub proof fn law_render_errors_have_causes(t: Seq<char>, fields: Seq<BindingModel>, sanitize: Sanitize)
    ensures
        render_spec(t, fields, sanitize) matches Err(e) ==> error_has_cause(e, t, fields),
    decreases t.len(),
{
    if t.len() > 0 {
        lemma_render_unfold(t, fields, sanitize);
        if t[0] == '{' && t.len() > 1 && t[1] == '{' {
            law_render_errors_have_causes(t.skip(2), fields, sanitize);
            if let Err(e) = render_spec(t.skip(2), fields, sanitize) {
                lemma_cause_suffix(e, t, 2, fields);
            }
        } else if t[0] == '}' && t.len() > 1 && t[1] == '}' {
            law_render_errors_have_causes(t.skip(2), fields, sanitize);
            if let Err(e) = render_spec(t.skip(2), fields, sanitize) {
                lemma_cause_suffix(e, t, 2, fields);
            }
        } else if t[0] == '{' {
            let rest = t.skip(1);
            match first_index_of(rest, '}') {
                None => {
                    assert(t[0] == '{');
                },
                Some(k) => {
                    lemma_first_index_of(rest, '}');
                    let token = rest.take(k);
                    match resolve_token_spec(token, fields, sanitize) {
                        Err(e) => {
                            let (name, format) = split_token(token);
                            if let Some(FieldModel::Date(w)) = lookup(fields, name) {
                                assert(lookup(fields, name) matches Some(FieldModel::Date(w)));
                            }
                        },
                        Ok(r) => {
                            let after = rest.skip(k + 1);
                            law_render_errors_have_causes(after, fields, sanitize);
                            assert(after =~= t.skip(k + 2));
                            if let Err(e) = render_spec(after, fields, sanitize) {
                                lemma_cause_suffix(e, t, k + 2, fields);
                            }
                        },
                    }
                },
            }
        } else {
            law_render_errors_have_causes(t.skip(1), fields, sanitize);
            if let Err(e) = render_spec(t.skip(1), fields, sanitize) {
                lemma_cause_suffix(e, t, 1, fields);
            }
        }
    } else {
        reveal(render_spec);
    }
}

/// What is wrong with one `{token}`, if anything: a `:format` on a field
/// bound to text, or a date format that chrono refuses (the default format
/// when none is given).
pub open spec fn token_mistake(token: Seq<char>, fields: Seq<BindingModel>) -> Option<TemplateErrorModel> {
    let (name, format) = split_token(token);
    match lookup(fields, name) {
        Some(FieldModel::Text(_)) => if format is Some {
            Some(TemplateErrorModel::FormatOnText(name))
        } else {
            None
        },
        Some(FieldModel::Date(when)) => {
            let f = match format {
                Some(f) => f,
                None => "%Y-%m-%d"@,
            };
            if spec_format_timestamp(when, f) is None {
                Some(TemplateErrorModel::InvalidDateFormat(f))
            } else {
                None
            }
        },
        None => None,
    }
}

/// The first mistake met reading `t` from the left, `{{` and `}}` being
/// literal braces: a `{` with no `}` after it, or a token with a
/// [`token_mistake`].
pub open spec fn first_mistake(t: Seq<char>, fields: Seq<BindingModel>) -> Option<TemplateErrorModel>
    decreases t.len(),
{
    if t.len() == 0 {
        None
    } else if t[0] == '{' && t.len() > 1 && t[1] == '{' {
        first_mistake(t.skip(2), fields)
    } else if t[0] == '}' && t.len() > 1 && t[1] == '}' {
        first_mistake(t.skip(2), fields)
    } else if t[0] == '{' {
        let rest = t.skip(1);
        match first_index_of(rest, '}') {
            None => Some(TemplateErrorModel::Unterminated),
            Some(k) => {
                proof {
                    lemma_first_index_of(rest, '}');
                }
                match token_mistake(rest.take(k), fields) {
                    Some(e) => Some(e),
                    None => first_mistake(rest.skip(k + 1), fields),
                }
            },
        }
    } else {
        first_mistake(t.skip(1), fields)
    }
}

/// Whether rendering fails, and with which error, is decided by the
/// template's first mistake alone: with none it succeeds, whatever the
/// sanitize mode and whichever fields are missing or empty; with one it
/// fails with exactly that error.
pub proof fn law_render_fails_on_first_mistake(t: Seq<char>, fields: Seq<BindingModel>, sanitize: Sanitize)
    ensures
        match first_mistake(t, fields) {
            Some(e) => render_spec(t, fields, sanitize) == Err::<Seq<char>, TemplateErrorModel>(e),
            None => render_spec(t, fields, sanitize) is Ok,
        },
    decreases t.len(),
{
    if t.len() == 0 {
        reveal(render_spec);
    } else {
        lemma_render_unfold(t, fields, sanitize);
        if t[0] == '{' && t.len() > 1 && t[1] == '{' {
            law_render_fails_on_first_mistake(t.skip(2), fields, sanitize);
        } else if t[0] == '}' && t.len() > 1 && t[1] == '}' {
            law_render_fails_on_first_mistake(t.skip(2), fields, sanitize);
        } else if t[0] == '{' {
            let rest = t.skip(1);
            match first_index_of(rest, '}') {
                None => {},
                Some(k) => {
                    lemma_first_index_of(rest, '}');
                    law_render_fails_on_first_mistake(rest.skip(k + 1), fields, sanitize);
                },
            }
        } else {
            law_render_fails_on_first_mistake(t.skip(1), fields, sanitize);
        }
    }
}

/// A field that is missing, or bound to text that renders empty, becomes its
/// `unknown-<name>` placeholder; in verbatim mode a text token therefore
/// never renders empty.
pub proof fn law_text_token_placeholder(token: Seq<char>, fields: Seq<BindingModel>, sanitize: Sanitize)
    requires
        split_token(token).1 is None,
        !(lookup(fields, split_token(token).0) matches Some(FieldModel::Date(_))),
    ensures
        resolve_token_spec(token, fields, sanitize) matches Ok(v) && {
            let name = split_token(token).0;
            &&& (lookup(fields, name) is None ==> v == placeholder_spec(name, sanitize))
            &&& (lookup(fields, name) matches Some(FieldModel::Text(value)) && text_value_spec(value, sanitize).len() == 0
                ==> v == placeholder_spec(name, sanitize))
            &&& (sanitize is Raw ==> v.len() > 0)
        },
{
    reveal_strlit("unknown-");
    let name = split_token(token).0;
    assert(("unknown-"@ + name).len() > 0);
}

/// Render a flat template. Tokens are `{field}` or `{field:format}`; `{{` and
/// `}}` are literal braces; everything else is literal text. `fields` maps a
/// field name to its value (the first binding of a name wins); `sanitize`
/// decides how string values are emitted ([`Sanitize::Slug`] for paths,
/// [`Sanitize::Raw`] for titles). A missing value, or one that renders empty,
/// becomes `unknown-<field>`, so a token never yields an empty segment. Date
/// values are chrono-formatted regardless of `sanitize`. Returns an error —
/// never panics — only on template *syntax* mistakes: a `:format` on a text
/// field, a bad date format, or an unterminated `{`.
#[verifier::spinoff_prover]
pub fn render(template: &str, fields: &[Binding], sanitize: Sanitize) -> (r: Result<String, TemplateError>)
    requires
        dates_valid(bindings_model(fields@)),
    ensures
        match r {
            Ok(s) => render_spec(template@, bindings_model(fields@), sanitize) == Ok::<Seq<char>, TemplateErrorModel>(s@),
            Err(e) => render_spec(template@, bindings_model(fields@), sanitize) == Err::<Seq<char>, TemplateErrorModel>(e@),
        },
{
    let t = chars_of(template);
    let ghost fm = bindings_model(fields@);
    let mut out: Vec<char> = Vec::new();
    let mut i: usize = 0;
    proof {
        assert(t@.skip(0) =~= t@);
        lemma_prepend_empty(render_spec(t@, fm, sanitize));
    }
    while i < t.len()
        invariant
            i <= t@.len(),
            t@ == template@,
            fm == bindings_model(fields@),
            dates_valid(fm),
            render_spec(t@, fm, sanitize) == prepend(out@, render_spec(t@.skip(i as int), fm, sanitize)),
        decreases t.len() - i,
    {
        let ghost s = t@.skip(i as int);
        let ghost before = out@;
        let c = t[i];
        proof {
            lemma_render_unfold(s, fm, sanitize);
            assert(s[0] == c);
            if i + 1 < t.len() {
                assert(s[1] == t@[i + 1]);
            }
        }
        if c == '{' && i + 1 < t.len() && t[i + 1] == '{' {
            assert(s.skip(2) =~= t@.skip(i + 2));
            out.push('{');
            i = i + 2;
            proof {
                assert(out@ =~= before + seq!['{']);
                lemma_prepend_assoc(before, seq!['{'], render_spec(t@.skip(i as int), fm, sanitize));
            }
        } else if c == '}' && i + 1 < t.len() && t[i + 1] == '}' {
            assert(s.skip(2) =~= t@.skip(i + 2));
            out.push('}');
            i = i + 2;
            proof {
                assert(out@ =~= before + seq!['}']);
                lemma_prepend_assoc(before, seq!['}'], render_spec(t@.skip(i as int), fm, sanitize));
            }
        } else if c == '{' {
            assert(s.skip(1) =~= t@.skip(i + 1));
            match find_char_from(&t, i + 1, '}') {
                None => {
                    return Err(TemplateError::Unterminated);
                },
                Some(j) => {
                    let token = sub_vec(&t, i + 1, j);
                    proof {
                        assert(token@ =~= s.skip(1).take(j - i - 1));
                        assert(s.skip(1).skip(j - i - 1 + 1) =~= t@.skip(j + 1));
                    }
                    match resolve_token(&token, fields, sanitize) {
                        Err(e) => {
                            return Err(e);
                        },
                        Ok(r) => {
                            extend_chars(&mut out, &r);
                            i = j + 1;
                            proof {
                                lemma_prepend_assoc(before, r@, render_spec(t@.skip(i as int), fm, sanitize));
                            }
                        },
                    }
                },
            }
        } else {
            assert(s.skip(1) =~= t@.skip(i + 1));
            out.push(c);
            i = i + 1;
            proof {
                assert(out@ =~= before + seq![c]);
                lemma_prepend_assoc(before, seq![c], render_spec(t@.skip(i as int), fm, sanitize));
            }
        }
    }
    proof {
        assert(t@.skip(i as int) =~= Seq::<char>::empty());
        reveal(render_spec);
        assert(out@ + Seq::<char>::empty() =~= out@);
    }
    Ok(string_of(out.as_slice()))
}

proof fn lemma_prepend_empty(r: Result<Seq<char>, TemplateErrorModel>)
    ensures
        prepend(Seq::<char>::empty(), r) == r,
{
    match r {
        Ok(s) => {
            assert(Seq::<char>::empty() + s =~= s);
        },
        Err(_) => {},
    }
}

proof fn lemma_prepend_assoc(a: Seq<char>, b: Seq<char>, r: Result<Seq<char>, TemplateErrorModel>)
    ensures
        prepend(a, prepend(b, r)) == prepend(a + b, r),
{
    match r {
        Ok(s) => {
            assert(a + (b + s) =~= (a + b) + s);
        },
        Err(_) => {},
    }
}

/// A template with no braces renders to itself, whatever the fields.
pub proof fn law_literal_template_renders_verbatim(t: Seq<char>, fields: Seq<BindingModel>, sanitize: Sanitize)
    requires
        forall|i: int| 0 <= i < t.len() ==> #[trigger] t[i] != '{' && t[i] != '}',
    ensures
        render_spec(t, fields, sanitize) == Ok::<Seq<char>, TemplateErrorModel>(t),
    decreases t.len(),
{
    if t.len() == 0 {
        reveal(render_spec);
        assert(t =~= Seq::<char>::empty());
    } else {
        lemma_render_unfold(t, fields, sanitize);
        let rest = t.skip(1);
        assert(t[0] != '{' && t[0] != '}');
        assert forall|i: int| 0 <= i < rest.len() implies #[trigger] rest[i] != '{' && rest[i] != '}' by {
            assert(rest[i] == t[i + 1]);
        }
        law_literal_template_renders_verbatim(rest, fields, sanitize);
        assert(render_spec(t, fields, sanitize) == prepend(seq![t[0]], render_spec(rest, fields, sanitize)));
        assert(seq![t[0]] + rest =~= t);
    }
}

/// `{{` and `}}` always render as single literal braces, in front of
/// whatever the rest of the template renders to.
pub proof fn law_escaped_braces(t: Seq<char>, fields: Seq<BindingModel>, sanitize: Sanitize)
    ensures
        render_spec(seq!['{', '{'] + t, fields, sanitize) == prepend(seq!['{'], render_spec(t, fields, sanitize)),
        render_spec(seq!['}', '}'] + t, fields, sanitize) == prepend(seq!['}'], render_spec(t, fields, sanitize)),
{
    reveal(render_spec);
    assert((seq!['{', '{'] + t).skip(2) =~= t);
    assert((seq!['}', '}'] + t).skip(2) =~= t);
}

/// A capped slug is a prefix of the slug, never longer than `max`, ends on a
/// word boundary (never with a dash), and is empty only if the slug was.
pub proof fn law_truncated_slug_shape(slug: Seq<char>, max: nat)
    requires
        is_slug(slug),
        max >= 1,
    ensures
        truncate_slug_spec(slug, max).len() <= max,
        slug.take(truncate_slug_spec(slug, max).len() as int) == truncate_slug_spec(slug, max),
        truncate_slug_spec(slug, max).len() > 0 ==> truncate_slug_spec(slug, max).last() != '-',
        (truncate_slug_spec(slug, max).len() == 0) == (slug.len() == 0),
{
    let r = truncate_slug_spec(slug, max);
    if slug.len() > max {
        let p = slug.take(max as int + 1);
        lemma_last_index_of(p, '-');
        match last_index_of(p, '-') {
            Some(cut) => {
                assert(slug[cut] == p[cut]);
                assert(slug[0] != '-');
                assert(cut != 0);
                assert(!(slug[cut - 1] == '-' && slug[cut] == '-'));
                assert(r.last() == slug[cut - 1]);
            },
            None => {
                assert(p[max as int - 1] == slug[max as int - 1]);
                assert(r.last() == slug[max as int - 1]);
            },
        }
        assert(slug.take(r.len() as int) =~= r);
    } else {
        assert(slug.take(r.len() as int) =~= r);
        if slug.len() > 0 {
            assert(r.last() == slug[slug.len() - 1]);
        }
    }
}

proof fn lemma_last_index_of(s: Seq<char>, c: char)
    ensures
        match last_index_of(s, c) {
            Some(i) => 0 <= i < s.len() && s[i] == c,
            None => forall|k: int| 0 <= k < s.len() ==> s[k] != c,
        },
    decreases s.len(),
{
    if s.len() > 0 && s.last() != c {
        let t = s.drop_last();
        lemma_last_index_of(t, c);
        assert forall|k: int| 0 <= k < t.len() implies s[k] == t[k] by {}
    }
}

} // verus!
