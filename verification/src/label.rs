//! Label chips: one ANSI-colored chip per label, the per-render memory that
//! keeps a repeated label's color, and the joined, truncated label cell.
use vstd::prelude::*;
use crate::note::{join_strings, strings_model};
use crate::text::{chars_of, decimal, decimal_chars, extend_chars, extend_str, join, str_eq, string_of};

verus! {

/// A 24-bit RGB color.
#[derive(Clone, Copy, PartialEq, Eq, Debug, Structural)]
pub struct Rgb {
    pub r: u8,
    pub g: u8,
    pub b: u8,
}

/// A label chip's background and foreground colors.
#[derive(Clone, Copy, PartialEq, Eq, Debug, Structural)]
pub struct LabelColor {
    pub background: Rgb,
    pub foreground: Rgb,
}

/// `r;g;b`, the three channels in decimal.
pub open spec fn rgb_params(c: Rgb) -> Seq<char> {
    decimal(c.r as nat) + ";"@ + decimal(c.g as nat) + ";"@ + decimal(c.b as nat)
}

/// A chip: foreground and background SGR codes, the label padded by one
/// space on each side, and a reset.
pub open spec fn render_label_spec(label: Seq<char>, color: LabelColor) -> Seq<char> {
    "\x1b[38;2;"@ + rgb_params(color.foreground) + "m"@ + "\x1b[48;2;"@ + rgb_params(color.background) + "m"@
        + " "@ + label + " "@ + "\x1b[0m"@
}

fn push_rgb(out: &mut Vec<char>, c: Rgb)
    ensures
        final(out)@ == old(out)@ + rgb_params(c),
{
    let r = decimal_chars(c.r as u128);
    let g = decimal_chars(c.g as u128);
    let b = decimal_chars(c.b as u128);
    extend_chars(out, &r);
    extend_str(out, ";");
    extend_chars(out, &g);
    extend_str(out, ";");
    extend_chars(out, &b);
}

/// Render one label as an ANSI-colored chip with a space of padding on each
/// side of the text, ending with a reset.
pub fn render_label(label: &str, color: LabelColor) -> (r: String)
    ensures
        r@ == render_label_spec(label@, color),
{
    let mut out: Vec<char> = Vec::new();
    extend_str(&mut out, "\x1b[38;2;");
    push_rgb(&mut out, color.foreground);
    extend_str(&mut out, "m");
    extend_str(&mut out, "\x1b[48;2;");
    push_rgb(&mut out, color.background);
    extend_str(&mut out, "m");
    extend_str(&mut out, " ");
    extend_str(&mut out, label);
    extend_str(&mut out, " ");
    extend_str(&mut out, "\x1b[0m");
    string_of(out.as_slice())
}

/// The index of `label` among the labels seen so far: its first position, or
/// the next free index when it has not been seen.
pub open spec fn palette_index(seen: Seq<Seq<char>>, label: Seq<char>) -> nat
    decreases seen.len(),
{
    if seen.len() == 0 {
        0
    } else if seen[0] == label {
        0
    } else {
        1 + palette_index(seen.drop_first(), label)
    }
}

/// The labels seen after `label` is looked up: unchanged when it was seen
/// before, else with `label` added at the end.
pub open spec fn palette_add(seen: Seq<Seq<char>>, label: Seq<char>) -> Seq<Seq<char>> {
    if seen.contains(label) { seen } else { seen.push(label) }
}

/// The labels seen after looking up each of `labels` in turn.
pub open spec fn palette_after(seen: Seq<Seq<char>>, labels: Seq<Seq<char>>) -> Seq<Seq<char>>
    decreases labels.len(),
{
    if labels.len() == 0 {
        seen
    } else {
        palette_add(palette_after(seen, labels.drop_last()), labels.last())
    }
}

/// `s` begins with all of `prefix`.
pub open spec fn extends(s: Seq<Seq<char>>, prefix: Seq<Seq<char>>) -> bool {
    prefix.len() <= s.len() && forall|k: int| 0 <= k < prefix.len() ==> #[trigger] s[k] == prefix[k]
}

/// What [`palette_index`] is: the first position of `label`, or the length
/// when it does not occur.
pub proof fn lemma_palette_index(seen: Seq<Seq<char>>, label: Seq<char>)
    ensures
        palette_index(seen, label) <= seen.len(),
        forall|k: int| 0 <= k < palette_index(seen, label) ==> #[trigger] seen[k] != label,
        palette_index(seen, label) < seen.len() ==> seen[palette_index(seen, label) as int] == label,
        palette_index(seen, label) < seen.len() <==> seen.contains(label),
    decreases seen.len(),
{
    if seen.len() > 0 && seen[0] != label {
        lemma_palette_index(seen.drop_first(), label);
        let i = palette_index(seen, label);
        assert forall|k: int| 0 <= k < i implies #[trigger] seen[k] != label by {
            if k > 0 {
                assert(seen[k] == seen.drop_first()[k - 1]);
            }
        }
        if seen.contains(label) {
            let w = choose|w: int| 0 <= w < seen.len() && seen[w] == label;
            assert(w > 0);
            assert(seen.drop_first()[w - 1] == label);
            assert(seen.drop_first().contains(label));
        }
        if seen.drop_first().contains(label) {
            let w = choose|w: int| 0 <= w < seen.drop_first().len() && seen.drop_first()[w] == label;
            assert(seen[w + 1] == label);
        }
    } else if seen.len() > 0 {
        assert(seen.contains(label));
    }
}

/// A label found among the first labels keeps its index when more are added.
pub proof fn lemma_palette_index_extends(s: Seq<Seq<char>>, prefix: Seq<Seq<char>>, label: Seq<char>)
    requires
        extends(s, prefix),
        prefix.contains(label),
    ensures
        palette_index(s, label) == palette_index(prefix, label),
{
    lemma_palette_index(prefix, label);
    lemma_palette_index(s, label);
    let i = palette_index(prefix, label) as int;
    let j = palette_index(s, label) as int;
    assert(s[i] == prefix[i]);
    if j < i {
        assert(s[j] == prefix[j]);
    }
}

/// Looking up more labels only adds to what was seen.
pub proof fn lemma_palette_after_extends(seen: Seq<Seq<char>>, labels: Seq<Seq<char>>, i: int, j: int)
    requires
        0 <= i <= j <= labels.len(),
    ensures
        extends(palette_after(seen, labels.take(j)), palette_after(seen, labels.take(i))),
    decreases j - i,
{
    if i < j {
        lemma_palette_after_extends(seen, labels, i, j - 1);
        assert(labels.take(j).drop_last() =~= labels.take(j - 1));
    }
}

/// Looking up labels adds at most one seen label per lookup.
pub proof fn lemma_palette_after_len(seen: Seq<Seq<char>>, labels: Seq<Seq<char>>)
    ensures
        palette_after(seen, labels).len() <= seen.len() + labels.len(),
    decreases labels.len(),
{
    if labels.len() > 0 {
        lemma_palette_after_len(seen, labels.drop_last());
    }
}

/// A label looked up is then among the labels seen, at the index the lookup
/// gave.
pub proof fn lemma_palette_add(seen: Seq<Seq<char>>, label: Seq<char>)
    ensures
        palette_add(seen, label).contains(label),
        palette_index(palette_add(seen, label), label) == palette_index(seen, label),
        extends(palette_add(seen, label), seen),
        seen.no_duplicates() ==> palette_add(seen, label).no_duplicates(),
{
    lemma_palette_index(seen, label);
    let a = palette_add(seen, label);
    if !seen.contains(label) {
        assert(a[seen.len() as int] == label);
    }
    lemma_palette_index(a, label);
    let i = palette_index(seen, label) as int;
    let j = palette_index(a, label) as int;
    if j < i {
        assert(a[j] == seen[j]);
    }
    if i < j {
        assert(a[i] == seen[i]);
    }
}

/// The index a label gets in a render: its index among the labels seen
/// before it.
pub open spec fn chip_index(seen: Seq<Seq<char>>, labels: Seq<Seq<char>>, i: int) -> nat {
    palette_index(palette_after(seen, labels.take(i)), labels[i])
}

/// Within one render, a repeated label gets the index it got the first time,
/// and two different labels never share an index.
#[verifier::spinoff_prover]
pub proof fn law_palette_same_label_same_index(seen: Seq<Seq<char>>, labels: Seq<Seq<char>>, i: int, j: int)
    requires
        0 <= i < j < labels.len(),
    ensures
        labels[i] == labels[j] <==> chip_index(seen, labels, i) == chip_index(seen, labels, j),
{
    let pi = palette_after(seen, labels.take(i));
    let pi1 = palette_after(seen, labels.take(i + 1));
    let pj = palette_after(seen, labels.take(j));
    assert(labels.take(i + 1).drop_last() =~= labels.take(i));
    assert(labels.take(i + 1).last() == labels[i]);
    assert(pi1 == palette_add(pi, labels[i]));
    lemma_palette_add(pi, labels[i]);
    lemma_palette_after_extends(seen, labels, i + 1, j);
    lemma_palette_index(pi1, labels[i]);
    lemma_palette_index(pj, labels[j]);
    let a = chip_index(seen, labels, i) as int;
    let b = chip_index(seen, labels, j) as int;
    if labels[i] == labels[j] {
        lemma_palette_index_extends(pj, pi1, labels[i]);
    } else {
        assert(a < pi1.len());
        assert(pj[a] == pi1[a]);
        if b < pj.len() {
            assert(pj[b] == labels[j]);
        }
    }
}

/// A label not seen before gets the next index in first-seen order.
pub proof fn law_palette_new_label_next_index(seen: Seq<Seq<char>>, label: Seq<char>)
    requires
        !seen.contains(label),
    ensures
        palette_index(seen, label) == seen.len(),
        palette_add(seen, label) == seen.push(label),
{
    lemma_palette_index(seen, label);
}

/// Remembers which index each distinct label was assigned during one render,
/// so a repeated label keeps its color. Never persisted between runs.
pub struct LabelPalette {
    seen: Vec<String>,
}

impl LabelPalette {
    #[verifier::type_invariant]
    spec fn distinct(self) -> bool {
        strings_model(self.seen@).no_duplicates()
    }

    /// The labels seen so far, in first-seen order.
    pub closed spec fn seen(self) -> Seq<Seq<char>> {
        strings_model(self.seen@)
    }

    /// A palette with no assignments yet.
    pub fn new() -> (p: Self)
        ensures
            p.seen() == Seq::<Seq<char>>::empty(),
    {
        let p = LabelPalette { seen: Vec::new() };
        assert(p.seen() =~= Seq::<Seq<char>>::empty());
        p
    }

    /// The index for `label`, assigning the next sequential index on first
    /// sight.
    pub fn index_for(&mut self, label: &str) -> (i: usize)
        ensures
            i == palette_index(old(self).seen(), label@),
            final(self).seen() == palette_add(old(self).seen(), label@),
            final(self).seen().no_duplicates(),
    {
        proof {
            use_type_invariant(&*self);
            lemma_palette_index(self.seen(), label@);
        }
        let ghost s = self.seen();
        let mut k: usize = 0;
        while k < self.seen.len()
            invariant
                k <= self.seen@.len(),
                s == strings_model(self.seen@),
                forall|m: int| 0 <= m < k ==> #[trigger] s[m] != label@,
            decreases self.seen.len() - k,
        {
            if str_eq(self.seen[k].as_str(), label) {
                proof {
                    assert(s[k as int] == label@);
                    assert(s.contains(label@));
                    let p = palette_index(s, label@) as int;
                    lemma_palette_index(s, label@);
                    if p < k {
                        assert(s[p] != label@);
                    }
                    if p > k {
                        assert(s[k as int] != label@);
                    }
                    assert(p == k);
                    assert(s == old(self).seen());
                }
                proof {
                    use_type_invariant(&*self);
                }
                return k;
            }
            k = k + 1;
        }
        proof {
            if s.contains(label@) {
                let w = choose|w: int| 0 <= w < s.len() && s[w] == label@;
                assert(s[w] != label@);
            }
        }
        let n = self.seen.len();
        let fresh = string_of(chars_of(label).as_slice());
        proof {
            assert(strings_model(self.seen@.push(fresh)) =~= s.push(label@));
            lemma_palette_add(s, label@);
        }
        let mut grown: Vec<String> = Vec::new();
        std::mem::swap(&mut grown, &mut self.seen);
        grown.push(fresh);
        self.seen = grown;
        proof {
            use_type_invariant(&*self);
        }
        n
    }
}

/// How many labels are shown when at most `max_visible` may be.
pub open spec fn visible_count(n: nat, max_visible: nat) -> nat {
    if n <= max_visible { n } else { max_visible }
}

/// The plain `+N more` marker for `hidden` labels left out, if any.
pub open spec fn overflow_marker(hidden: nat) -> Seq<Seq<char>> {
    if hidden > 0 { seq!["+"@ + decimal(hidden) + " more"@] } else { seq![] }
}

/// The colored chips of the first `n` labels.
pub open spec fn chips(seen: Seq<Seq<char>>, labels: Seq<Seq<char>>, n: nat, colors: Seq<LabelColor>) -> Seq<Seq<char>> {
    Seq::new(n, |i: int| render_label_spec(labels[i], colors[chip_index(seen, labels, i) as int]))
}

/// A note's label cell. With `color`, up to `max_visible` chips joined by a
/// single space, colored by each label's palette index; without, the same
/// labels as plain text separated by commas. Either way `+N more` follows
/// when labels are hidden, and no labels give an empty cell.
pub open spec fn render_labels_spec(
    labels: Seq<Seq<char>>,
    max_visible: nat,
    seen: Seq<Seq<char>>,
    color: bool,
    colors: Seq<LabelColor>,
) -> Seq<char> {
    let n = visible_count(labels.len(), max_visible);
    let marker = overflow_marker((labels.len() - n) as nat);
    if color {
        join(chips(seen, labels, n, colors) + marker, " "@)
    } else {
        join(labels.take(n as int) + marker, ", "@)
    }
}

/// Render a note's labels, showing at most `max_visible` and appending
/// `+N more` when some are hidden. `palette` keeps a repeated label's index
/// stable across the notes of one render; `colors[i]` is the color of index
/// `i`.
#[verifier::spinoff_prover]
pub fn render_labels(
    labels: &[String],
    max_visible: usize,
    palette: &mut LabelPalette,
    color: bool,
    colors: &[LabelColor],
) -> (r: String)
    requires
        old(palette).seen().len() + visible_count(labels@.len(), max_visible as nat) <= colors@.len(),
    ensures
        r@ == render_labels_spec(strings_model(labels@), max_visible as nat, old(palette).seen(), color, colors@),
        final(palette).seen() == palette_after(
            old(palette).seen(),
            strings_model(labels@).take(visible_count(labels@.len(), max_visible as nat) as int),
        ),
{
    let ghost lm = strings_model(labels@);
    let ghost seen0 = palette.seen();
    let n = if labels.len() <= max_visible { labels.len() } else { max_visible };
    let mut parts: Vec<String> = Vec::new();
    let mut i: usize = 0;
    while i < n
        invariant
            n == visible_count(labels@.len(), max_visible as nat),
            i <= n <= labels@.len(),
            lm == strings_model(labels@),
            seen0.len() + n <= colors@.len(),
            palette.seen() == palette_after(seen0, lm.take(i as int)),
            palette.seen().len() <= seen0.len() + i,
            color ==> strings_model(parts@) == chips(seen0, lm, i as nat, colors@),
            !color ==> strings_model(parts@) == lm.take(i as int),
        decreases n - i,
    {
        let ghost before = palette.seen();
        let idx = palette.index_for(labels[i].as_str());
        proof {
            lemma_palette_index(before, lm[i as int]);
            assert(lm.take(i + 1).drop_last() =~= lm.take(i as int));
            assert(lm.take(i + 1).last() == lm[i as int]);
            assert(palette.seen() == palette_after(seen0, lm.take(i + 1)));
            assert(idx == chip_index(seen0, lm, i as int));
        }
        let ghost prev = parts@;
        if color {
            let chip = render_label(labels[i].as_str(), colors[idx]);
            parts.push(chip);
            proof {
                assert(strings_model(parts@) =~= strings_model(prev).push(chip@));
                assert(strings_model(parts@) =~= chips(seen0, lm, (i + 1) as nat, colors@));
            }
        } else {
            let plain = string_of(chars_of(labels[i].as_str()).as_slice());
            parts.push(plain);
            proof {
                assert(strings_model(parts@) =~= strings_model(prev).push(plain@));
                assert(strings_model(parts@) =~= lm.take(i + 1));
            }
        }
        i = i + 1;
    }
    let hidden = labels.len() - n;
    let ghost body = strings_model(parts@);
    if hidden > 0 {
        let mut m: Vec<char> = Vec::new();
        extend_str(&mut m, "+");
        let digits = decimal_chars(hidden as u128);
        extend_chars(&mut m, &digits);
        extend_str(&mut m, " more");
        let marker = string_of(m.as_slice());
        parts.push(marker);
        proof {
            assert(strings_model(parts@) =~= body + overflow_marker(hidden as nat));
        }
    } else {
        proof {
            assert(strings_model(parts@) =~= body + overflow_marker(hidden as nat));
        }
    }
    if color {
        join_strings(parts.as_slice(), " ")
    } else {
        join_strings(parts.as_slice(), ", ")
    }
}

/// `s` holds no escape character.
pub open spec fn escape_free(s: Seq<char>) -> bool {
    forall|k: int| 0 <= k < s.len() ==> #[trigger] s[k] != '\x1b'
}

proof fn lemma_join_escape_free(parts: Seq<Seq<char>>, sep: Seq<char>)
    requires
        escape_free(sep),
        forall|i: int| 0 <= i < parts.len() ==> escape_free(#[trigger] parts[i]),
    ensures
        escape_free(join(parts, sep)),
    decreases parts.len(),
{
    if parts.len() > 1 {
        let prev = parts.drop_last();
        assert forall|i: int| 0 <= i < prev.len() implies escape_free(#[trigger] prev[i]) by {
            assert(prev[i] == parts[i]);
        }
        lemma_join_escape_free(prev, sep);
        let a = join(prev, sep);
        let last = parts.last();
        assert(escape_free(last));
        assert forall|k: int| 0 <= k < (a + sep + last).len() implies #[trigger] (a + sep + last)[k] != '\x1b' by {
            if k < a.len() {
                assert((a + sep + last)[k] == a[k]);
            } else if k < a.len() + sep.len() {
                assert((a + sep + last)[k] == sep[k - a.len()]);
            } else {
                assert((a + sep + last)[k] == last[k - a.len() - sep.len()]);
            }
        }
    } else if parts.len() == 1 {
        assert(escape_free(parts[0]));
    }
}

proof fn lemma_decimal_escape_free(n: nat)
    ensures
        escape_free(decimal(n)),
    decreases n,
{
    if n >= 10 {
        lemma_decimal_escape_free(n / 10);
        let d = decimal(n / 10);
        assert forall|k: int| 0 <= k < d.push(crate::text::digit_char(n % 10)).len()
            implies #[trigger] d.push(crate::text::digit_char(n % 10))[k] != '\x1b' by {
            if k < d.len() {
                assert(d.push(crate::text::digit_char(n % 10))[k] == d[k]);
            }
        }
    }
}

/// Without color the label cell holds no escape codes: plain text for
/// piped output, as long as the labels themselves hold none.
pub proof fn law_plain_labels_have_no_escape(
    labels: Seq<Seq<char>>,
    max_visible: nat,
    seen: Seq<Seq<char>>,
    colors: Seq<LabelColor>,
)
    requires
        forall|i: int| 0 <= i < labels.len() ==> escape_free(#[trigger] labels[i]),
    ensures
        escape_free(render_labels_spec(labels, max_visible, seen, false, colors)),
{
    reveal_strlit(", ");
    reveal_strlit("+");
    reveal_strlit(" more");
    let n = visible_count(labels.len(), max_visible);
    let hidden = (labels.len() - n) as nat;
    let parts = labels.take(n as int) + overflow_marker(hidden);
    if hidden > 0 {
        lemma_decimal_escape_free(hidden);
        let m = "+"@ + decimal(hidden) + " more"@;
        assert forall|k: int| 0 <= k < m.len() implies #[trigger] m[k] != '\x1b' by {
            if k == 0 {
                assert(m[k] == '+');
            } else if k < 1 + decimal(hidden).len() {
                assert(m[k] == decimal(hidden)[k - 1]);
            } else {
                assert(m[k] == " more"@[k - 1 - decimal(hidden).len()]);
            }
        }
    }
    assert forall|i: int| 0 <= i < parts.len() implies escape_free(#[trigger] parts[i]) by {
        if i < n {
            assert(parts[i] == labels[i]);
        }
    }
    lemma_join_escape_free(parts, ", "@);
}

} // verus!
