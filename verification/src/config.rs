//! Settings read from the global config file and the `.noki.toml` files on
//! the way from the filesystem root to the current directory.
use vstd::prelude::*;
use crate::text::{chars_of, string_of, str_eq};

verus! {

/// The number of labels shown per note in the list when none is configured.
pub const DEFAULT_MAX_VISIBLE_LABELS: usize = 3;

/// A static metadata value from the `[note] meta` table.
#[derive(Clone, Debug)]
pub enum ConfigValue {
    /// A TOML string.
    Text(String),
    /// Any other TOML value: its TOML rendering, and its YAML rendering when
    /// it has one.
    Other { toml: String, yaml: Option<String> },
}

/// One `key = value` entry of the `[note] meta` table.
#[derive(Clone, Debug)]
pub struct ConfigEntry {
    pub key: String,
    pub value: ConfigValue,
}

/// The `[note]` section.
#[derive(Clone, Debug)]
pub struct NoteConfig {
    pub filename: Option<String>,
    pub daily_filename: Option<String>,
    pub daily_title: Option<String>,
    pub daily_label: Option<String>,
    pub max_width: Option<usize>,
    /// Static metadata, one entry per key.
    pub meta: Vec<ConfigEntry>,
}

/// The `[list]` section.
#[derive(Clone, Copy, Debug, PartialEq, Eq, Structural)]
pub struct ListConfig {
    pub max_visible_labels: Option<usize>,
}

/// The whole configuration.
#[derive(Clone, Debug)]
pub struct Config {
    pub repository: Option<String>,
    pub note: NoteConfig,
    pub list: ListConfig,
}

/// The error for an unset repository.
#[derive(Clone, Copy, Debug, PartialEq, Eq, Structural)]
pub enum ConfigError {
    NoRepository,
}

impl ConfigError {
    pub open spec fn message_spec(self) -> Seq<char> {
        "No repository configured. Set one with --repository or in .noki.toml."@
    }

    /// The human-readable description of the error.
    pub fn message(&self) -> (r: String)
        ensures
            r@ == self.message_spec(),
    {
        string_of(chars_of("No repository configured. Set one with --repository or in .noki.toml.").as_slice())
    }
}

/// The value `key` maps to: the first entry with that key.
pub open spec fn meta_get(meta: Seq<ConfigEntry>, key: Seq<char>) -> Option<ConfigValue>
    decreases meta.len(),
{
    if meta.len() == 0 {
        None
    } else if meta[0].key@ == key {
        Some(meta[0].value)
    } else {
        meta_get(meta.drop_first(), key)
    }
}

/// No key occurs twice.
pub open spec fn keys_unique(meta: Seq<ConfigEntry>) -> bool {
    forall|i: int, j: int| 0 <= i < j < meta.len() ==> #[trigger] meta[i].key@ != #[trigger] meta[j].key@
}

/// An empty `[note]` section.
pub open spec fn note_config_empty(n: NoteConfig) -> bool {
    &&& n.filename is None
    &&& n.daily_filename is None
    &&& n.daily_title is None
    &&& n.daily_label is None
    &&& n.max_width is None
    &&& n.meta@.len() == 0
}

impl Default for NoteConfig {
    fn default() -> (r: NoteConfig)
        ensures
            note_config_empty(r),
    {
        NoteConfig {
            filename: None,
            daily_filename: None,
            daily_title: None,
            daily_label: None,
            max_width: None,
            meta: Vec::new(),
        }
    }
}

impl Default for ListConfig {
    fn default() -> (r: ListConfig)
        ensures
            r.max_visible_labels is None,
    {
        ListConfig { max_visible_labels: None }
    }
}

impl Config {
    /// A well-formed configuration: its meta keys are distinct, as the keys
    /// of the TOML table they come from are.
    pub open spec fn wf(self) -> bool {
        keys_unique(self.note.meta@)
    }
}

impl Default for Config {
    fn default() -> (r: Config)
        ensures
            r.wf(),
            r.repository is None,
            note_config_empty(r.note),
            r.list.max_visible_labels is None,
    {
        Config { repository: None, note: NoteConfig::default(), list: ListConfig::default() }
    }
}

/// `a` if set, else `b`.
pub open spec fn later<T>(a: Option<T>, b: Option<T>) -> Option<T> {
    if a is Some { a } else { b }
}

fn take_later(a: Option<String>, b: Option<String>) -> (r: Option<String>)
    ensures
        r == later(a, b),
{
    if a.is_some() { a } else { b }
}

impl Config {
    /// The resolved repository, or an error if none was configured.
    pub fn repository(&self) -> (r: Result<String, ConfigError>)
        ensures
            match self.repository {
                Some(s) => r matches Ok(x) && x@ == s@,
                None => r == Err::<String, ConfigError>(ConfigError::NoRepository),
            },
    {
        match &self.repository {
            Some(s) => Ok(string_of(chars_of(s.as_str()).as_slice())),
            None => Err(ConfigError::NoRepository),
        }
    }

    /// The maximum number of labels to show per note in the list.
    pub fn max_visible_labels(&self) -> (r: usize)
        ensures
            r == match self.list.max_visible_labels {
                Some(n) => n,
                None => DEFAULT_MAX_VISIBLE_LABELS,
            },
    {
        match self.list.max_visible_labels {
            Some(n) => n,
            None => DEFAULT_MAX_VISIBLE_LABELS,
        }
    }

    /// Layer `other` (a config file nearer the current directory) over this
    /// one: every setting `other` has replaces this one's, and `other`'s meta
    /// entries are added, replacing entries with the same key.
    #[verifier::spinoff_prover]
    pub fn merge(&mut self, other: Config)
        requires
            keys_unique(old(self).note.meta@),
            keys_unique(other.note.meta@),
        ensures
            final(self).repository == later(other.repository, old(self).repository),
            final(self).note.filename == later(other.note.filename, old(self).note.filename),
            final(self).note.daily_filename == later(other.note.daily_filename, old(self).note.daily_filename),
            final(self).note.daily_title == later(other.note.daily_title, old(self).note.daily_title),
            final(self).note.daily_label == later(other.note.daily_label, old(self).note.daily_label),
            final(self).note.max_width == later(other.note.max_width, old(self).note.max_width),
            final(self).list.max_visible_labels == later(other.list.max_visible_labels, old(self).list.max_visible_labels),
            keys_unique(final(self).note.meta@),
            forall|k: Seq<char>| #[trigger] meta_get(final(self).note.meta@, k) == later(meta_get(other.note.meta@, k), meta_get(old(self).note.meta@, k)),
    {
        let Config { repository, note, list } = other;
        let mut meta: Vec<ConfigEntry> = Vec::new();
        std::mem::swap(&mut meta, &mut self.note.meta);
        let ghost before = meta@;
        let ghost incoming = note.meta@;
        let total = note.meta.len();
        let mut pending = note.meta;
        let mut i: usize = 0;
        while pending.len() > 0
            invariant
                i <= incoming.len(),
                total == incoming.len(),
                pending@ == incoming.skip(i as int),
                keys_unique(incoming),
                keys_unique(meta@),
                forall|k: Seq<char>| #[trigger] meta_get(meta@, k) == later(meta_get(incoming.take(i as int), k), meta_get(before, k)),
            decreases pending.len(),
        {
            assert(i < incoming.len());
            let e = pending.remove(0);
            let ghost ent = incoming[i as int];
            assert(e == ent);
            insert_entry(&mut meta, e);
            proof {
                assert(incoming.take(i + 1) =~= incoming.take(i as int).push(ent));
                assert forall|j: int| 0 <= j < i implies #[trigger] incoming.take(i as int)[j].key@ != ent.key@ by {
                    assert(incoming.take(i as int)[j] == incoming[j]);
                }
                lemma_meta_get_at(incoming.take(i as int), ent.key@, i as int);
                assert forall|k: Seq<char>| #[trigger] meta_get(meta@, k) == later(meta_get(incoming.take(i + 1), k), meta_get(before, k)) by {
                    lemma_meta_get_push(incoming.take(i as int), ent, k);
                }
                assert(incoming.skip(i + 1) =~= incoming.skip(i as int).drop_first());
            }
            i = i + 1;
        }
        proof {
            assert(incoming.take(incoming.len() as int) =~= incoming);
        }
        self.note.meta = meta;
        self.repository = take_later(repository, self.repository.take());
        self.note.filename = take_later(note.filename, self.note.filename.take());
        self.note.daily_filename = take_later(note.daily_filename, self.note.daily_filename.take());
        self.note.daily_title = take_later(note.daily_title, self.note.daily_title.take());
        self.note.daily_label = take_later(note.daily_label, self.note.daily_label.take());
        if note.max_width.is_some() {
            self.note.max_width = note.max_width;
        }
        if list.max_visible_labels.is_some() {
            self.list.max_visible_labels = list.max_visible_labels;
        }
    }
}

/// Every config's meta keys are distinct.
pub open spec fn all_keys_unique(configs: Seq<Config>) -> bool {
    forall|i: int| 0 <= i < configs.len() ==> keys_unique(#[trigger] configs[i].note.meta@)
}

/// The last setting among `values` that is set, else `base`.
pub open spec fn last_set<T>(base: Option<T>, values: Seq<Option<T>>) -> Option<T>
    decreases values.len(),
{
    if values.len() == 0 {
        base
    } else {
        later(values.last(), last_set(base, values.drop_last()))
    }
}

/// The nearest file that sets a setting decides it: whatever the farther
/// files and the global file say, and however many nearer files leave it
/// unset.
pub proof fn law_nearest_setting_wins<T>(base: Option<T>, values: Seq<Option<T>>, i: int)
    requires
        0 <= i < values.len(),
        values[i] is Some,
        forall|j: int| i < j < values.len() ==> #[trigger] values[j] is None,
    ensures
        last_set(base, values) == values[i],
    decreases values.len(),
{
    if i < values.len() - 1 {
        let prev = values.drop_last();
        assert forall|j: int| i < j < prev.len() implies #[trigger] prev[j] is None by {
            assert(prev[j] == values[j]);
        }
        law_nearest_setting_wins(base, prev, i);
        assert(values.last() is None);
    }
}

/// The meta value for `k` after layering `layers` over `base`: the nearest
/// layer that has the key wins.
pub open spec fn layered_meta(base: Seq<ConfigEntry>, layers: Seq<Config>, k: Seq<char>) -> Option<ConfigValue>
    decreases layers.len(),
{
    if layers.len() == 0 {
        meta_get(base, k)
    } else {
        later(meta_get(layers.last().note.meta@, k), layered_meta(base, layers.drop_last(), k))
    }
}

/// A setting of the global config, if there is one.
pub open spec fn global_setting<T>(global: Option<Config>, f: spec_fn(Config) -> Option<T>) -> Option<T> {
    match global {
        Some(g) => f(g),
        None => None,
    }
}

/// The meta entries of the global config, if there is one.
pub open spec fn global_meta(global: Option<Config>) -> Seq<ConfigEntry> {
    match global {
        Some(g) => g.note.meta@,
        None => seq![],
    }
}

/// The configuration in effect: the global file's settings (or none), each
/// local `.noki.toml` layered over them from the filesystem root down to
/// the current directory, and finally the `--repository` override.
#[verifier::spinoff_prover]
pub fn resolve(global: Option<Config>, locals: Vec<Config>, repository_override: Option<String>) -> (r: Config)
    requires
        global matches Some(g) ==> keys_unique(g.note.meta@),
        all_keys_unique(locals@),
    ensures
        r.repository == later(repository_override, last_set(global_setting(global, |c: Config| c.repository), locals@.map_values(|c: Config| c.repository))),
        r.note.filename == last_set(global_setting(global, |c: Config| c.note.filename), locals@.map_values(|c: Config| c.note.filename)),
        r.note.daily_filename == last_set(global_setting(global, |c: Config| c.note.daily_filename), locals@.map_values(|c: Config| c.note.daily_filename)),
        r.note.daily_title == last_set(global_setting(global, |c: Config| c.note.daily_title), locals@.map_values(|c: Config| c.note.daily_title)),
        r.note.daily_label == last_set(global_setting(global, |c: Config| c.note.daily_label), locals@.map_values(|c: Config| c.note.daily_label)),
        r.note.max_width == last_set(global_setting(global, |c: Config| c.note.max_width), locals@.map_values(|c: Config| c.note.max_width)),
        r.list.max_visible_labels == last_set(global_setting(global, |c: Config| c.list.max_visible_labels), locals@.map_values(|c: Config| c.list.max_visible_labels)),
        keys_unique(r.note.meta@),
        forall|k: Seq<char>| #[trigger] meta_get(r.note.meta@, k) == layered_meta(global_meta(global), locals@, k),
{
    let mut config = match global {
        Some(g) => g,
        None => Config::default(),
    };
    let ghost base = config;
    proof {
        assert(base.note.meta@ == global_meta(global));
    }
    let ghost all = locals@;
    let mut pending = locals;
    let mut i: usize = 0;
    let total = pending.len();
    while pending.len() > 0
        invariant
            i <= all.len(),
            total == all.len(),
            pending@ == all.skip(i as int),
            all_keys_unique(all),
            keys_unique(config.note.meta@),
            config.repository == last_set(base.repository, all.take(i as int).map_values(|c: Config| c.repository)),
            config.note.filename == last_set(base.note.filename, all.take(i as int).map_values(|c: Config| c.note.filename)),
            config.note.daily_filename == last_set(base.note.daily_filename, all.take(i as int).map_values(|c: Config| c.note.daily_filename)),
            config.note.daily_title == last_set(base.note.daily_title, all.take(i as int).map_values(|c: Config| c.note.daily_title)),
            config.note.daily_label == last_set(base.note.daily_label, all.take(i as int).map_values(|c: Config| c.note.daily_label)),
            config.note.max_width == last_set(base.note.max_width, all.take(i as int).map_values(|c: Config| c.note.max_width)),
            config.list.max_visible_labels == last_set(base.list.max_visible_labels, all.take(i as int).map_values(|c: Config| c.list.max_visible_labels)),
            forall|k: Seq<char>| #[trigger] meta_get(config.note.meta@, k) == layered_meta(base.note.meta@, all.take(i as int), k),
        decreases pending.len(),
    {
        assert(all.skip(i as int)[0] == all[i as int]);
        let next = pending.remove(0);
        proof {
            assert(pending@ =~= all.skip(i + 1));
            let t = all.take(i + 1);
            assert(t.drop_last() =~= all.take(i as int));
            assert(t.last() == all[i as int]);
            assert(t.map_values(|c: Config| c.repository).drop_last() =~= all.take(i as int).map_values(|c: Config| c.repository));
            assert(t.map_values(|c: Config| c.note.filename).drop_last() =~= all.take(i as int).map_values(|c: Config| c.note.filename));
            assert(t.map_values(|c: Config| c.note.daily_filename).drop_last() =~= all.take(i as int).map_values(|c: Config| c.note.daily_filename));
            assert(t.map_values(|c: Config| c.note.daily_title).drop_last() =~= all.take(i as int).map_values(|c: Config| c.note.daily_title));
            assert(t.map_values(|c: Config| c.note.daily_label).drop_last() =~= all.take(i as int).map_values(|c: Config| c.note.daily_label));
            assert(t.map_values(|c: Config| c.note.max_width).drop_last() =~= all.take(i as int).map_values(|c: Config| c.note.max_width));
            assert(t.map_values(|c: Config| c.list.max_visible_labels).drop_last() =~= all.take(i as int).map_values(|c: Config| c.list.max_visible_labels));
        }
        config.merge(next);
        i = i + 1;
    }
    proof {
        assert(all.take(all.len() as int) =~= all);
    }
    if repository_override.is_some() {
        config.repository = repository_override;
    }
    config
}

/// Adding an entry at the end: later entries only answer keys the earlier
/// ones do not.
proof fn lemma_meta_get_push(meta: Seq<ConfigEntry>, e: ConfigEntry, k: Seq<char>)
    ensures
        meta_get(meta.push(e), k) == later(meta_get(meta, k), if e.key@ == k { Some(e.value) } else { None }),
    decreases meta.len(),
{
    reveal_with_fuel(meta_get, 2);
    if meta.len() > 0 {
        assert(meta.push(e)[0] == meta[0]);
        assert(meta.push(e).drop_first() =~= meta.drop_first().push(e));
        lemma_meta_get_push(meta.drop_first(), e, k);
    } else {
        assert(meta.push(e)[0] == e);
        assert(meta.push(e).drop_first() =~= Seq::<ConfigEntry>::empty());
    }
}

/// `meta_get` finds the entry at the first index with the key.
proof fn lemma_meta_get_at(meta: Seq<ConfigEntry>, k: Seq<char>, i: int)
    requires
        0 <= i <= meta.len(),
        forall|j: int| 0 <= j < i ==> #[trigger] meta[j].key@ != k,
        i < meta.len() ==> meta[i].key@ == k,
    ensures
        meta_get(meta, k) == if i < meta.len() { Some(meta[i].value) } else { None },
    decreases i,
{
    if i > 0 {
        let t = meta.drop_first();
        assert forall|j: int| 0 <= j < i - 1 implies #[trigger] t[j].key@ != k by {
            assert(t[j] == meta[j + 1]);
        }
        if i < meta.len() {
            assert(t[i - 1] == meta[i]);
        }
        assert(meta[0].key@ != k);
        lemma_meta_get_at(t, k, i - 1);
    }
}

/// Insert `e`, replacing the entry with the same key if there is one.
fn insert_entry(meta: &mut Vec<ConfigEntry>, e: ConfigEntry)
    requires
        keys_unique(old(meta)@),
    ensures
        keys_unique(final(meta)@),
        forall|k: Seq<char>| #[trigger] meta_get(final(meta)@, k) == if k == e.key@ { Some(e.value) } else { meta_get(old(meta)@, k) },
{
    let mut i: usize = 0;
    while i < meta.len()
        invariant
            i <= meta@.len(),
            meta@ == old(meta)@,
            keys_unique(meta@),
            forall|j: int| 0 <= j < i ==> #[trigger] meta@[j].key@ != e.key@,
        decreases meta.len() - i,
    {
        if str_eq(meta[i].key.as_str(), e.key.as_str()) {
            let ghost before = meta@;
            let ghost ek = e.key@;
            let ghost ev = e.value;
            meta.set(i, e);
            proof {
                assert forall|k: Seq<char>| #[trigger] meta_get(meta@, k) == if k == ek { Some(ev) } else { meta_get(before, k) } by {
                    if k == ek {
                        assert forall|j: int| 0 <= j < i implies #[trigger] meta@[j].key@ != k by {
                            assert(meta@[j] == before[j]);
                        }
                        lemma_meta_get_at(meta@, k, i as int);
                    } else {
                        lemma_meta_get_same(before, meta@, k, i as int);
                    }
                }
                assert forall|a: int, b: int| 0 <= a < b < meta@.len() implies #[trigger] meta@[a].key@ != #[trigger] meta@[b].key@ by {
                    if a != i && b != i {
                        assert(meta@[a] == before[a] && meta@[b] == before[b]);
                    } else if a == i {
                        assert(meta@[b] == before[b]);
                        assert(before[a].key@ == ek);
                        assert(before[a].key@ != before[b].key@);
                    } else {
                        assert(meta@[a] == before[a]);
                        assert(before[b].key@ == ek);
                        assert(before[a].key@ != before[b].key@);
                    }
                }
            }
            return;
        }
        i = i + 1;
    }
    let ghost before = meta@;
    let ghost ek = e.key@;
    let ghost ev = e.value;
    meta.push(e);
    proof {
        assert forall|k: Seq<char>| #[trigger] meta_get(meta@, k) == if k == ek { Some(ev) } else { meta_get(before, k) } by {
            lemma_meta_get_push(before, ConfigEntry { key: meta@.last().key, value: ev }, k);
            assert(meta@ =~= before.push(meta@.last()));
            if k == ek {
                lemma_meta_get_at(before, k, before.len() as int);
            }
        }
        assert forall|a: int, b: int| 0 <= a < b < meta@.len() implies #[trigger] meta@[a].key@ != #[trigger] meta@[b].key@ by {
            if b < before.len() {
                assert(meta@[a] == before[a] && meta@[b] == before[b]);
            } else {
                assert(meta@[a] == before[a]);
                assert(before[a].key@ != ek);
                assert(meta@[b].key@ == ek);
            }
        }
    }
}

/// Replacing the entry at `i` (which holds some other key) keeps `k`'s value.
proof fn lemma_meta_get_same(a: Seq<ConfigEntry>, b: Seq<ConfigEntry>, k: Seq<char>, i: int)
    requires
        a.len() == b.len(),
        0 <= i < a.len(),
        forall|j: int| 0 <= j < a.len() && j != i ==> a[j] == b[j],
        a[i].key@ != k,
        b[i].key@ != k,
    ensures
        meta_get(b, k) == meta_get(a, k),
    decreases a.len(),
{
    if a.len() > 0 {
        if i == 0 {
            assert(a.drop_first() =~= b.drop_first());
        } else {
            assert(a[0] == b[0]);
            lemma_meta_get_same(a.drop_first(), b.drop_first(), k, i - 1);
        }
    }
}

} // verus!
