//! Where notes are stored: the version-control interface the commands use,
//! and an in-memory store that behaves like one.
use vstd::prelude::*;
use crate::note::strings_model;
use crate::text::{
    chars_of, lemma_seq_lt_irreflexive, lemma_seq_lt_total, lemma_seq_lt_transitive, seq_lt, str_eq,
    str_lt, string_of,
};

verus! {

/// Why a storage operation failed.
#[derive(Debug)]
pub enum VcsError {
    /// There is no note file at this path.
    NoNote { path: String },
    /// The backend itself failed (a Git or filesystem error), described.
    Failed { message: String },
}

impl VcsError {
    /// The text shown for this error.
    pub open spec fn message_spec(self) -> Seq<char> {
        match self {
            VcsError::NoNote { path } => "No note at "@ + path@,
            VcsError::Failed { message } => message@,
        }
    }

    /// The text shown for this error.
    pub fn message(&self) -> (r: String)
        ensures
            r@ == self.message_spec(),
    {
        match self {
            VcsError::NoNote { path } => {
                let mut out = chars_of("No note at ");
                let p = chars_of(path.as_str());
                crate::text::extend_chars(&mut out, &p);
                string_of(out.as_slice())
            },
            VcsError::Failed { message } => string_of(chars_of(message.as_str()).as_slice()),
        }
    }
}

/// Backend-agnostic storage for notes, backed by a version-control system.
pub trait VersionControl {
    /// Repository-relative paths of every note file (`*.md`), using `/`
    /// separators.
    fn list_files(&self) -> Result<Vec<String>, VcsError>;

    /// The raw contents of a single note file.
    fn read_file(&self, path: &str) -> Result<String, VcsError>;

    /// Write a note file and record it (commit, and push when a remote
    /// exists).
    fn write_file(&mut self, path: &str, contents: &str, message: &str) -> Result<(), VcsError>;

    /// Bring in the latest notes from the remote, if there is one.
    fn refresh(&mut self) -> Result<(), VcsError>;
}

/// Every key sorts strictly before the keys after it.
pub open spec fn strictly_sorted(keys: Seq<Seq<char>>) -> bool {
    forall|i: int, j: int| 0 <= i < j < keys.len() ==> seq_lt(#[trigger] keys[i], #[trigger] keys[j])
}

/// The paths of stored entries.
pub open spec fn entry_keys(entries: Seq<(Seq<char>, Seq<char>)>) -> Seq<Seq<char>> {
    entries.map_values(|e: (Seq<char>, Seq<char>)| e.0)
}

/// A position of an entry stored at `k`.
pub open spec fn entry_at(entries: Seq<(Seq<char>, Seq<char>)>, k: Seq<char>) -> int {
    choose|i: int| 0 <= i < entries.len() && #[trigger] entries[i].0 == k
}

/// The path-to-contents map of entries whose paths are distinct.
pub open spec fn entries_map(entries: Seq<(Seq<char>, Seq<char>)>) -> Map<Seq<char>, Seq<char>> {
    Map::new(
        |k: Seq<char>| exists|i: int| 0 <= i < entries.len() && #[trigger] entries[i].0 == k,
        |k: Seq<char>| entries[entry_at(entries, k)].1,
    )
}

proof fn lemma_entries_map_at(entries: Seq<(Seq<char>, Seq<char>)>, i: int)
    requires
        0 <= i < entries.len(),
        strictly_sorted(entry_keys(entries)),
    ensures
        entries_map(entries).contains_key(entries[i].0),
        entries_map(entries)[entries[i].0] == entries[i].1,
{
    let k = entries[i].0;
    assert(entry_keys(entries)[i] == k);
    let m = entries_map(entries);
    assert(m.dom().contains(k));
    let j = entry_at(entries, k);
    assert(0 <= j < entries.len() && entries[j].0 == k);
    assert(m[k] == entries[j].1);
    assert(entry_keys(entries)[j] == k);
    lemma_seq_lt_irreflexive(k);
    if j < i {
        assert(seq_lt(entry_keys(entries)[j], entry_keys(entries)[i]));
    }
    if i < j {
        assert(seq_lt(entry_keys(entries)[i], entry_keys(entries)[j]));
    }
}

/// An in-memory note store, sorted by path like a `BTreeMap`.
pub struct MemoryBackend {
    files: Vec<(String, String)>,
}

impl MemoryBackend {
    #[verifier::type_invariant]
    spec fn sorted(self) -> bool {
        strictly_sorted(entry_keys(self.entries()))
    }

    spec fn entries(self) -> Seq<(Seq<char>, Seq<char>)> {
        self.files@.map_values(|e: (String, String)| (e.0@, e.1@))
    }

    /// The stored files: path to contents.
    pub closed spec fn files(self) -> Map<Seq<char>, Seq<char>> {
        entries_map(self.entries())
    }

    /// An empty store.
    pub fn new() -> (b: Self)
        ensures
            b.files() == Map::<Seq<char>, Seq<char>>::empty(),
    {
        let b = MemoryBackend { files: Vec::new() };
        assert(b.files() =~= Map::<Seq<char>, Seq<char>>::empty());
        b
    }

    /// A store holding `entries`, written in order (a later entry for the
    /// same path wins).
    pub fn with_files(entries: &[(&str, &str)]) -> (b: Self)
        ensures
            b.files() == seeded(pairs_model(entries@)),
    {
        let mut b = MemoryBackend::new();
        let ghost pm = pairs_model(entries@);
        let mut i: usize = 0;
        while i < entries.len()
            invariant
                i <= entries@.len(),
                pm == pairs_model(entries@),
                b.files() == seeded(pm.take(i as int)),
            decreases entries.len() - i,
        {
            let (path, contents) = entries[i];
            let _ = b.store(path, contents);
            proof {
                assert(pm.take(i + 1).drop_last() =~= pm.take(i as int));
                assert(pm.take(i + 1).last() == (path@, contents@));
            }
            i = i + 1;
        }
        assert(pm.take(entries@.len() as int) =~= pm);
        b
    }

    /// The first position whose path does not sort before `path`.
    fn position(&self, path: &str) -> (p: usize)
        ensures
            p <= self.entries().len(),
            forall|k: int| 0 <= k < p ==> seq_lt(#[trigger] self.entries()[k].0, path@),
            p < self.entries().len() ==> !seq_lt(self.entries()[p as int].0, path@),
    {
        proof {
            use_type_invariant(self);
        }
        let mut p: usize = 0;
        while p < self.files.len()
            invariant
                p <= self.files@.len(),
                forall|k: int| 0 <= k < p ==> seq_lt(#[trigger] self.entries()[k].0, path@),
            decreases self.files.len() - p,
        {
            if !str_lt(self.files[p].0.as_str(), path) {
                return p;
            }
            p = p + 1;
        }
        p
    }

    /// Put `contents` at `path`, replacing what was there.
    #[verifier::spinoff_prover]
    fn store(&mut self, path: &str, contents: &str)
        ensures
            final(self).files() == old(self).files().insert(path@, contents@),
    {
        proof {
            use_type_invariant(&*self);
        }
        let ghost e = self.entries();
        let p = self.position(path);
        let entry = (string_of(chars_of(path).as_slice()), string_of(chars_of(contents).as_slice()));
        let mut files: Vec<(String, String)> = Vec::new();
        std::mem::swap(&mut files, &mut self.files);
        let replace = p < files.len() && str_eq(files[p].0.as_str(), path);
        let ghost keys = entry_keys(e);
        if replace {
            files.set(p, entry);
            proof {
                let e2 = files@.map_values(|x: (String, String)| (x.0@, x.1@));
                assert(e2 =~= e.update(p as int, (path@, contents@)));
                assert(entry_keys(e2) =~= keys);
                lemma_entries_map_at(e2, p as int);
                assert forall|k: Seq<char>| #[trigger] entries_map(e2).contains_key(k)
                    <==> entries_map(e).insert(path@, contents@).contains_key(k) by {
                    if entries_map(e2).contains_key(k) {
                        let j = choose|j: int| 0 <= j < e2.len() && #[trigger] e2[j].0 == k;
                        assert(e2[j].0 == e[j].0);
                    }
                    if entries_map(e).contains_key(k) {
                        let j = choose|j: int| 0 <= j < e.len() && #[trigger] e[j].0 == k;
                        assert(e2[j].0 == e[j].0);
                    }
                }
                assert forall|k: Seq<char>| #[trigger] entries_map(e2).contains_key(k) && k != path@
                    implies entries_map(e2)[k] == entries_map(e)[k] by {
                    let j = choose|j: int| 0 <= j < e2.len() && #[trigger] e2[j].0 == k;
                    assert(j != p);
                    lemma_entries_map_at(e2, j);
                    lemma_entries_map_at(e, j);
                }
                assert(entries_map(e2) =~= entries_map(e).insert(path@, contents@));
            }
        } else {
            files.insert(p, entry);
            proof {
                let e2 = files@.map_values(|x: (String, String)| (x.0@, x.1@));
                assert(e2 =~= e.insert(p as int, (path@, contents@)));
                if p < e.len() {
                    lemma_seq_lt_total(e[p as int].0, path@);
                }
                let keys2 = entry_keys(e2);
                assert forall|i: int, j: int| 0 <= i < j < keys2.len() implies seq_lt(#[trigger] keys2[i], #[trigger] keys2[j]) by {
                    if j < p {
                        assert(keys2[i] == keys[i] && keys2[j] == keys[j]);
                    } else if i > p {
                        assert(keys2[i] == keys[i - 1] && keys2[j] == keys[j - 1]);
                    } else if i == p {
                        assert(keys2[j] == keys[j - 1]);
                        if j - 1 > p {
                            assert(seq_lt(keys[p as int], keys[j - 1]));
                            lemma_seq_lt_transitive(path@, keys[p as int], keys[j - 1]);
                        }
                    } else if j == p {
                        assert(keys2[i] == keys[i]);
                        assert(seq_lt(e[i].0, path@));
                    } else {
                        assert(keys2[i] == keys[i] && keys2[j] == keys[j - 1]);
                        assert(seq_lt(e[i].0, path@));
                        assert(seq_lt(path@, keys[j - 1])) by {
                            if j - 1 > p {
                                assert(seq_lt(keys[p as int], keys[j - 1]));
                                lemma_seq_lt_transitive(path@, keys[p as int], keys[j - 1]);
                            }
                        }
                        lemma_seq_lt_transitive(keys[i], path@, keys[j - 1]);
                    }
                }
                lemma_entries_map_at(e2, p as int);
                assert forall|k: Seq<char>| #[trigger] entries_map(e2).contains_key(k)
                    <==> entries_map(e).insert(path@, contents@).contains_key(k) by {
                    if entries_map(e2).contains_key(k) {
                        let j = choose|j: int| 0 <= j < e2.len() && #[trigger] e2[j].0 == k;
                        if j < p {
                            assert(e2[j].0 == e[j].0);
                        } else if j > p {
                            assert(e2[j].0 == e[j - 1].0);
                        }
                    }
                    if entries_map(e).contains_key(k) {
                        let j = choose|j: int| 0 <= j < e.len() && #[trigger] e[j].0 == k;
                        if j < p {
                            assert(e2[j].0 == e[j].0);
                        } else {
                            assert(e2[j + 1].0 == e[j].0);
                        }
                    }
                }
                assert forall|k: Seq<char>| #[trigger] entries_map(e2).contains_key(k) && k != path@
                    implies entries_map(e2)[k] == entries_map(e)[k] by {
                    let j = choose|j: int| 0 <= j < e2.len() && #[trigger] e2[j].0 == k;
                    lemma_entries_map_at(e2, j);
                    if j < p {
                        lemma_entries_map_at(e, j);
                    } else {
                        assert(j != p);
                        lemma_entries_map_at(e, j - 1);
                    }
                }
                assert(entries_map(e2) =~= entries_map(e).insert(path@, contents@));
            }
        }
        self.files = files;
    }
}

/// The `(path, contents)` pairs of `entries`.
pub open spec fn pairs_model(entries: Seq<(&str, &str)>) -> Seq<(Seq<char>, Seq<char>)> {
    entries.map_values(|e: (&str, &str)| (e.0@, e.1@))
}

/// The files after writing each of `entries` in order into an empty store.
pub open spec fn seeded(entries: Seq<(Seq<char>, Seq<char>)>) -> Map<Seq<char>, Seq<char>>
    decreases entries.len(),
{
    if entries.len() == 0 {
        Map::empty()
    } else {
        seeded(entries.drop_last()).insert(entries.last().0, entries.last().1)
    }
}

impl VersionControl for MemoryBackend {
    /// Every stored path, each once, in sorted order.
    #[verifier::spinoff_prover]
    fn list_files(&self) -> (r: Result<Vec<String>, VcsError>)
        ensures
            r matches Ok(v) && strictly_sorted(strings_model(v@)) && strings_model(v@).to_set() == self.files().dom(),
    {
        proof {
            use_type_invariant(self);
        }
        let ghost e = self.entries();
        let mut out: Vec<String> = Vec::new();
        let mut i: usize = 0;
        while i < self.files.len()
            invariant
                i <= self.files@.len(),
                e == self.entries(),
                strings_model(out@) == entry_keys(e).take(i as int),
            decreases self.files.len() - i,
        {
            let ghost prev = out@;
            let k = string_of(chars_of(self.files[i].0.as_str()).as_slice());
            out.push(k);
            proof {
                assert(strings_model(out@) =~= strings_model(prev).push(k@));
                assert(entry_keys(e).take(i + 1) =~= entry_keys(e).take(i as int).push(e[i as int].0));
            }
            i = i + 1;
        }
        proof {
            let keys = entry_keys(e);
            assert(keys.take(e.len() as int) =~= keys);
            assert forall|k: Seq<char>| #[trigger] keys.to_set().contains(k) <==> self.files().dom().contains(k) by {
                if keys.to_set().contains(k) {
                    let j = choose|j: int| 0 <= j < keys.len() && keys[j] == k;
                    assert(e[j].0 == k);
                }
                if self.files().dom().contains(k) {
                    let j = choose|j: int| 0 <= j < e.len() && #[trigger] e[j].0 == k;
                    assert(keys[j] == k);
                }
            }
            assert(keys.to_set() =~= self.files().dom());
        }
        Ok(out)
    }

    /// The stored contents, or [`VcsError::NoNote`] when nothing is stored at
    /// `path`.
    #[verifier::spinoff_prover]
    fn read_file(&self, path: &str) -> (r: Result<String, VcsError>)
        ensures
            match r {
                Ok(c) => self.files().contains_key(path@) && c@ == self.files()[path@],
                Err(e) => !self.files().contains_key(path@) && (e matches VcsError::NoNote { path: p } && p@ == path@),
            },
    {
        proof {
            use_type_invariant(self);
        }
        let ghost e = self.entries();
        let p = self.position(path);
        if p < self.files.len() && str_eq(self.files[p].0.as_str(), path) {
            proof {
                lemma_entries_map_at(e, p as int);
            }
            Ok(string_of(chars_of(self.files[p].1.as_str()).as_slice()))
        } else {
            proof {
                if self.files().contains_key(path@) {
                    let j = choose|j: int| 0 <= j < e.len() && #[trigger] e[j].0 == path@;
                    assert(entry_keys(e)[j] == e[j].0);
                    if j < p {
                        lemma_seq_lt_irreflexive(path@);
                    } else if j > p {
                        assert(entry_keys(e)[p as int] == e[p as int].0);
                        assert(seq_lt(e[p as int].0, path@) || e[p as int].0 == path@) by {
                            lemma_seq_lt_total(e[p as int].0, path@);
                            if !seq_lt(e[p as int].0, path@) && e[p as int].0 != path@ {
                                lemma_seq_lt_transitive(path@, e[p as int].0, path@);
                                lemma_seq_lt_irreflexive(path@);
                            }
                        }
                    }
                }
            }
            Err(VcsError::NoNote { path: string_of(chars_of(path).as_slice()) })
        }
    }

    /// Store `contents` at `path`; the message is not kept.
    fn write_file(&mut self, path: &str, contents: &str, message: &str) -> (r: Result<(), VcsError>)
        ensures
            r is Ok,
            final(self).files() == old(self).files().insert(path@, contents@),
    {
        self.store(path, contents);
        Ok(())
    }

    /// There is no remote: nothing changes.
    fn refresh(&mut self) -> (r: Result<(), VcsError>)
        ensures
            r is Ok,
            final(self).files() == old(self).files(),
    {
        Ok(())
    }
}

/// A directory entry named `name` is a note file: not hidden (no leading
/// `.`) and with the `md` extension.
pub open spec fn is_note_file_spec(name: Seq<char>) -> bool {
    &&& !(name.len() > 0 && name[0] == '.')
    &&& name.len() >= 3 && name.subrange(name.len() - 3, name.len() as int) == ".md"@
}

/// Whether a directory entry named `name` is a note file (`*.md`, not
/// hidden).
pub fn is_note_file(name: &str) -> (r: bool)
    ensures
        r == is_note_file_spec(name@),
{
    let v = chars_of(name);
    let n = v.len();
    if n > 0 && v[0] == '.' {
        return false;
    }
    if n < 3 {
        return false;
    }
    let r = v[n - 3] == '.' && v[n - 2] == 'm' && v[n - 1] == 'd';
    proof {
        reveal_strlit(".md");
        let tail = name@.subrange(n - 3, n as int);
        if r {
            assert(tail =~= ".md"@);
        } else if tail == ".md"@ {
            assert(tail[0] == v@[n - 3] && tail[1] == v@[n - 2] && tail[2] == v@[n - 1]);
        }
    }
    r
}

/// The character kept in a clone directory name: ASCII letters and digits
/// as they are, anything else as `_`.
pub open spec fn dir_name_char(c: char) -> char {
    if ('a' <= c && c <= 'z') || ('A' <= c && c <= 'Z') || ('0' <= c && c <= '9') { c } else { '_' }
}

/// The directory name the working clone of `url` is kept under.
pub fn clone_dir_name(url: &str) -> (r: String)
    ensures
        r@ == url@.map_values(|c: char| dir_name_char(c)),
{
    let v = chars_of(url);
    let mut out: Vec<char> = Vec::new();
    let mut i: usize = 0;
    while i < v.len()
        invariant
            i <= v@.len(),
            v@ == url@,
            out@ == v@.take(i as int).map_values(|c: char| dir_name_char(c)),
        decreases v.len() - i,
    {
        let c = v[i];
        let d = if ('a' <= c && c <= 'z') || ('A' <= c && c <= 'Z') || ('0' <= c && c <= '9') { c } else { '_' };
        out.push(d);
        proof {
            assert(v@.take(i + 1) =~= v@.take(i as int).push(c));
        }
        i = i + 1;
        assert(out@ =~= v@.take(i as int).map_values(|c: char| dir_name_char(c)));
    }
    assert(v@.take(v@.len() as int) =~= v@);
    string_of(out.as_slice())
}

/// Neither sorts before the other in the wrong direction: `a` comes no later
/// than `b`.
pub open spec fn seq_le(a: Seq<char>, b: Seq<char>) -> bool {
    !seq_lt(b, a)
}

/// `out` holds the paths of `input`, each once per occurrence, in sorted
/// order: `order[k]` is the position in `input` of `out[k]`.
pub open spec fn sorted_by(input: Seq<Seq<char>>, out: Seq<Seq<char>>, order: Seq<int>) -> bool {
    &&& out.len() == input.len()
    &&& order.len() == input.len()
    &&& forall|k: int| 0 <= k < order.len() ==> 0 <= #[trigger] order[k] < input.len() && out[k] == input[order[k]]
    &&& forall|k: int, l: int| 0 <= k < l < order.len() ==> #[trigger] order[k] != #[trigger] order[l]
    &&& forall|k: int, l: int| 0 <= k < l < out.len() ==> seq_le(#[trigger] out[k], #[trigger] out[l])
}

/// Sort repository paths into `str` order, as the listing of a working
/// clone gives them.
#[verifier::spinoff_prover]
pub fn sort_paths(paths: Vec<String>) -> (out: Vec<String>)
    ensures
        exists|order: Seq<int>| sorted_by(strings_model(paths@), strings_model(out@), order),
{
    let ghost input = strings_model(paths@);
    let total = paths.len();
    let mut rest = paths;
    let mut out: Vec<String> = Vec::new();
    let ghost mut order: Seq<int> = seq![];
    let mut i: usize = 0;
    while rest.len() > 0
        invariant
            i <= input.len(),
            total == input.len(),
            strings_model(rest@) == input.skip(i as int),
            out@.len() == i,
            order.len() == i,
            forall|k: int| 0 <= k < order.len() ==> 0 <= #[trigger] order[k] < i && out@[k]@ == input[order[k]],
            forall|k: int, l: int| 0 <= k < l < order.len() ==> #[trigger] order[k] != #[trigger] order[l],
            forall|k: int, l: int| 0 <= k < l < out@.len() ==> seq_le(#[trigger] out@[k]@, #[trigger] out@[l]@),
        decreases rest.len(),
    {
        assert(strings_model(rest@).len() == rest@.len());
        assert(input.skip(i as int)[0] == input[i as int]);
        let ghost before = rest@;
        let p = rest.remove(0);
        proof {
            assert(strings_model(rest@) =~= strings_model(before).drop_first());
            assert(strings_model(rest@) =~= input.skip(i + 1));
        }
        let mut pos: usize = 0;
        while pos < out.len() && !str_lt(p.as_str(), out[pos].as_str())
            invariant
                pos <= out@.len(),
                forall|k: int| 0 <= k < pos ==> seq_le(#[trigger] out@[k]@, p@),
            decreases out.len() - pos,
        {
            pos = pos + 1;
        }
        let ghost old_out = out@;
        let ghost old_order = order;
        out.insert(pos, p);
        proof {
            order = old_order.insert(pos as int, i as int);
            assert forall|k: int| pos <= k < old_out.len() implies seq_lt(p@, #[trigger] old_out[k]@) by {
                if k > pos {
                    assert(seq_le(old_out[pos as int]@, old_out[k]@));
                    lemma_seq_lt_total(old_out[pos as int]@, old_out[k]@);
                    if old_out[pos as int]@ != old_out[k]@ {
                        lemma_seq_lt_transitive(p@, old_out[pos as int]@, old_out[k]@);
                    }
                }
            }
            assert forall|k: int| 0 <= k < order.len() implies 0 <= #[trigger] order[k] < i + 1 && out@[k]@ == input[order[k]] by {
                if k < pos {
                    assert(order[k] == old_order[k] && out@[k] == old_out[k]);
                } else if k > pos {
                    assert(order[k] == old_order[k - 1] && out@[k] == old_out[k - 1]);
                }
            }
            assert forall|k: int, l: int| 0 <= k < l < order.len() implies #[trigger] order[k] != #[trigger] order[l] by {
                if k != pos && l != pos {
                    let a = if k < pos { k } else { k - 1 };
                    let b = if l < pos { l } else { l - 1 };
                    assert(order[k] == old_order[a] && order[l] == old_order[b]);
                } else if k == pos {
                    assert(order[l] == old_order[l - 1]);
                } else {
                    assert(order[k] == old_order[k]);
                }
            }
            assert forall|k: int, l: int| 0 <= k < l < out@.len() implies seq_le(#[trigger] out@[k]@, #[trigger] out@[l]@) by {
                if k != pos && l != pos {
                    let a = if k < pos { k } else { k - 1 };
                    let b = if l < pos { l } else { l - 1 };
                    assert(out@[k] == old_out[a] && out@[l] == old_out[b]);
                } else if k == pos {
                    assert(out@[l] == old_out[l - 1]);
                    lemma_seq_lt_total(p@, old_out[l - 1]@);
                } else {
                    assert(out@[k] == old_out[k]);
                }
            }
        }
        i = i + 1;
    }
    proof {
        let om = strings_model(out@);
        assert forall|k: int| 0 <= k < order.len() implies 0 <= #[trigger] order[k] < input.len() && om[k] == input[order[k]] by {}
        assert forall|k: int, l: int| 0 <= k < l < om.len() implies seq_le(#[trigger] om[k], #[trigger] om[l]) by {
            assert(om[k] == out@[k]@ && om[l] == out@[l]@);
        }
        assert(sorted_by(input, om, order));
    }
    out
}

/// After a write, reading the same path gives back what was written, and
/// every other path reads as before: `after` is a store as `write_file`
/// leaves `before`.
pub proof fn law_read_after_write(
    before: MemoryBackend,
    after: MemoryBackend,
    path: Seq<char>,
    contents: Seq<char>,
    other: Seq<char>,
)
    requires
        after.files() == before.files().insert(path, contents),
        other != path,
    ensures
        after.files().contains_key(path),
        after.files()[path] == contents,
        after.files().contains_key(other) == before.files().contains_key(other),
        before.files().contains_key(other) ==> after.files()[other] == before.files()[other],
        after.files().dom() == before.files().dom().insert(path),
{
    assert(after.files().dom() =~= before.files().dom().insert(path));
}

} // verus!
