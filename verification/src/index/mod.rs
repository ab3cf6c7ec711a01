//! Index entries: one per document file found under a configured root.
pub mod scanner;
pub mod watcher;

use crate::sort::{as_ints, is_perm, key_order, key_views, stable_order, stable_sort_order, KeyModel, SortKey};
use crate::text::{str_eq, trim_by, trim_chars, trim_fn, Trim, ascii_lower_seq, ascii_lower_chars, chars_of, chars_eq, views, join_slash, pieces, sep_fn, Sep, join_with_slash, rfind_char, string_of, slice_chars, split};
use crate::os_path::{
    component_names, copy_path, file_name_of, lossy_each, lossy_of, os_bytes_of, path_bytes, strip_root,
    unix_file_name, unix_file_name_of, unix_rel_components, unix_rel_components_of, PathStyle,
};
use vstd::utf8::encode_utf8;
use crate::unicode::{nfc, nfkc, to_lowercase, nfc_of, lowercase_of, normalized, normalized_each, nfc_each};
use std::path::PathBuf;
use vstd::prelude::*;

verus! {

/// The kind of document, by file extension.
#[derive(Debug, Clone, Copy, PartialEq, Eq, Structural)]
pub enum FileKind {
    Html,
    Markdown,
    Mermaid,
    Other,
}

/// The kind that an extension names, compared without ASCII case.
pub open spec fn kind_of(ext: Seq<char>) -> FileKind {
    let e = ascii_lower_seq(ext);
    if e == "html"@ || e == "htm"@ {
        FileKind::Html
    } else if e == "md"@ || e == "markdown"@ {
        FileKind::Markdown
    } else if e == "mmd"@ || e == "mermaid"@ {
        FileKind::Mermaid
    } else {
        FileKind::Other
    }
}

impl FileKind {
    /// The kind of a file with extension `ext` (ASCII case ignored).
    pub fn from_ext(ext: &str) -> (k: FileKind)
        ensures
            k == kind_of(ext@),
    {
        let e = ascii_lower_chars(chars_of(ext).as_slice());
        let e = e.as_slice();
        if chars_eq(e, chars_of("html").as_slice()) || chars_eq(e, chars_of("htm").as_slice()) {
            FileKind::Html
        } else if chars_eq(e, chars_of("md").as_slice()) || chars_eq(
            e,
            chars_of("markdown").as_slice(),
        ) {
            FileKind::Markdown
        } else if chars_eq(e, chars_of("mmd").as_slice()) || chars_eq(
            e,
            chars_of("mermaid").as_slice(),
        ) {
            FileKind::Mermaid
        } else {
            FileKind::Other
        }
    }
}

/// Search normalization: NFKC, then lowercase. Absorbs full-width/half-width
/// and letter-case differences. The empty string stays empty.
pub fn normalize(s: &str) -> (r: String)
    ensures
        r@ == normalized(s@),
{
    if s.unicode_len() == 0 {
        return String::new();
    }
    let k = nfkc(s);
    to_lowercase(k.as_str())
}

/// The key under which a requested relative path is looked up in the index:
/// without leading and trailing `/`, in NFC (as `rel_path` is stored).
pub fn nfc_rel_path(rel: &str) -> (r: String)
    ensures
        r@ == nfc_of(trim_by(rel@, trim_fn(Trim::Slash))),
{
    let t = trim_chars(chars_of(rel).as_slice(), Trim::Slash);
    let ts = string_of(t.as_slice());
    nfc(ts.as_str())
}

/// One document file under a root.
#[derive(Debug)]
pub struct FileEntry {
    /// The root's configured name.
    pub root: String,
    /// Path relative to the root, `/`-separated, NFC.
    pub rel_path: String,
    /// Absolute path on disk, as the file system gives it.
    pub abs_path: PathBuf,
    pub file_name: String,
    pub stem: String,
    pub ext: String,
    pub kind: FileKind,
    pub size: u64,
    /// Milliseconds since the UNIX epoch.
    pub modified: u64,
    /// For search: normalized stem.
    pub norm_stem: String,
    /// For search: each segment of `rel_path`, normalized.
    pub norm_segments: Vec<String>,
}

/// The mathematical value of a `FileEntry`.
pub struct EntryModel {
    pub root: Seq<char>,
    pub rel_path: Seq<char>,
    pub abs_path: PathBuf,
    pub file_name: Seq<char>,
    pub stem: Seq<char>,
    pub ext: Seq<char>,
    pub kind: FileKind,
    pub size: u64,
    pub modified: u64,
    pub norm_stem: Seq<char>,
    pub norm_segments: Seq<Seq<char>>,
}

impl View for FileEntry {
    type V = EntryModel;

    open spec fn view(&self) -> EntryModel {
        EntryModel {
            root: self.root@,
            rel_path: self.rel_path@,
            abs_path: self.abs_path,
            file_name: self.file_name@,
            stem: self.stem@,
            ext: self.ext@,
            kind: self.kind,
            size: self.size,
            modified: self.modified,
            norm_stem: self.norm_stem@,
            norm_segments: views(self.norm_segments@),
        }
    }
}

/// `root/rel_path`.
pub open spec fn full_key_of(e: EntryModel) -> Seq<char> {
    e.root + seq!['/'] + e.rel_path
}

/// The stem of a file name: the part before the last `.`, when the file has
/// a non-empty extension; otherwise the whole name.
pub open spec fn stem_of(file_name: Seq<char>, ext: Seq<char>) -> Seq<char> {
    if ext.len() > 0 && file_name.contains('.') {
        file_name.subrange(0, last_index_of(file_name, '.'))
    } else {
        file_name
    }
}

/// The last index of `c` in `s` (meaningful when `s` contains `c`).
pub open spec fn last_index_of(s: Seq<char>, c: char) -> int {
    choose|i: int| 0 <= i < s.len() && s[i] == c && forall|j: int| i < j < s.len() ==> s[j] != c
}

/// `last_index_of` is the index that a backward scan finds.
pub proof fn lemma_last_index(s: Seq<char>, c: char, i: int)
    requires
        0 <= i < s.len(),
        s[i] == c,
        forall|j: int| i < j < s.len() ==> s[j] != c,
    ensures
        s.contains(c),
        last_index_of(s, c) == i,
{
    assert(s.contains(c));
    let k = last_index_of(s, c);
    assert(0 <= k < s.len() && s[k] == c && forall|j: int| k < j < s.len() ==> s[j] != c);
}

/// A copy of the strings.
pub fn copy_strings(v: &Vec<String>) -> (r: Vec<String>)
    ensures
        views(r@) == views(v@),
        r@.len() == v@.len(),
{
    let mut r: Vec<String> = Vec::new();
    let mut i: usize = 0;
    while i < v.len()
        invariant
            i <= v@.len(),
            views(r@) =~= views(v@.subrange(0, i as int)),
        decreases v@.len() - i,
    {
        r.push(v[i].clone());
        assert(views(v@.subrange(0, i + 1)) =~= views(v@.subrange(0, i as int)).push(v@[i as int]@));
        i = i + 1;
    }
    assert(v@.subrange(0, v@.len() as int) =~= v@);
    r
}

/// Each string normalized.
pub fn normalize_all(v: &Vec<String>) -> (r: Vec<String>)
    ensures
        views(r@) == normalized_each(views(v@)),
{
    let mut r: Vec<String> = Vec::new();
    let mut i: usize = 0;
    while i < v.len()
        invariant
            i <= v@.len(),
            views(r@) =~= normalized_each(views(v@.subrange(0, i as int))),
        decreases v@.len() - i,
    {
        r.push(normalize(v[i].as_str()));
        assert(views(v@.subrange(0, i + 1)) =~= views(v@.subrange(0, i as int)).push(v@[i as int]@));
        assert(normalized_each(views(v@.subrange(0, i + 1))) =~= normalized_each(views(v@.subrange(0, i as int))).push(normalized(v@[i as int]@)));
        i = i + 1;
    }
    assert(v@.subrange(0, v@.len() as int) =~= v@);
    r
}

/// The extension of a file name (`Path::extension`): what follows its last
/// `.`, unless it has none, or its only `.` is the first character, or it is
/// `..`.
pub open spec fn name_extension(name: Seq<char>) -> Option<Seq<char>> {
    if name == seq!['.', '.'] || !name.contains('.') || last_index_of(name, '.') == 0 {
        None
    } else {
        Some(name.skip(last_index_of(name, '.') + 1))
    }
}

/// The extension of a file name (see `name_extension`).
pub fn extension_of_name(name: &str) -> (r: Option<String>)
    ensures
        match name_extension(name@) {
            Some(x) => r matches Some(s) && s@ == x,
            None => r is None,
        },
{
    let c = chars_of(name);
    if c.len() == 2 && c[0] == '.' && c[1] == '.' {
        assert(name@ =~= seq!['.', '.']);
        return None;
    }
    match rfind_char(c.as_slice(), '.') {
        Some(i) => {
            proof {
                lemma_last_index(c@, '.', i as int);
            }
            if i == 0 {
                None
            } else {
                assert(c@.subrange(i + 1, c@.len() as int) =~= name@.skip(i + 1));
                Some(string_of(slice_chars(c.as_slice(), i + 1, c.len()).as_slice()))
            }
        },
        None => None,
    }
}

/// `e` is the entry of a file with the given parts: the root's name, the
/// components of its path relative to the root, its absolute path, its file
/// name and extension as the file system gives them, its size and its
/// modification time.
pub open spec fn is_entry_of(
    e: EntryModel,
    root: Seq<char>,
    rel_components: Seq<Seq<char>>,
    abs_path: PathBuf,
    file_name: Seq<char>,
    extension: Option<Seq<char>>,
    size: u64,
    modified: u64,
) -> bool {
    &&& e.root == root
    &&& e.rel_path == join_slash(nfc_each(rel_components))
    &&& e.abs_path == abs_path
    &&& e.file_name == nfc_of(file_name)
    &&& e.ext == (match extension {
        Some(x) => lowercase_of(x),
        None => Seq::<char>::empty(),
    })
    &&& e.stem == stem_of(e.file_name, e.ext)
    &&& e.kind == kind_of(e.ext)
    &&& e.size == size
    &&& e.modified == modified
    &&& e.norm_stem == normalized(e.stem)
    &&& e.norm_segments == normalized_each(pieces(e.rel_path, sep_fn(Sep::Slash)))
}

impl FileEntry {
    /// The entry of the file at `abs` under the root named `root` whose path
    /// is `root_path`, with the given size and modification time; none when
    /// `abs` does not lie under `root_path` or has no file name. The parts
    /// come from `abs` by the path rules of `style`: for Unix they are
    /// computed here from the path's bytes, as `Path::strip_prefix`,
    /// `Path::components`, `Path::file_name` and `Path::extension` give them
    /// (names decoded as `String::from_utf8_lossy` does); for Windows they
    /// are what `std::path` of the running platform gives. On every platform
    /// the extension is what follows the file name's last `.`.
    pub fn new(style: PathStyle, root: &str, root_path: &str, abs: &PathBuf, size: u64, modified: u64) -> (r:
        Option<FileEntry>)
        ensures
            style == PathStyle::Unix ==> (r is Some <==> (unix_rel_components(
                os_bytes_of(*abs),
                encode_utf8(root_path@),
            ) is Some && unix_file_name(os_bytes_of(*abs)) is Some)),
            style == PathStyle::Unix ==> (r matches Some(e) ==> is_entry_of(
                e@,
                root@,
                lossy_each(unix_rel_components(os_bytes_of(*abs), encode_utf8(root_path@))->0),
                *abs,
                lossy_of(unix_file_name(os_bytes_of(*abs))->0),
                name_extension(lossy_of(unix_file_name(os_bytes_of(*abs))->0)),
                size,
                modified,
            )),
            r matches Some(e) ==> exists|comps: Seq<Seq<char>>, name: Seq<char>|
                #[trigger] is_entry_of(e@, root@, comps, *abs, name, name_extension(name), size, modified),
    {
        match style {
            PathStyle::Unix => {
                let ab = path_bytes(abs);
                let comps = unix_rel_components_of(ab.as_slice(), root_path.as_bytes());
                let name = unix_file_name_of(ab.as_slice());
                FileEntry::from_walk(root, comps, copy_path(abs), name, size, modified)
            },
            PathStyle::Windows => {
                let comps = match strip_root(abs, root_path) {
                    Some(p) => Some(component_names(&p)),
                    None => None,
                };
                let name = file_name_of(abs);
                FileEntry::from_walk(root, comps, copy_path(abs), name, size, modified)
            },
        }
    }

    /// The entry of a walked file, from what the walk found: the components
    /// of its path relative to the root (none when it is not under the
    /// root), its absolute path, its file name (none when it has none), its
    /// size and its modification time. The extension is what follows the
    /// file name's last `.` (see `name_extension`).
    pub fn from_walk(
        root: &str,
        rel_components: Option<Vec<String>>,
        abs_path: PathBuf,
        file_name: Option<String>,
        size: u64,
        modified: u64,
    ) -> (r: Option<FileEntry>)
        ensures
            r is Some <==> (rel_components is Some && file_name is Some),
            r matches Some(e) ==> is_entry_of(
                e@,
                root@,
                views(rel_components->0@),
                abs_path,
                file_name->0@,
                name_extension(file_name->0@),
                size,
                modified,
            ),
    {
        match (rel_components, file_name) {
            (Some(comps), Some(name)) => {
                let ext = extension_of_name(name.as_str());
                let ext_str = match &ext {
                    Some(x) => Some(x.as_str()),
                    None => None,
                };
                Some(FileEntry::from_parts(root, &comps, abs_path, name.as_str(), ext_str, size, modified))
            },
            _ => None,
        }
    }

    /// Builds the entry of a file from its parts (see `is_entry_of`).
    pub fn from_parts(
        root: &str,
        rel_components: &Vec<String>,
        abs_path: PathBuf,
        file_name: &str,
        extension: Option<&str>,
        size: u64,
        modified: u64,
    ) -> (e: FileEntry)
        ensures
            is_entry_of(
                e@,
                root@,
                views(rel_components@),
                abs_path,
                file_name@,
                match extension {
                    Some(x) => Some(x@),
                    None => None,
                },
                size,
                modified,
            ),
    {
        let mut comps: Vec<String> = Vec::new();
        let mut i: usize = 0;
        while i < rel_components.len()
            invariant
                i <= rel_components@.len(),
                views(comps@) =~= nfc_each(views(rel_components@.subrange(0, i as int))),
            decreases rel_components@.len() - i,
        {
            comps.push(nfc(rel_components[i].as_str()));
            assert(views(rel_components@.subrange(0, i + 1)) =~= views(
                rel_components@.subrange(0, i as int),
            ).push(rel_components@[i as int]@));
            assert(nfc_each(views(rel_components@.subrange(0, i + 1))) =~= nfc_each(views(
                rel_components@.subrange(0, i as int),
            )).push(nfc_of(rel_components@[i as int]@)));
            i = i + 1;
        }
        assert(rel_components@.subrange(0, rel_components@.len() as int) =~= rel_components@);
        let rel_path = join_with_slash(&comps);
        let file_name = nfc(file_name);
        let ext = match extension {
            Some(x) => to_lowercase(x),
            None => String::new(),
        };
        let name_chars = chars_of(file_name.as_str());
        let stem = match rfind_char(name_chars.as_slice(), '.') {
            Some(i) if ext.as_str().unicode_len() > 0 => {
                proof {
                    lemma_last_index(name_chars@, '.', i as int);
                }
                string_of(slice_chars(name_chars.as_slice(), 0, i).as_slice())
            },
            _ => file_name.clone(),
        };
        let rel_chars = chars_of(rel_path.as_str());
        let segs = split(rel_chars.as_slice(), Sep::Slash);
        let norm_segments = normalize_all(&segs);
        let norm_stem = normalize(stem.as_str());
        let kind = FileKind::from_ext(ext.as_str());
        FileEntry {
            root: root.to_owned(),
            rel_path,
            abs_path,
            file_name,
            stem,
            ext,
            kind,
            size,
            modified,
            norm_stem,
            norm_segments,
        }
    }

    /// `root/rel_path`.
    pub fn full_key(&self) -> (k: String)
        ensures
            k@ == full_key_of(self@),
    {
        let mut k = self.root.clone();
        k.append("/");
        k.append(self.rel_path.as_str());
        proof {
            reveal_strlit("/");
        }
        k
    }

    /// A copy with the same value.
    pub fn duplicate(&self) -> (r: FileEntry)
        ensures
            r@ == self@,
    {
        FileEntry {
            root: self.root.clone(),
            rel_path: self.rel_path.clone(),
            abs_path: copy_path(&self.abs_path),
            file_name: self.file_name.clone(),
            stem: self.stem.clone(),
            ext: self.ext.clone(),
            kind: self.kind,
            size: self.size,
            modified: self.modified,
            norm_stem: self.norm_stem.clone(),
            norm_segments: copy_strings(&self.norm_segments),
        }
    }
}

/// The order of the index: by root name, then relative path.
pub open spec fn location_key(e: EntryModel) -> KeyModel {
    KeyModel { k1: 0, k2: 0, t1: e.root, t2: e.rel_path }
}

/// The entries are in index order.
pub open spec fn in_location_order(es: Seq<EntryModel>) -> bool {
    forall|a: int, b: int|
        0 <= a < b < es.len() ==> key_order(location_key(#[trigger] es[a]), location_key(#[trigger] es[b])) <= 0
}

/// `out` is `inp` in index order, entries with the same root and path keeping
/// their relative order.
pub open spec fn located_sort(out: Seq<EntryModel>, inp: Seq<EntryModel>) -> bool {
    exists|p: Seq<int>|
        #![trigger is_perm(p, inp.len() as int)]
        is_perm(p, inp.len() as int) && stable_order(
            p,
            inp.map_values(|e: EntryModel| location_key(e)),
        ) && out.len() == inp.len() && forall|k: int| 0 <= k < out.len() ==> out[k] == inp[#[trigger] p[k]]
}

/// The entries whose root is not `root`, in order.
pub open spec fn other_roots(es: Seq<EntryModel>, root: Seq<char>) -> Seq<EntryModel>
    decreases es.len(),
{
    if es.len() == 0 {
        es
    } else if es.last().root == root {
        other_roots(es.drop_last(), root)
    } else {
        other_roots(es.drop_last(), root).push(es.last())
    }
}

/// The entries of root `root` (all entries for `None`), in order.
pub open spec fn of_root(es: Seq<EntryModel>, root: Option<Seq<char>>) -> Seq<EntryModel>
    decreases es.len(),
{
    if es.len() == 0 {
        es
    } else {
        let prev = of_root(es.drop_last(), root);
        match root {
            Some(r) => if es.last().root == r {
                prev.push(es.last())
            } else {
                prev
            },
            None => prev.push(es.last()),
        }
    }
}

/// The views of a sequence of entries.
pub open spec fn entries_view(v: Seq<FileEntry>) -> Seq<EntryModel> {
    v.map_values(|e: FileEntry| e@)
}

/// The index of all document files: the entries in index order, and a
/// generation counter that each replacement increments.
pub struct FileIndex {
    entries: Vec<FileEntry>,
    generation: u64,
}

/// The mathematical value of a `FileIndex`.
pub struct IndexModel {
    pub entries: Seq<EntryModel>,
    pub generation: u64,
}

impl View for FileIndex {
    type V = IndexModel;

    closed spec fn view(&self) -> IndexModel {
        IndexModel { entries: entries_view(self.entries@), generation: self.generation }
    }
}

/// The entries in the order `p`.
fn reorder(v: &Vec<FileEntry>, p: &Vec<usize>) -> (r: Vec<FileEntry>)
    requires
        is_perm(as_ints(p@), v@.len() as int),
    ensures
        r@.len() == v@.len(),
        forall|k: int| 0 <= k < r@.len() ==> (#[trigger] r@[k])@ == v@[as_ints(p@)[k]]@,
{
    let mut r: Vec<FileEntry> = Vec::new();
    let mut k: usize = 0;
    while k < p.len()
        invariant
            k <= p@.len(),
            p@.len() == v@.len(),
            is_perm(as_ints(p@), v@.len() as int),
            r@.len() == k,
            forall|m: int| 0 <= m < k ==> (#[trigger] r@[m])@ == v@[as_ints(p@)[m]]@,
        decreases p@.len() - k,
    {
        let i = p[k];
        assert(as_ints(p@)[k as int] == i as int);
        r.push(v[i].duplicate());
        k = k + 1;
    }
    r
}

/// The entries sorted into index order, stably.
fn sort_by_location(v: &Vec<FileEntry>) -> (r: Vec<FileEntry>)
    ensures
        located_sort(entries_view(r@), entries_view(v@)),
        in_location_order(entries_view(r@)),
{
    let mut keys: Vec<SortKey> = Vec::new();
    let mut i: usize = 0;
    while i < v.len()
        invariant
            i <= v@.len(),
            keys@.len() == i,
            forall|j: int| 0 <= j < i ==> (#[trigger] keys@[j])@ == location_key(v@[j]@),
        decreases v@.len() - i,
    {
        keys.push(
            SortKey {
                k1: 0,
                k2: 0,
                t1: chars_of(v[i].root.as_str()),
                t2: chars_of(v[i].rel_path.as_str()),
            },
        );
        i = i + 1;
    }
    let p = stable_sort_order(&keys);
    let ghost lk = entries_view(v@).map_values(|e: EntryModel| location_key(e));
    assert(key_views(keys@) =~= lk);
    let r = reorder(v, &p);
    let ghost pi = as_ints(p@);
    assert(located_sort(entries_view(r@), entries_view(v@))) by {
        assert(is_perm(pi, entries_view(v@).len() as int));
        assert forall|k: int| 0 <= k < r@.len() implies entries_view(r@)[k] == entries_view(v@)[#[trigger] pi[k]] by {
            assert(r@[k]@ == v@[pi[k]]@);
        }
    }
    assert forall|a: int, b: int| 0 <= a < b < r@.len() implies key_order(
        location_key(#[trigger] entries_view(r@)[a]),
        location_key(#[trigger] entries_view(r@)[b]),
    ) <= 0 by {
        assert(r@[a]@ == v@[pi[a]]@);
        assert(r@[b]@ == v@[pi[b]]@);
        assert(lk[pi[a]] == location_key(v@[pi[a]]@));
        assert(lk[pi[b]] == location_key(v@[pi[b]]@));
    }
    r
}

impl FileIndex {
    #[verifier::type_invariant]
    spec fn ordered(self) -> bool {
        in_location_order(entries_view(self.entries@))
    }

    /// An empty index.
    pub fn new() -> (r: FileIndex)
        ensures
            r@.entries.len() == 0,
            r@.generation == 0,
    {
        FileIndex { entries: Vec::new(), generation: 0 }
    }

    /// Replaces all entries (kept in index order) and increments the generation.
    pub fn replace(&mut self, entries: Vec<FileEntry>)
        requires
            old(self)@.generation < u64::MAX,
        ensures
            located_sort(final(self)@.entries, entries_view(entries@)),
            in_location_order(final(self)@.entries),
            final(self)@.entries.len() == entries@.len(),
            final(self)@.generation == old(self)@.generation + 1,
    {
        let sorted = sort_by_location(&entries);
        self.entries = sorted;
        self.generation = self.generation + 1;
    }

    /// Replaces the entries of root `root` only (partial rescan).
    pub fn replace_root(&mut self, root: &str, new_entries: Vec<FileEntry>)
        requires
            old(self)@.generation < u64::MAX,
        ensures
            located_sort(
                final(self)@.entries,
                other_roots(old(self)@.entries, root@) + entries_view(new_entries@),
            ),
            in_location_order(final(self)@.entries),
            final(self)@.entries.len() == other_roots(old(self)@.entries, root@).len()
                + new_entries@.len(),
            final(self)@.generation == old(self)@.generation + 1,
    {
        let ghost old_es = entries_view(self.entries@);
        let mut all: Vec<FileEntry> = Vec::new();
        let mut i: usize = 0;
        while i < self.entries.len()
            invariant
                i <= self.entries@.len(),
                old_es == entries_view(self.entries@),
                entries_view(all@) =~= other_roots(old_es.take(i as int), root@),
            decreases self.entries@.len() - i,
        {
            assert(old_es.take(i + 1).drop_last() =~= old_es.take(i as int));
            if !str_eq(self.entries[i].root.as_str(), root) {
                all.push(self.entries[i].duplicate());
            }
            i = i + 1;
        }
        assert(old_es.take(old_es.len() as int) =~= old_es);
        let ghost kept = entries_view(all@);
        let mut k: usize = 0;
        while k < new_entries.len()
            invariant
                k <= new_entries@.len(),
                entries_view(all@) =~= kept + entries_view(new_entries@).take(k as int),
            decreases new_entries@.len() - k,
        {
            let ghost before = all@;
            let d = new_entries[k].duplicate();
            all.push(d);
            assert(all@ == before.push(d));
            assert(entries_view(all@) =~= entries_view(before).push(d@));
            assert(entries_view(new_entries@).take(k + 1) =~= entries_view(new_entries@).take(
                k as int,
            ).push(new_entries@[k as int]@));
            k = k + 1;
        }
        assert(entries_view(new_entries@).take(new_entries@.len() as int) =~= entries_view(new_entries@));
        self.replace(all);
    }

    /// The current entries, in index order.
    pub fn snapshot(&self) -> (r: &Vec<FileEntry>)
        ensures
            entries_view(r@) == self@.entries,
            in_location_order(entries_view(r@)),
    {
        proof {
            use_type_invariant(self);
        }
        &self.entries
    }

    /// The number of entries.
    pub fn len(&self) -> (n: usize)
        ensures
            n == self@.entries.len(),
    {
        self.entries.len()
    }

    /// Whether there are no entries.
    pub fn is_empty(&self) -> (b: bool)
        ensures
            b == (self@.entries.len() == 0),
    {
        self.len() == 0
    }

    /// How many times the entries were replaced.
    pub fn generation(&self) -> (g: u64)
        ensures
            g == self@.generation,
    {
        self.generation
    }

    /// Copies of the entries of root `root` (of all roots for `None`).
    pub fn files(&self, root: Option<&str>) -> (r: Vec<FileEntry>)
        ensures
            entries_view(r@) == of_root(
                self@.entries,
                match root {
                    Some(x) => Some(x@),
                    None => None,
                },
            ),
    {
        let ghost es = entries_view(self.entries@);
        let ghost want = match root {
            Some(x) => Some(x@),
            None => None,
        };
        let mut r: Vec<FileEntry> = Vec::new();
        let mut i: usize = 0;
        while i < self.entries.len()
            invariant
                i <= self.entries@.len(),
                es == entries_view(self.entries@),
                want == (match root {
                    Some(x) => Some(x@),
                    None => None::<Seq<char>>,
                }),
                entries_view(r@) =~= of_root(es.take(i as int), want),
            decreases self.entries@.len() - i,
        {
            assert(es.take(i + 1).drop_last() =~= es.take(i as int));
            let keep = match root {
                Some(x) => str_eq(self.entries[i].root.as_str(), x),
                None => true,
            };
            if keep {
                r.push(self.entries[i].duplicate());
            }
            i = i + 1;
        }
        assert(es.take(es.len() as int) =~= es);
        r
    }

    /// The first entry of root `root` with relative path `rel_path`.
    pub fn find(&self, root: &str, rel_path: &str) -> (r: Option<&FileEntry>)
        ensures
            match r {
                Some(e) => exists|i: int|
                    0 <= i < self@.entries.len() && self@.entries[i] == e@ && e@.root == root@
                        && e@.rel_path == rel_path@ && forall|j: int|
                        0 <= j < i ==> !(#[trigger] self@.entries[j].root == root@
                            && self@.entries[j].rel_path == rel_path@),
                None => forall|j: int|
                    0 <= j < self@.entries.len() ==> !(#[trigger] self@.entries[j].root == root@
                        && self@.entries[j].rel_path == rel_path@),
            },
    {
        let ghost es = entries_view(self.entries@);
        let mut i: usize = 0;
        while i < self.entries.len()
            invariant
                i <= self.entries@.len(),
                es == entries_view(self.entries@),
                forall|j: int|
                    0 <= j < i ==> !(#[trigger] es[j].root == root@ && es[j].rel_path == rel_path@),
            decreases self.entries@.len() - i,
        {
            let e = &self.entries[i];
            if str_eq(e.root.as_str(), root) && str_eq(e.rel_path.as_str(), rel_path) {
                assert(self@.entries[i as int] == e@);
                return Some(e);
            }
            i = i + 1;
        }
        None
    }
}

} // verus!

verus! {

/// An entry is kept by `other_roots` exactly when it was there and belongs
/// to another root.
pub proof fn lemma_other_roots_contains(es: Seq<EntryModel>, root: Seq<char>, x: EntryModel)
    ensures
        other_roots(es, root).contains(x) <==> (es.contains(x) && x.root != root),
    decreases es.len(),
{
    if es.len() > 0 {
        lemma_other_roots_contains(es.drop_last(), root, x);
        let prev = other_roots(es.drop_last(), root);
        if es.contains(x) {
            let k = choose|k: int| 0 <= k < es.len() && es[k] == x;
            if k < es.len() - 1 {
                assert(es.drop_last()[k] == x);
            }
        }
        if es.drop_last().contains(x) {
            let k = choose|k: int| 0 <= k < es.drop_last().len() && es.drop_last()[k] == x;
            assert(es[k] == x);
        }
        if es.last().root != root {
            let cur = prev.push(es.last());
            if cur.contains(x) {
                let k = choose|k: int| 0 <= k < cur.len() && cur[k] == x;
                if k < prev.len() {
                    assert(prev[k] == x);
                }
            }
            if prev.contains(x) {
                let k = choose|k: int| 0 <= k < prev.len() && prev[k] == x;
                assert(cur[k] == x);
            }
            assert(cur[prev.len() as int] == es.last());
        }
    }
}

proof fn lemma_perm_contains<A>(out: Seq<A>, inp: Seq<A>, p: Seq<int>, x: A)
    requires
        is_perm(p, inp.len() as int),
        out.len() == inp.len(),
        forall|k: int| 0 <= k < out.len() ==> out[k] == inp[#[trigger] p[k]],
    ensures
        out.contains(x) <==> inp.contains(x),
{
    if out.contains(x) {
        let k = choose|k: int| 0 <= k < out.len() && out[k] == x;
        assert(out[k] == inp[p[k]]);
    }
    if inp.contains(x) {
        let v = choose|v: int| 0 <= v < inp.len() && inp[v] == x;
        assert(crate::sort::covers(p, v));
        let k = choose|k: int| 0 <= k < p.len() && #[trigger] p[k] == v;
        assert(out[k] == inp[p[k]]);
    }
}

/// `other_roots` is the filter that drops the entries of `root`.
pub proof fn lemma_other_roots_filter(es: Seq<EntryModel>, root: Seq<char>)
    ensures
        other_roots(es, root) == es.filter(|e: EntryModel| e.root != root),
    decreases es.len(),
{
    reveal(Seq::filter);
    if es.len() > 0 {
        lemma_other_roots_filter(es.drop_last(), root);
    }
}

/// The files of a root are the index's entries of that root, all of them,
/// in index order (the entries whose root is `r`, filtered); with no root
/// given, all entries. So there are as many as the index has entries of
/// that root, each entry of that root is among them, and every one of them
/// belongs to that root.
pub proof fn lemma_files_of_root(es: Seq<EntryModel>, r: Seq<char>)
    ensures
        of_root(es, Some(r)) == es.filter(|e: EntryModel| e.root == r),
        of_root(es, None) == es,
        forall|i: int| 0 <= i < es.len() && es[i].root == r ==> of_root(es, Some(r)).contains(#[trigger] es[i]),
        forall|k: int| 0 <= k < of_root(es, Some(r)).len() ==> (#[trigger] of_root(es, Some(r))[k]).root == r,
    decreases es.len(),
{
    reveal(Seq::filter);
    if es.len() > 0 {
        lemma_files_of_root(es.drop_last(), r);
        assert(es.drop_last().push(es.last()) =~= es);
    } else {
        assert(of_root(es, None) =~= es);
    }
    let pred = |e: EntryModel| e.root == r;
    assert forall|i: int| 0 <= i < es.len() && es[i].root == r implies of_root(es, Some(r)).contains(
        #[trigger] es[i],
    ) by {
        es.lemma_filter_contains(pred, i);
    }
    assert forall|k: int| 0 <= k < of_root(es, Some(r)).len() implies (#[trigger] of_root(es, Some(r))[k]).root
        == r by {
        es.lemma_filter_pred(pred, k);
    }
}

/// After a replacement the index holds exactly the given entries, each as
/// often as given (a permutation of them), in index order: as many entries
/// as were given, the same ones, none when none were given.
pub proof fn lemma_replaced_entries(after: Seq<EntryModel>, inp: Seq<EntryModel>)
    requires
        located_sort(after, inp),
    ensures
        after.len() == inp.len(),
        (after.len() == 0) == (inp.len() == 0),
        forall|x: EntryModel| after.contains(x) <==> inp.contains(x),
        exists|p: Seq<int>|
            is_perm(p, inp.len() as int) && forall|k: int|
                0 <= k < after.len() ==> after[k] == inp[#[trigger] p[k]],
{
    let p = choose|p: Seq<int>|
        #![trigger is_perm(p, inp.len() as int)]
        is_perm(p, inp.len() as int) && stable_order(
            p,
            inp.map_values(|e: EntryModel| location_key(e)),
        ) && after.len() == inp.len() && forall|k: int| 0 <= k < after.len() ==> after[k] == inp[#[trigger] p[k]];
    assert forall|x: EntryModel| after.contains(x) <==> inp.contains(x) by {
        lemma_perm_contains(after, inp, p, x);
    }
}

/// The index order of given entries is unique.
pub proof fn lemma_located_unique(a: Seq<EntryModel>, b: Seq<EntryModel>, inp: Seq<EntryModel>)
    requires
        located_sort(a, inp),
        located_sort(b, inp),
    ensures
        a == b,
{
    let keys = inp.map_values(|e: EntryModel| location_key(e));
    let p = choose|p: Seq<int>|
        #![trigger is_perm(p, inp.len() as int)]
        is_perm(p, inp.len() as int) && stable_order(p, keys) && a.len() == inp.len() && forall|k: int|
            0 <= k < a.len() ==> a[k] == inp[#[trigger] p[k]];
    let q = choose|q: Seq<int>|
        #![trigger is_perm(q, inp.len() as int)]
        is_perm(q, inp.len() as int) && stable_order(q, keys) && b.len() == inp.len() && forall|k: int|
            0 <= k < b.len() ==> b[k] == inp[#[trigger] q[k]];
    crate::sort::lemma_stable_order_unique(p, q, keys);
    assert forall|k: int| 0 <= k < a.len() implies a[k] == b[k] by {
        assert(a[k] == inp[p[k]]);
        assert(b[k] == inp[q[k]]);
    }
    assert(a =~= b);
}

/// After `replace_root(root, new)`, the index holds exactly the earlier
/// entries of the other roots and the new entries.
pub proof fn lemma_replace_root_contents(
    after: Seq<EntryModel>,
    before: Seq<EntryModel>,
    root: Seq<char>,
    new_entries: Seq<EntryModel>,
    x: EntryModel,
)
    requires
        located_sort(after, other_roots(before, root) + new_entries),
    ensures
        after.contains(x) <==> ((before.contains(x) && x.root != root) || new_entries.contains(x)),
{
    let inp = other_roots(before, root) + new_entries;
    let p = choose|p: Seq<int>|
        #![trigger is_perm(p, inp.len() as int)]
        is_perm(p, inp.len() as int) && stable_order(
            p,
            inp.map_values(|e: EntryModel| location_key(e)),
        ) && after.len() == inp.len() && forall|k: int| 0 <= k < after.len() ==> after[k] == inp[#[trigger] p[k]];
    lemma_perm_contains(after, inp, p, x);
    lemma_other_roots_contains(before, root, x);
    let kept = other_roots(before, root);
    if inp.contains(x) {
        let k = choose|k: int| 0 <= k < inp.len() && inp[k] == x;
        if k < kept.len() {
            assert(kept[k] == x);
        } else {
            assert(new_entries[k - kept.len()] == x);
        }
    }
    if kept.contains(x) {
        let k = choose|k: int| 0 <= k < kept.len() && kept[k] == x;
        assert(inp[k] == x);
    }
    if new_entries.contains(x) {
        let k = choose|k: int| 0 <= k < new_entries.len() && new_entries[k] == x;
        assert(inp[kept.len() + k] == x);
    }
}

} // verus!

verus! {

/// The kind of a file does not depend on the ASCII case of its extension.
pub proof fn lemma_kind_ignores_case(ext: Seq<char>)
    ensures
        kind_of(ext) == kind_of(ascii_lower_seq(ext)),
{
    crate::text::lemma_ascii_lower_idempotent(ext);
}

/// The stem of a file name is a prefix of the name.
pub proof fn lemma_stem_is_prefix(file_name: Seq<char>, ext: Seq<char>)
    ensures
        stem_of(file_name, ext).is_prefix_of(file_name),
{
    if ext.len() > 0 && file_name.contains('.') {
        let k = choose|k: int| 0 <= k < file_name.len() && file_name[k] == '.';
        assert(file_name[k] == '.');
        let i = last_index_of(file_name, '.');
        assert(0 <= i < file_name.len() && file_name[i] == '.' && forall|j: int|
            i < j < file_name.len() ==> file_name[j] != '.') by {
            lemma_last_exists(file_name, '.', k);
        }
        assert(file_name.subrange(0, i).len() == i);
    }
}

proof fn lemma_last_exists(s: Seq<char>, c: char, k: int)
    requires
        0 <= k < s.len(),
        s[k] == c,
    ensures
        exists|i: int| 0 <= i < s.len() && s[i] == c && forall|j: int| i < j < s.len() ==> s[j] != c,
    decreases s.len() - k,
{
    if exists|j: int| k < j < s.len() && s[j] == c {
        let j = choose|j: int| k < j < s.len() && s[j] == c;
        lemma_last_exists(s, c, j);
    } else {
        assert(forall|j: int| k < j < s.len() ==> s[j] != c);
    }
}

} // verus!
