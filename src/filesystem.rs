//! The filesystem proper: an index from normalized absolute paths to entry
//! metadata, kept tree-shaped, with the operations that read and change it.
//!
//! File contents live in the backing store, never in the index. Every
//! mutation changes the index in memory and returns the store writes that
//! must follow, in the order that bounds what a crash can lose: content
//! first, index last.
use vstd::prelude::*;
use crate::entry::{FileMetadata, FileType, FsError};
use crate::index::{
    create_error, created_dirs, delete_error, deletion_writes, distinct_paths, doomed, file_meta,
    fresh_dir, has_children, is_child_entry, is_dir_in, lemma_create_below, lemma_kept_records,
    lemma_missing_chain, lemma_records_index, lemma_removal_writes, lemma_writes_then_save,
    missing_chain, nearest_present, records_index, records_valid, saves_index_only, seed_dirs,
    string_views, well_formed_index, without_subtree, write_error, Index,
};
use crate::path::{
    entry_name, is_descendant_path, is_direct_child, is_direct_child_path, is_normal,
    is_normal_path, is_plain_segment, is_root, join_path, lemma_children_names_differ,
    lemma_ends_without_slash, lemma_join, lemma_parent_split, name_of, normalize, parent_of,
    parent_path, root_path, root_string, same_chars, trimmed,
};
use crate::store::{content_key, content_key_of, is_remove, is_set, StoreAction};

verus! {

/// Metadata for a directory at `p`, created at `now`.
fn dir_metadata(p: &str, now: u64) -> (m: FileMetadata)
    ensures
        fresh_dir(m, p@, now),
{
    FileMetadata {
        name: entry_name(p),
        file_type: FileType::Directory,
        size: 0,
        created: now,
        modified: now,
    }
}

/// Position of the record for path `p` in `rs`.
fn find_path(rs: &Vec<(String, FileMetadata)>, p: &str) -> (r: Option<usize>)
    ensures
        match r {
            Some(i) => i < rs.len() && rs@[i as int].0@ == p@,
            None => forall|j: int| 0 <= j < rs.len() ==> #[trigger] rs@[j].0@ != p@,
        },
{
    let mut i: usize = 0;
    while i < rs.len()
        invariant
            i <= rs.len(),
            forall|j: int| 0 <= j < i ==> #[trigger] rs@[j].0@ != p@,
        decreases rs.len() - i,
    {
        if same_chars(rs[i].0.as_str(), p) {
            return Some(i);
        }
        i = i + 1;
    }
    None
}

/// Saving a filesystem and loading it back gives the same index, path for
/// path and field for field: its records are valid, and the index they
/// describe is the filesystem's own.
pub proof fn lemma_round_trip(fs: &FileSystem)
    requires
        fs.wf(),
    ensures
        records_valid(fs.record_seq()),
        records_index(fs.record_seq()) == fs@,
{
    let rs = fs.record_seq();
    lemma_records_index(rs);
    assert(records_index(rs) =~= fs@) by {
        assert forall|p: Seq<char>| records_index(rs).contains_key(p) <==> fs@.contains_key(p) by {
            if records_index(rs).contains_key(p) {
                let i = choose|i: int| 0 <= i < rs.len() && #[trigger] rs[i].0@ == p;
                assert(fs.index@.contains_key(fs.entries@[i].0@));
            }
        }
        assert forall|p: Seq<char>| #[trigger] records_index(rs).contains_key(p) implies records_index(rs)[p] == fs@[p] by {
            let i = choose|i: int| 0 <= i < rs.len() && #[trigger] rs[i].0@ == p;
            assert(fs.index@.contains_key(fs.entries@[i].0@));
        }
    }
}

/// In a filesystem, the root is a directory and every other entry has a
/// directory at its parent path. Every operation keeps a filesystem well
/// formed, so this holds after any sequence of them.
pub proof fn lemma_parent_invariant(fs: &FileSystem)
    requires
        fs.wf(),
    ensures
        is_dir_in(fs@, root_path()),
        forall|p: Seq<char>|
            #![trigger fs@.contains_key(p), parent_of(p)]
            fs@.contains_key(p) && p != root_path() ==> is_dir_in(fs@, parent_of(p)),
{
}

/// A virtual filesystem: its index, kept as a list of (path, metadata)
/// records with distinct paths.
pub struct FileSystem {
    entries: Vec<(String, FileMetadata)>,
    index: Ghost<Index>,
}

impl View for FileSystem {
    type V = Index;

    closed spec fn view(&self) -> Index {
        self.index@
    }
}

impl FileSystem {
    /// The records agree with the index, and the index is well formed.
    pub closed spec fn wf(&self) -> bool {
        &&& distinct_paths(self.entries@)
        &&& forall|i: int|
            0 <= i < self.entries.len() ==> #[trigger] self.index@.contains_key(self.entries@[i].0@)
                && self.index@[self.entries@[i].0@] == self.entries@[i].1
        &&& forall|p: Seq<char>|
            #[trigger] self.index@.contains_key(p) ==> exists|i: int|
                0 <= i < self.entries.len() && #[trigger] self.entries@[i].0@ == p
        &&& well_formed_index(self.index@)
    }

    /// The records of the index, in the order they are kept.
    pub closed spec fn record_seq(&self) -> Seq<(String, FileMetadata)> {
        self.entries@
    }

    /// Position of the record for path `p`.
    fn find(&self, p: &str) -> (r: Option<usize>)
        requires
            self.wf(),
        ensures
            match r {
                Some(i) => i < self.entries.len() && self.entries@[i as int].0@ == p@
                    && self@.contains_key(p@) && self@[p@] == self.entries@[i as int].1,
                None => !self@.contains_key(p@),
            },
    {
        let r = find_path(&self.entries, p);
        proof {
            if r is Some {
                let i = r->0 as int;
                assert(self.index@.contains_key(self.entries@[i].0@));
            }
            if r is None && self@.contains_key(p@) {
                let j = choose|j: int| 0 <= j < self.entries.len() && #[trigger] self.entries@[j].0@ == p@;
                assert(self.entries@[j].0@ != p@);
            }
        }
        r
    }

    /// Normal form of `path`: surrounding whitespace trimmed, repeated
    /// separators collapsed, a trailing separator dropped unless it is the
    /// root; an empty path is the root.
    pub fn normalize_path(path: &str) -> (r: String)
        ensures
            r@ == normalize(trimmed(path@)),
    {
        crate::path::normalize_path(path)
    }

    /// The metadata of every entry directly below the directory at `path`,
    /// each once, in no particular order.
    pub fn list_directory(&self, path: &str) -> (r: Result<Vec<FileMetadata>, FsError>)
        requires
            self.wf(),
        ensures
            ({
                let p = normalize(trimmed(path@));
                &&& !self@.contains_key(p) ==> r == Err::<Vec<FileMetadata>, FsError>(FsError::NotFound)
                &&& self@.contains_key(p) && self@[p].file_type == FileType::File ==> r == Err::<
                    Vec<FileMetadata>,
                    FsError,
                >(FsError::NotADirectory)
                &&& is_dir_in(self@, p) ==> r is Ok
                &&& r is Ok ==> {
                    let v = r->Ok_0@;
                    &&& v.no_duplicates()
                    &&& forall|k: int| 0 <= k < v.len() ==> is_child_entry(self@, p, #[trigger] v[k])
                    &&& forall|c: Seq<char>|
                        #[trigger] is_direct_child(c, p) && self@.contains_key(c) ==> v.contains(
                            self@[c],
                        )
                }
            }),
    {
        let np = Self::normalize_path(path);
        match self.find(np.as_str()) {
            None => {
                return Err(FsError::NotFound);
            },
            Some(i) => {
                if self.entries[i].1.file_type != FileType::Directory {
                    return Err(FsError::NotADirectory);
                }
            },
        }
        let mut out: Vec<FileMetadata> = Vec::new();
        // For each listed entry, the position of its record.
        let ghost mut src: Seq<int> = Seq::empty();
        let mut i: usize = 0;
        while i < self.entries.len()
            invariant
                self.wf(),
                i <= self.entries.len(),
                is_normal_path(np@),
                out@.no_duplicates(),
                src.len() == out.len(),
                forall|k: int|
                    0 <= k < out.len() ==> 0 <= #[trigger] src[k] < i && is_direct_child(
                        self.entries@[src[k]].0@,
                        np@,
                    ) && out@[k] == self.entries@[src[k]].1,
                forall|j: int|
                    0 <= j < i && is_direct_child(#[trigger] self.entries@[j].0@, np@) ==> out@.contains(
                        self.entries@[j].1,
                    ),
            decreases self.entries.len() - i,
        {
            let c = &self.entries[i].0;
            if is_direct_child_path(c.as_str(), np.as_str()) {
                let m = self.entries[i].1.clone();
                proof {
                    assert forall|k: int| 0 <= k < out.len() implies out@[k] != m by {
                        let j = src[k];
                        assert(self.index@.contains_key(self.entries@[j].0@));
                        assert(self.index@.contains_key(self.entries@[i as int].0@));
                        assert(self.entries@[j].0@ != self.entries@[i as int].0@);
                        lemma_children_names_differ(
                            self.entries@[j].0@,
                            self.entries@[i as int].0@,
                            np@,
                        );
                    }
                }
                let ghost prev = out@;
                out.push(m);
                proof {
                    src = src.push(i as int);
                    assert forall|j: int|
                        0 <= j < i + 1 && is_direct_child(#[trigger] self.entries@[j].0@, np@) implies out@.contains(
                        self.entries@[j].1,
                    ) by {
                        if j == i {
                            assert(out@[out.len() - 1] == self.entries@[j].1);
                        } else {
                            assert(prev.contains(self.entries@[j].1));
                            let k = choose|k: int| 0 <= k < prev.len() && prev[k] == self.entries@[j].1;
                            assert(out@[k] == prev[k]);
                        }
                    }
                }
            }
            i = i + 1;
        }
        proof {
            let p = np@;
            let v = out@;
            assert forall|k: int| 0 <= k < v.len() implies is_child_entry(self@, p, #[trigger] v[k]) by {
                let c = self.entries@[src[k]].0@;
                assert(self.index@.contains_key(c));
                assert(is_direct_child(c, p) && self@.contains_key(c) && self@[c] == v[k]);
            }
            assert forall|c: Seq<char>| #[trigger]
                is_direct_child(c, p) && self@.contains_key(c) implies v.contains(self@[c]) by {
                let j = choose|j: int| 0 <= j < self.entries.len() && #[trigger] self.entries@[j].0@ == c;
                assert(is_direct_child(self.entries@[j].0@, np@));
                assert(self.index@[self.entries@[j].0@] == self.entries@[j].1);
            }
        }
        Ok(out)
    }

    /// The content of the file at `path`, given `stored`: what the backing
    /// store holds under that file's content key.
    pub fn read_file(&self, path: &str, stored: Option<String>) -> (r: Result<String, FsError>)
        requires
            self.wf(),
        ensures
            ({
                let p = normalize(trimmed(path@));
                &&& !self@.contains_key(p) ==> r == Err::<String, FsError>(FsError::NotFound)
                &&& is_dir_in(self@, p) ==> r == Err::<String, FsError>(FsError::NotAFile)
                &&& self@.contains_key(p) && self@[p].file_type == FileType::File ==> match stored {
                    Some(s) => r == Ok::<String, FsError>(s),
                    None => r == Err::<String, FsError>(FsError::IoError),
                }
            }),
    {
        let np = Self::normalize_path(path);
        match self.find(np.as_str()) {
            None => Err(FsError::NotFound),
            Some(i) => {
                if self.entries[i].1.file_type != FileType::File {
                    Err(FsError::NotAFile)
                } else {
                    match stored {
                        Some(s) => Ok(s),
                        None => Err(FsError::IoError),
                    }
                }
            },
        }
    }

    /// A filesystem holding the root directory alone, created at `now`.
    pub fn empty(now: u64) -> (r: FileSystem)
        ensures
            r.wf(),
            r@.dom() == set![root_path()],
            fresh_dir(r@[root_path()], root_path(), now),
    {
        let root = root_string();
        let meta = FileMetadata {
            name: root_string(),
            file_type: FileType::Directory,
            size: 0,
            created: now,
            modified: now,
        };
        let ghost m = map![root_path() => meta];
        let entries = vec![(root, meta)];
        let r = FileSystem { entries, index: Ghost(m) };
        proof {
            assert(r.entries@[0].0@ == root_path());
            assert(m.dom() =~= set![root_path()]);
            assert forall|p: Seq<char>| #[trigger] m.contains_key(p) implies exists|i: int|
                0 <= i < r.entries.len() && #[trigger] r.entries@[i].0@ == p by {
                assert(r.entries@[0].0@ == p);
            }
        }
        r
    }

    /// The records of the index, as they are saved.
    pub fn records(&self) -> (r: Vec<(String, FileMetadata)>)
        requires
            self.wf(),
        ensures
            r@ == self.record_seq(),
            records_valid(r@),
            records_index(r@) == self@,
    {
        proof {
            lemma_round_trip(self);
        }
        let mut out: Vec<(String, FileMetadata)> = Vec::new();
        let mut i: usize = 0;
        while i < self.entries.len()
            invariant
                i <= self.entries.len(),
                out@ =~= self.entries@.subrange(0, i as int),
            decreases self.entries.len() - i,
        {
            let e = &self.entries[i];
            out.push((e.0.clone(), e.1.clone()));
            i = i + 1;
        }
        out
    }

    /// The filesystem that saved records describe, or `None` when they do
    /// not describe a well-formed index.
    pub fn from_records(rs: Vec<(String, FileMetadata)>) -> (r: Option<FileSystem>)
        ensures
            r is Some <==> records_valid(rs@),
            r is Some ==> r->0.wf() && r->0@ == records_index(rs@) && r->0.record_seq() == rs@,
    {
        let n = rs.len();
        // Paths are distinct.
        let mut i: usize = 0;
        while i < n
            invariant
                n == rs.len(),
                i <= n,
                forall|a: int, b: int|
                    0 <= a < i && 0 <= b < n && a != b ==> #[trigger] rs@[a].0@ != #[trigger] rs@[b].0@,
            decreases n - i,
        {
            let mut j: usize = 0;
            while j < n
                invariant
                    n == rs.len(),
                    i < n,
                    j <= n,
                    forall|a: int, b: int|
                        0 <= a < i && 0 <= b < n && a != b ==> #[trigger] rs@[a].0@ != #[trigger] rs@[b].0@,
                    forall|b: int| 0 <= b < j && b != i ==> rs@[i as int].0@ != #[trigger] rs@[b].0@,
                decreases n - j,
            {
                if j != i && same_chars(rs[i].0.as_str(), rs[j].0.as_str()) {
                    return None;
                }
                j = j + 1;
            }
            i = i + 1;
        }
        assert(distinct_paths(rs@));
        let ghost m = records_index(rs@);
        proof {
            lemma_records_index(rs@);
        }
        // Each record on its own, and its parent.
        let mut i: usize = 0;
        while i < n
            invariant
                n == rs.len(),
                i <= n,
                distinct_paths(rs@),
                m == records_index(rs@),
                forall|k: int|
                    0 <= k < rs.len() ==> #[trigger] m.contains_key(rs@[k].0@) && m[rs@[k].0@]
                        == rs@[k].1,
                forall|k: int|
                    0 <= k < i ==> {
                        let p = #[trigger] rs@[k].0@;
                        &&& is_normal_path(p)
                        &&& m[p].name@ == name_of(p)
                        &&& m[p].file_type == FileType::Directory ==> m[p].size == 0
                        &&& p != root_path() ==> is_dir_in(m, parent_of(p))
                    },
            decreases n - i,
        {
            let p = rs[i].0.as_str();
            let meta = &rs[i].1;
            proof {
                assert(m.contains_key(rs@[i as int].0@));
            }
            if !is_normal(p) {
                return None;
            }
            let name = entry_name(p);
            if !same_chars(name.as_str(), meta.name.as_str()) {
                return None;
            }
            if meta.file_type == FileType::Directory && meta.size != 0 {
                return None;
            }
            if !is_root(p) {
                let q = parent_path(p);
                match find_path(&rs, q.as_str()) {
                    None => {
                        proof {
                            if m.contains_key(q@) {
                                let k = choose|k: int| 0 <= k < rs.len() && #[trigger] rs@[k].0@ == q@;
                                assert(rs@[k].0@ != q@);
                            }
                        }
                        return None;
                    },
                    Some(k) => {
                        if rs[k].1.file_type != FileType::Directory {
                            return None;
                        }
                    },
                }
            }
            i = i + 1;
        }
        match find_path(&rs, root_string().as_str()) {
            None => {
                return None;
            },
            Some(k) => {
                if rs[k].1.file_type != FileType::Directory {
                    return None;
                }
            },
        }
        proof {
            assert forall|p: Seq<char>| #[trigger] m.contains_key(p) implies {
                &&& is_normal_path(p)
                &&& m[p].name@ == name_of(p)
                &&& m[p].file_type == FileType::Directory ==> m[p].size == 0
                &&& p != root_path() ==> is_dir_in(m, parent_of(p))
            } by {
                let k = choose|k: int| 0 <= k < rs.len() && #[trigger] rs@[k].0@ == p;
            }
            assert(well_formed_index(m));
        }
        Some(FileSystem { entries: rs, index: Ghost(m) })
    }

    /// Adds the record `(p, meta)` for a path that the index does not hold.
    fn add_entry(&mut self, p: String, meta: FileMetadata)
        requires
            old(self).wf(),
            !old(self)@.contains_key(p@),
            is_normal_path(p@),
            p@ != root_path(),
            is_dir_in(old(self)@, parent_of(p@)),
            meta.name@ == name_of(p@),
            meta.file_type == FileType::Directory ==> meta.size == 0,
        ensures
            final(self).wf(),
            final(self)@ == old(self)@.insert(p@, meta),
    {
        let ghost old_index = self.index@;
        let ghost old_entries = self.entries@;
        let ghost key = p@;
        let ghost gm = meta;
        self.entries.push((p, meta));
        self.index = Ghost(old_index.insert(key, gm));
        proof {
            let n = old_entries.len() as int;
            assert forall|i: int| 0 <= i < n implies old_entries[i].0@ != key by {
                assert(old_index.contains_key(old_entries[i].0@));
            }
            assert(self.entries@[n] == (p, gm));
            assert forall|i: int| 0 <= i <= n implies #[trigger] self.index@.contains_key(self.entries@[i].0@)
                && self.index@[self.entries@[i].0@] == self.entries@[i].1 by {
                if i < n {
                    assert(self.entries@[i] == old_entries[i]);
                    assert(old_index.contains_key(old_entries[i].0@));
                }
            }
            assert forall|q: Seq<char>| #[trigger] self.index@.contains_key(q) implies exists|i: int|
                0 <= i < self.entries.len() && #[trigger] self.entries@[i].0@ == q by {
                if q == key {
                    assert(self.entries@[n].0@ == q);
                } else {
                    let i = choose|i: int| 0 <= i < old_entries.len() && #[trigger] old_entries[i].0@ == q;
                    assert(self.entries@[i] == old_entries[i]);
                }
            }
            assert forall|i: int, j: int|
                0 <= i < self.entries.len() && 0 <= j < self.entries.len() && i != j implies #[trigger] self.entries@[i].0@
                != #[trigger] self.entries@[j].0@ by {
                if i < n && j < n {
                    assert(self.entries@[i] == old_entries[i]);
                    assert(self.entries@[j] == old_entries[j]);
                } else if i < n {
                    assert(self.entries@[i] == old_entries[i]);
                } else if j < n {
                    assert(self.entries@[j] == old_entries[j]);
                }
            }
            let m = self.index@;
            assert forall|q: Seq<char>| #![trigger m.contains_key(q), parent_of(q)] m.contains_key(q) && q != root_path() implies is_dir_in(
                m,
                parent_of(q),
            ) by {
                if q != key {
                    assert(old_index.contains_key(q));
                    assert(parent_of(q) != key);
                }
            }
        }
    }

    /// Adds a fresh directory, made at `now`, for each path of `chain`, from
    /// the last up: each path's parent is the next one, and that of the last
    /// is a directory already present.
    fn add_chain(&mut self, chain: &Vec<String>, now: u64)
        requires
            old(self).wf(),
            ({
                let c = string_views(chain@);
                let m = old(self)@;
                &&& c.len() > 0
                &&& forall|j: int|
                    0 <= j < c.len() ==> is_normal_path(#[trigger] c[j]) && c[j] != root_path()
                        && !m.contains_key(c[j])
                &&& forall|j: int| 1 <= j < c.len() ==> #[trigger] c[j] == parent_of(c[j - 1])
                &&& forall|j: int, l: int| 0 <= j < l < c.len() ==> #[trigger] c[l].len() < #[trigger] c[j].len()
                &&& is_dir_in(m, parent_of(c.last()))
            }),
        ensures
            final(self).wf(),
            forall|x: Seq<char>|
                #[trigger] final(self)@.contains_key(x) <==> (old(self)@.contains_key(x) || string_views(chain@).contains(x)),
            forall|x: Seq<char>| #[trigger] old(self)@.contains_key(x) ==> final(self)@[x] == old(self)@[x],
            forall|x: Seq<char>| #[trigger] string_views(chain@).contains(x) ==> fresh_dir(final(self)@[x], x, now),
    {
        let ghost m = self@;
        let ghost c = string_views(chain@);
        let mut k = chain.len();
        while k > 0
            invariant
                self.wf(),
                k <= chain.len(),
                c == string_views(chain@),
                c.len() == chain.len(),
                c.len() > 0,
                forall|j: int|
                    0 <= j < c.len() ==> is_normal_path(#[trigger] c[j]) && c[j] != root_path()
                        && !m.contains_key(c[j]),
                forall|j: int| 1 <= j < c.len() ==> #[trigger] c[j] == parent_of(c[j - 1]),
                forall|j: int, l: int| 0 <= j < l < c.len() ==> #[trigger] c[l].len() < #[trigger] c[j].len(),
                is_dir_in(m, parent_of(c.last())),
                forall|x: Seq<char>|
                    #[trigger] self@.contains_key(x) <==> (m.contains_key(x) || c.subrange(
                        k as int,
                        c.len() as int,
                    ).contains(x)),
                forall|x: Seq<char>| #[trigger] m.contains_key(x) ==> self@[x] == m[x],
                forall|j: int| k <= j < c.len() ==> fresh_dir(self@[#[trigger] c[j]], c[j], now),
            decreases k,
        {
            let d = dir_metadata(chain[k - 1].as_str(), now);
            let ghost x = c[k - 1];
            proof {
                assert(x == chain@[k - 1]@);
                if k == chain.len() {
                    assert(is_dir_in(self@, parent_of(x)));
                } else {
                    assert(c[k as int] == parent_of(x));
                    assert(c.subrange(k as int, c.len() as int)[0] == c[k as int]);
                    assert(fresh_dir(self@[c[k as int]], c[k as int], now));
                }
                if self@.contains_key(x) {
                    let t = c.subrange(k as int, c.len() as int);
                    let j = choose|j: int| 0 <= j < t.len() && t[j] == x;
                    assert(c[k + j] == x);
                    assert(c[k + j].len() < c[k - 1].len());
                }
            }
            self.add_entry(chain[k - 1].clone(), d);
            proof {
                assert forall|y: Seq<char>|
                    #[trigger] self@.contains_key(y) <==> (m.contains_key(y) || c.subrange(
                        k - 1,
                        c.len() as int,
                    ).contains(y)) by {
                    let t = c.subrange(k as int, c.len() as int);
                    let u = c.subrange(k - 1, c.len() as int);
                    if t.contains(y) {
                        let j = choose|j: int| 0 <= j < t.len() && t[j] == y;
                        assert(u[j + 1] == y);
                    }
                    if u.contains(y) && y != x {
                        let j = choose|j: int| 0 <= j < u.len() && u[j] == y;
                        assert(j != 0);
                        assert(t[j - 1] == y);
                    }
                    if y == x {
                        assert(u[0] == y);
                    }
                }
            }
            k = k - 1;
        }
        proof {
            assert(c.subrange(0, c.len() as int) =~= c);
        }
        proof {
            assert(c.subrange(0, c.len() as int) =~= c);
            assert forall|x: Seq<char>| #[trigger] c.contains(x) implies fresh_dir(self@[x], x, now) by {
                let j = choose|j: int| 0 <= j < c.len() && c[j] == x;
            }
        }
    }

    /// Creates a directory at the path `np`, taken as already normalized.
    fn create_dir_at(&mut self, np: &String, create_parents: bool, now: u64) -> (r: Result<
        Vec<StoreAction>,
        FsError,
    >)
        requires
            old(self).wf(),
        ensures
            final(self).wf(),
            match create_error(old(self)@, np@, create_parents) {
                Some(e) => r == Err::<Vec<StoreAction>, FsError>(e) && *final(self) == *old(self),
                None => r is Ok && saves_index_only(r->Ok_0@) && created_dirs(
                    old(self)@,
                    final(self)@,
                    np@,
                    now,
                ),
            },
    {
        if self.find(np.as_str()).is_some() {
            return Err(FsError::AlreadyExists);
        }
        if !is_normal(np.as_str()) {
            return Err(FsError::InvalidPath);
        }
        let ghost m = self@;
        let ghost orig = *self;
        let ghost c = missing_chain(m, np@);
        proof {
            lemma_missing_chain(m, np@);
            lemma_ends_without_slash(np@);
            lemma_parent_split(np@);
        }
        let mut chain: Vec<String> = Vec::new();
        chain.push(np.clone());
        let mut q = parent_path(np.as_str());
        if create_parents {
            loop
                invariant
                    self.wf(),
                    *self == orig,
                    self@ == m,
                    create_parents,
                    !m.contains_key(np@),
                    is_normal_path(np@),
                    well_formed_index(m),
                    is_normal_path(q@),
                    string_views(chain@) + missing_chain(m, q@) == c,
                    nearest_present(m, q@) == nearest_present(m, np@),
                ensures
                    string_views(chain@) == c,
                    m[nearest_present(m, np@)].file_type == FileType::Directory,
                decreases q@.len(),
            {
                match self.find(q.as_str()) {
                    Some(k) => {
                        proof {
                            assert(nearest_present(m, q@) == q@);
                        }
                        if self.entries[k].1.file_type != FileType::Directory {
                            proof {
                                assert(nearest_present(m, np@) == q@);
                                assert(m[q@].file_type == FileType::File);
                                assert(create_error(m, np@, create_parents) == Some(FsError::NotADirectory));
                            }
                            return Err(FsError::NotADirectory);
                        }
                        proof {
                            assert(missing_chain(m, q@) == Seq::<Seq<char>>::empty());
                            assert(string_views(chain@) + missing_chain(m, q@) =~= string_views(chain@));
                        }
                        break;
                    },
                    None => {
                        proof {
                            lemma_ends_without_slash(q@);
                            if q@ == root_path() {
                                assert(m.contains_key(root_path()));
                            }
                            lemma_parent_split(q@);
                            assert(missing_chain(m, q@) == seq![q@] + missing_chain(m, parent_of(q@)));
                        }
                        let ghost before = chain@;
                        chain.push(q.clone());
                        proof {
                            assert(string_views(chain@) =~= string_views(before).push(q@));
                            assert(string_views(chain@) + missing_chain(m, parent_of(q@)) =~= string_views(before) + missing_chain(m, q@));
                        }
                        q = parent_path(q.as_str());
                    },
                }
            }
        } else {
            match self.find(q.as_str()) {
                None => {
                    return Err(FsError::ParentMissing);
                },
                Some(k) => {
                    if self.entries[k].1.file_type != FileType::Directory {
                        return Err(FsError::NotADirectory);
                    }
                },
            }
            proof {
                assert(missing_chain(m, q@) == Seq::<Seq<char>>::empty());
                assert(c == seq![np@] + missing_chain(m, q@));
                assert(string_views(chain@) =~= c);
            }
        }
        proof {
            assert(c.len() > 0);
            assert(parent_of(c.last()) == nearest_present(m, np@));
        }
        self.add_chain(&chain, now);
        Ok(vec![StoreAction::SaveIndex])
    }

    /// Creates the directory at `path`. With `create_parents`, every absent
    /// ancestor is created too, from the nearest present one down; without
    /// it, the parent must already exist. On failure nothing changes. On
    /// success the only store write is saving the index.
    pub fn create_directory(&mut self, path: &str, create_parents: bool, now: u64) -> (r: Result<
        Vec<StoreAction>,
        FsError,
    >)
        requires
            old(self).wf(),
        ensures
            final(self).wf(),
            ({
                let p = normalize(trimmed(path@));
                match create_error(old(self)@, p, create_parents) {
                    Some(e) => r == Err::<Vec<StoreAction>, FsError>(e) && *final(self) == *old(self),
                    None => r is Ok && saves_index_only(r->Ok_0@) && created_dirs(
                        old(self)@,
                        final(self)@,
                        p,
                        now,
                    ),
                }
            }),
    {
        let np = Self::normalize_path(path);
        self.create_dir_at(&np, create_parents, now)
    }

    /// Replaces the metadata of the file recorded at position `i`.
    fn replace_entry(&mut self, i: usize, meta: FileMetadata)
        requires
            old(self).wf(),
            i < old(self).entries.len(),
            old(self).entries@[i as int].1.file_type == FileType::File,
            meta.file_type == FileType::File,
            meta.name@ == name_of(old(self).entries@[i as int].0@),
        ensures
            final(self).wf(),
            final(self)@ == old(self)@.insert(old(self).entries@[i as int].0@, meta),
    {
        let ghost old_index = self.index@;
        let ghost old_entries = self.entries@;
        let ghost key = self.entries@[i as int].0@;
        let ghost gm = meta;
        let p = self.entries[i].0.clone();
        self.entries.set(i, (p, meta));
        self.index = Ghost(old_index.insert(key, gm));
        proof {
            assert(old_index.contains_key(key));
            assert forall|j: int| 0 <= j < self.entries.len() implies #[trigger] self.index@.contains_key(self.entries@[j].0@)
                && self.index@[self.entries@[j].0@] == self.entries@[j].1 by {
                if j != i {
                    assert(self.entries@[j] == old_entries[j]);
                    assert(old_index.contains_key(old_entries[j].0@));
                    assert(old_entries[j].0@ != key);
                }
            }
            assert forall|q: Seq<char>| #[trigger] self.index@.contains_key(q) implies exists|j: int|
                0 <= j < self.entries.len() && #[trigger] self.entries@[j].0@ == q by {
                let j = choose|j: int| 0 <= j < old_entries.len() && #[trigger] old_entries[j].0@ == q;
                assert(self.entries@[j].0@ == old_entries[j].0@);
            }
            assert forall|a: int, b: int|
                0 <= a < self.entries.len() && 0 <= b < self.entries.len() && a != b implies #[trigger] self.entries@[a].0@
                != #[trigger] self.entries@[b].0@ by {
                assert(self.entries@[a].0@ == old_entries[a].0@);
                assert(self.entries@[b].0@ == old_entries[b].0@);
            }
            let m = self.index@;
            assert forall|q: Seq<char>| #![trigger m.contains_key(q), parent_of(q)] m.contains_key(q) && q != root_path() implies is_dir_in(
                m,
                parent_of(q),
            ) by {
                assert(old_index.contains_key(q));
                assert(is_dir_in(old_index, parent_of(q)));
            }
        }
    }

    /// Writes `contents` to the file at `path`, creating it or overwriting
    /// it. The parent must be an existing directory; it is never created.
    /// An overwrite keeps the creation time. On success the store writes
    /// are the content under the file's content key, then the index.
    pub fn write_file(&mut self, path: &str, contents: &str, now: u64) -> (r: Result<
        Vec<StoreAction>,
        FsError,
    >)
        requires
            old(self).wf(),
        ensures
            final(self).wf(),
            ({
                let p = normalize(trimmed(path@));
                match write_error(old(self)@, p) {
                    Some(e) => r == Err::<Vec<StoreAction>, FsError>(e) && *final(self) == *old(self),
                    None => {
                        &&& r is Ok
                        &&& r->Ok_0@.len() == 2
                        &&& is_set(r->Ok_0@[0], content_key(p), contents@)
                        &&& r->Ok_0@[1] is SaveIndex
                        &&& final(self)@ == old(self)@.insert(p, final(self)@[p])
                        &&& file_meta(
                            final(self)@[p],
                            p,
                            contents.len() as int,
                            if old(self)@.contains_key(p) {
                                old(self)@[p].created
                            } else {
                                now
                            },
                            now,
                        )
                    },
                }
            }),
    {
        let np = Self::normalize_path(path);
        if !is_normal(np.as_str()) || is_root(np.as_str()) {
            return Err(FsError::InvalidPath);
        }
        let q = parent_path(np.as_str());
        match self.find(q.as_str()) {
            None => {
                return Err(FsError::ParentMissing);
            },
            Some(k) => {
                if self.entries[k].1.file_type != FileType::Directory {
                    return Err(FsError::NotADirectory);
                }
            },
        }
        proof {
            lemma_ends_without_slash(np@);
            lemma_parent_split(np@);
        }
        let size = contents.len();
        let ghost m = self@;
        match self.find(np.as_str()) {
            Some(i) => {
                if self.entries[i].1.file_type == FileType::Directory {
                    return Err(FsError::InvalidPath);
                }
                let meta = FileMetadata {
                    name: entry_name(np.as_str()),
                    file_type: FileType::File,
                    size,
                    created: self.entries[i].1.created,
                    modified: now,
                };
                self.replace_entry(i, meta);
            },
            None => {
                let meta = FileMetadata {
                    name: entry_name(np.as_str()),
                    file_type: FileType::File,
                    size,
                    created: now,
                    modified: now,
                };
                self.add_entry(np.clone(), meta);
            },
        }
        proof {
            assert(self@ =~= m.insert(np@, self@[np@]));
        }
        let key = content_key_of(np.as_str());
        let value = String::from_str(contents);
        Ok(vec![StoreAction::SetItem { key, value }, StoreAction::SaveIndex])
    }

    /// Splits the records into those kept when `p` and everything below it
    /// go, and the content removals of the files that go; with the positions
    /// of both in the records.
    fn split_records(&self, p: &String) -> (r: (
        Vec<(String, FileMetadata)>,
        Vec<StoreAction>,
        Ghost<Seq<int>>,
        Ghost<Seq<int>>,
    ))
        requires
            self.wf(),
        ensures
            r.2@.len() == r.0.len(),
            r.3@.len() == r.1.len(),
            forall|t: int|
                0 <= t < r.0.len() ==> 0 <= #[trigger] r.2@[t] < self.entries.len() && r.0@[t] == self.entries@[r.2@[t]]
                    && !doomed(p@, r.0@[t].0@),
            forall|t: int, u: int| 0 <= t < u < r.0.len() ==> #[trigger] r.2@[t] < #[trigger] r.2@[u],
            forall|j: int|
                0 <= j < self.entries.len() && !doomed(p@, #[trigger] self.entries@[j].0@) ==> exists|t: int|
                    0 <= t < r.0.len() && r.2@[t] == j,
            forall|t: int|
                0 <= t < r.1.len() ==> 0 <= #[trigger] r.3@[t] < self.entries.len() && doomed(
                    p@,
                    self.entries@[r.3@[t]].0@,
                ) && self.entries@[r.3@[t]].1.file_type == FileType::File && is_remove(
                    r.1@[t],
                    content_key(self.entries@[r.3@[t]].0@),
                ),
            forall|t: int, u: int| 0 <= t < u < r.1.len() ==> #[trigger] r.3@[t] < #[trigger] r.3@[u],
            forall|j: int|
                0 <= j < self.entries.len() && doomed(p@, #[trigger] self.entries@[j].0@)
                    && self.entries@[j].1.file_type == FileType::File ==> exists|t: int|
                    0 <= t < r.1.len() && r.3@[t] == j,
    {
        let n = self.entries.len();
        let mut kept: Vec<(String, FileMetadata)> = Vec::new();
        let mut acts: Vec<StoreAction> = Vec::new();
        let ghost mut ksrc: Seq<int> = Seq::empty();
        let ghost mut asrc: Seq<int> = Seq::empty();
        let mut i: usize = 0;
        while i < n
            invariant
                self.wf(),
                n == self.entries.len(),
                i <= n,
                ksrc.len() == kept.len(),
                asrc.len() == acts.len(),
                forall|t: int|
                    0 <= t < kept.len() ==> 0 <= #[trigger] ksrc[t] < i && kept@[t] == self.entries@[ksrc[t]]
                        && !doomed(p@, kept@[t].0@),
                forall|t: int, u: int| 0 <= t < u < kept.len() ==> #[trigger] ksrc[t] < #[trigger] ksrc[u],
                forall|j: int|
                    0 <= j < i && !doomed(p@, #[trigger] self.entries@[j].0@) ==> exists|t: int|
                        0 <= t < kept.len() && ksrc[t] == j,
                forall|t: int|
                    0 <= t < acts.len() ==> 0 <= #[trigger] asrc[t] < i && doomed(
                        p@,
                        self.entries@[asrc[t]].0@,
                    ) && self.entries@[asrc[t]].1.file_type == FileType::File && is_remove(
                        acts@[t],
                        content_key(self.entries@[asrc[t]].0@),
                    ),
                forall|t: int, u: int| 0 <= t < u < acts.len() ==> #[trigger] asrc[t] < #[trigger] asrc[u],
                forall|j: int|
                    0 <= j < i && doomed(p@, #[trigger] self.entries@[j].0@)
                        && self.entries@[j].1.file_type == FileType::File ==> exists|t: int|
                        0 <= t < acts.len() && asrc[t] == j,
            decreases n - i,
        {
            let ghost ksrc0 = ksrc;
            let ghost asrc0 = asrc;
            let e = &self.entries[i];
            let gone = same_chars(e.0.as_str(), p.as_str()) || is_descendant_path(
                e.0.as_str(),
                p.as_str(),
            );
            if gone {
                if e.1.file_type == FileType::File {
                    let key = content_key_of(e.0.as_str());
                    acts.push(StoreAction::RemoveItem { key });
                    proof {
                        asrc = asrc.push(i as int);
                    }
                }
            } else {
                kept.push((e.0.clone(), e.1.clone()));
                proof {
                    ksrc = ksrc.push(i as int);
                }
            }
            proof {
                assert forall|j: int|
                    0 <= j < i + 1 && !doomed(p@, #[trigger] self.entries@[j].0@) implies exists|t: int|
                    0 <= t < kept.len() && ksrc[t] == j by {
                    if j == i {
                        assert(ksrc[kept.len() - 1] == j);
                    } else {
                        let t = choose|t: int| 0 <= t < ksrc0.len() && ksrc0[t] == j;
                        assert(ksrc[t] == ksrc0[t]);
                    }
                }
                assert forall|j: int|
                    0 <= j < i + 1 && doomed(p@, #[trigger] self.entries@[j].0@)
                        && self.entries@[j].1.file_type == FileType::File implies exists|t: int|
                    0 <= t < acts.len() && asrc[t] == j by {
                    if j == i {
                        assert(asrc[acts.len() - 1] == j);
                    } else {
                        let t = choose|t: int| 0 <= t < asrc0.len() && asrc0[t] == j;
                        assert(asrc[t] == asrc0[t]);
                    }
                }
            }
            i = i + 1;
        }
        proof {
            assert forall|j: int|
                0 <= j < n && !doomed(p@, #[trigger] self.entries@[j].0@) implies exists|t: int|
                0 <= t < kept.len() && ksrc[t] == j by {
                let t = choose|t: int| 0 <= t < kept.len() && ksrc[t] == j;
                assert(ksrc[t] == j);
            }
        }
        (kept, acts, Ghost(ksrc), Ghost(asrc))
    }

    /// Removes `p` and every entry below it, and returns the store writes
    /// that go with it.
    fn remove_subtree(&mut self, p: &String) -> (acts: Vec<StoreAction>)
        requires
            old(self).wf(),
            p@ != root_path(),
            old(self)@.contains_key(p@),
        ensures
            final(self).wf(),
            final(self)@ == without_subtree(old(self)@, p@),
            deletion_writes(old(self)@, p@, acts@),
    {
        let (kept, mut acts, Ghost(ksrc), Ghost(asrc)) = self.split_records(p);
        let ghost m = self@;
        let ghost nm = without_subtree(m, p@);
        let ghost es = self.entries@;
        proof {
            assert(deletion_writes(m, p@, acts@.push(StoreAction::SaveIndex))) by {
                lemma_removal_writes(m, es, acts@, asrc, p@);
                lemma_writes_then_save(m, p@, acts@);
            }
            assert({
                &&& distinct_paths(kept@)
                &&& forall|t: int|
                    0 <= t < kept.len() ==> #[trigger] nm.contains_key(kept@[t].0@) && nm[kept@[t].0@]
                        == kept@[t].1
                &&& forall|c: Seq<char>|
                    #[trigger] nm.contains_key(c) ==> exists|t: int|
                        0 <= t < kept.len() && #[trigger] kept@[t].0@ == c
                &&& well_formed_index(nm)
            }) by {
                lemma_kept_records(m, es, kept@, ksrc, p@);
            }
        }
        acts.push(StoreAction::SaveIndex);
        self.entries = kept;
        self.index = Ghost(nm);
        acts
    }

    /// Deletes the entry at `path`. A file goes with its content. A
    /// directory goes with everything below it when `recursive`; otherwise
    /// it must have no children. The root is never deleted. On failure
    /// nothing changes. On success the store writes remove the content of
    /// each deleted file, then save the index.
    pub fn delete(&mut self, path: &str, recursive: bool) -> (r: Result<Vec<StoreAction>, FsError>)
        requires
            old(self).wf(),
        ensures
            final(self).wf(),
            ({
                let p = normalize(trimmed(path@));
                match delete_error(old(self)@, p, recursive) {
                    Some(e) => r == Err::<Vec<StoreAction>, FsError>(e) && *final(self) == *old(self),
                    None => {
                        &&& r is Ok
                        &&& final(self)@ == without_subtree(old(self)@, p)
                        &&& deletion_writes(old(self)@, p, r->Ok_0@)
                    },
                }
            }),
    {
        let np = Self::normalize_path(path);
        if is_root(np.as_str()) {
            return Err(FsError::NotFound);
        }
        let i = match self.find(np.as_str()) {
            None => {
                return Err(FsError::NotFound);
            },
            Some(i) => i,
        };
        if self.entries[i].1.file_type == FileType::Directory && !recursive {
            let ghost orig = *self;
            let mut j: usize = 0;
            while j < self.entries.len()
                invariant
                    self.wf(),
                    *self == orig,
                    orig == *old(self),
                    !recursive,
                    np@ == normalize(trimmed(path@)),
                    np@ != root_path(),
                    is_dir_in(self@, np@),
                    j <= self.entries.len(),
                    forall|k: int| 0 <= k < j ==> !is_direct_child(#[trigger] self.entries@[k].0@, np@),
                decreases self.entries.len() - j,
            {
                if is_direct_child_path(self.entries[j].0.as_str(), np.as_str()) {
                    proof {
                        assert(self.index@.contains_key(self.entries@[j as int].0@));
                        assert(has_children(self@, np@));
                    }
                    return Err(FsError::DirectoryNotEmpty);
                }
                j = j + 1;
            }
            proof {
                if has_children(self@, np@) {
                    let c = choose|c: Seq<char>| #[trigger] is_direct_child(c, np@) && self@.contains_key(c);
                    let k = choose|k: int| 0 <= k < self.entries.len() && #[trigger] self.entries@[k].0@ == c;
                    assert(!is_direct_child(self.entries@[k].0@, np@));
                }
            }
        }
        Ok(self.remove_subtree(&np))
    }

    /// A fresh filesystem: the root and the seed directories, each created
    /// with its parents at `now`.
    pub fn seeded(now: u64) -> (r: FileSystem)
        ensures
            r.wf(),
            r@.dom() == seed_dirs().insert(root_path()),
            forall|p: Seq<char>| #[trigger] r@.contains_key(p) ==> fresh_dir(r@[p], p, now),
    {
        proof {
            reveal_strlit("home");
            reveal_strlit("documents");
            reveal_strlit("pictures");
            reveal_strlit("applications");
            reveal_strlit("/home");
            reveal_strlit("/home/documents");
            reveal_strlit("/home/pictures");
            reveal_strlit("/applications");
        }
        let mut fs = Self::empty(now);
        let root = root_string();
        let home = join_path(&root, "home");
        let documents = join_path(&home, "documents");
        let pictures = join_path(&home, "pictures");
        let applications = join_path(&root, "applications");
        let ghost r = root_path();
        let ghost h = home@;
        let ghost d = documents@;
        let ghost pi = pictures@;
        let ghost a = applications@;
        proof {
            assert(h =~= "/home"@);
            assert(d =~= "/home/documents"@);
            assert(pi =~= "/home/pictures"@);
            assert(a =~= "/applications"@);
            assert(is_plain_segment("home"@));
            assert(is_plain_segment("documents"@));
            assert(is_plain_segment("pictures"@));
            assert(is_plain_segment("applications"@));
            lemma_join(r, "home"@);
            lemma_create_below(fs@, r, "home"@);
        }
        let _ = fs.create_dir_at(&home, true, now);
        proof {
            assert(seq![h][0] == h);
            assert(seq![h].contains(h));
            lemma_create_below(fs@, h, "documents"@);
        }
        let ghost s1 = fs@;
        let _ = fs.create_dir_at(&documents, true, now);
        proof {
            assert(s1.contains_key(h));
            assert(seq![d][0] == d);
            assert(seq![d].contains(d));
            lemma_create_below(fs@, h, "pictures"@);
        }
        let ghost s2 = fs@;
        let _ = fs.create_dir_at(&pictures, true, now);
        proof {
            assert(s2.contains_key(r));
            assert(seq![pi][0] == pi);
            assert(seq![pi].contains(pi));
            lemma_create_below(fs@, r, "applications"@);
        }
        let ghost s3 = fs@;
        let _ = fs.create_dir_at(&applications, true, now);
        proof {
            assert(s3.contains_key(r));
            assert(s3.contains_key(h));
            assert(s3.contains_key(d));
            assert(s3.contains_key(pi));
            assert(seq![a][0] == a);
            assert(seq![a].contains(a));
            assert(fs@.dom() =~= seed_dirs().insert(root_path())) by {
                assert forall|x: Seq<char>| fs@.contains_key(x) implies x == r || x == h || x == d || x == pi || x == a by {
                    if seq![a].contains(x) { assert(x == a); }
                    if seq![pi].contains(x) { assert(x == pi); }
                    if seq![d].contains(x) { assert(x == d); }
                    if seq![h].contains(x) { assert(x == h); }
                }
            }
            assert forall|x: Seq<char>| #[trigger] fs@.contains_key(x) implies fresh_dir(fs@[x], x, now) by {
                if x == a { assert(seq![a].contains(x)); }
                if x == pi { assert(seq![pi].contains(x)); }
                if x == d { assert(seq![d].contains(x)); }
                if x == h { assert(seq![h].contains(x)); }
            }
        }
        fs
    }

    /// The filesystem to start from: the one `saved` describes when it holds
    /// valid records, with nothing to write; otherwise a fresh seeded one,
    /// which is then saved.
    pub fn new(saved: Option<Vec<(String, FileMetadata)>>, now: u64) -> (r: (
        FileSystem,
        Vec<StoreAction>,
    ))
        ensures
            r.0.wf(),
            saved is Some && records_valid(saved->0@) ==> r.0@ == records_index(saved->0@)
                && r.1@.len() == 0,
            !(saved is Some && records_valid(saved->0@)) ==> {
                &&& r.0@.dom() == seed_dirs().insert(root_path())
                &&& forall|p: Seq<char>| #[trigger] r.0@.contains_key(p) ==> fresh_dir(r.0@[p], p, now)
                &&& saves_index_only(r.1@)
            },
    {
        if let Some(rs) = saved {
            if let Some(fs) = Self::from_records(rs) {
                return (fs, Vec::new());
            }
        }
        (Self::seeded(now), vec![StoreAction::SaveIndex])
    }
}

} // verus!
