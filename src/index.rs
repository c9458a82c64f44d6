//! The model of an index, a map from normalized paths to metadata: its
//! invariants, what each operation does to it, and the facts the proofs
//! use about it.
use vstd::prelude::*;
use crate::entry::{FileMetadata, FileType, FsError};
use crate::path::{
    dir_prefix, is_descendant, is_direct_child, is_normal_path, is_plain_segment,
    lemma_child_of_parent, lemma_descendant_of_parent, lemma_ends_without_slash, lemma_join,
    lemma_last_slash, lemma_parent_split, lemma_root_not_below, name_of, parent_of, root_path,
};
use crate::store::{content_key, is_remove, lemma_content_keys_distinct, StoreAction};

verus! {

/// The model of an index: normalized path to metadata.
pub type Index = Map<Seq<char>, FileMetadata>;

/// `m` describes a directory named after `p`, just created at `now`.
pub open spec fn fresh_dir(m: FileMetadata, p: Seq<char>, now: u64) -> bool {
    &&& m.name@ == name_of(p)
    &&& m.file_type == FileType::Directory
    &&& m.size == 0
    &&& m.created == now
    &&& m.modified == now
}

/// `x` is the metadata of an entry of `m` directly below `p`.
pub open spec fn is_child_entry(m: Index, p: Seq<char>, x: FileMetadata) -> bool {
    exists|c: Seq<char>| #[trigger] is_direct_child(c, p) && m.contains_key(c) && m[c] == x
}

/// `m` holds the entry at `p` and it is a directory.
pub open spec fn is_dir_in(m: Index, p: Seq<char>) -> bool {
    m.contains_key(p) && m[p].file_type == FileType::Directory
}

/// The invariants of an index: the root is a directory, every path is
/// normal, every other entry has a directory for parent, names are the last
/// segments of the paths, and directories have size 0.
pub open spec fn well_formed_index(m: Index) -> bool {
    &&& is_dir_in(m, root_path())
    &&& forall|p: Seq<char>| #[trigger] m.contains_key(p) ==> is_normal_path(p)
    &&& forall|p: Seq<char>|
        #![trigger m.contains_key(p), parent_of(p)]
        m.contains_key(p) && p != root_path() ==> is_dir_in(m, parent_of(p))
    &&& forall|p: Seq<char>| #[trigger] m.contains_key(p) ==> m[p].name@ == name_of(p)
    &&& forall|p: Seq<char>|
        #[trigger] m.contains_key(p) && m[p].file_type == FileType::Directory ==> m[p].size == 0
}

/// The paths of `rs` are pairwise distinct.
pub open spec fn distinct_paths(rs: Seq<(String, FileMetadata)>) -> bool {
    forall|i: int, j: int|
        0 <= i < rs.len() && 0 <= j < rs.len() && i != j ==> #[trigger] rs[i].0@ != #[trigger] rs[j].0@
}

/// The index that a list of (path, metadata) records describes.
pub open spec fn records_index(rs: Seq<(String, FileMetadata)>) -> Index {
    Map::new(
        |p: Seq<char>| exists|i: int| 0 <= i < rs.len() && #[trigger] rs[i].0@ == p,
        |p: Seq<char>| rs[choose|i: int| 0 <= i < rs.len() && #[trigger] rs[i].0@ == p].1,
    )
}

/// Records that load into a well-formed index.
pub open spec fn records_valid(rs: Seq<(String, FileMetadata)>) -> bool {
    distinct_paths(rs) && well_formed_index(records_index(rs))
}

/// The absent directories that creating `p` with its parents adds, from `p`
/// upwards, stopping below the nearest path that `m` holds.
pub open spec fn missing_chain(m: Index, p: Seq<char>) -> Seq<Seq<char>>
    decreases p.len(),
{
    if p.len() <= 1 || m.contains_key(p) {
        Seq::empty()
    } else {
        proof {
            lemma_last_slash(p);
        }
        seq![p] + missing_chain(m, parent_of(p))
    }
}

/// The nearest of `p` and its ancestors that `m` holds.
pub open spec fn nearest_present(m: Index, p: Seq<char>) -> Seq<char>
    decreases p.len(),
{
    if p.len() <= 1 || m.contains_key(p) {
        p
    } else {
        proof {
            lemma_last_slash(p);
        }
        nearest_present(m, parent_of(p))
    }
}

/// Why creating directory `p` fails on index `m`, if it does.
pub open spec fn create_error(m: Index, p: Seq<char>, create_parents: bool) -> Option<FsError> {
    if m.contains_key(p) {
        Some(FsError::AlreadyExists)
    } else if !is_normal_path(p) {
        Some(FsError::InvalidPath)
    } else if create_parents {
        if m[nearest_present(m, p)].file_type == FileType::File {
            Some(FsError::NotADirectory)
        } else {
            None
        }
    } else if !m.contains_key(parent_of(p)) {
        Some(FsError::ParentMissing)
    } else if m[parent_of(p)].file_type == FileType::File {
        Some(FsError::NotADirectory)
    } else {
        None
    }
}

/// Why writing a file at `p` fails on index `m`, if it does: a malformed
/// path or the root, a missing parent, a parent that is a file, or a
/// directory in the way.
pub open spec fn write_error(m: Index, p: Seq<char>) -> Option<FsError> {
    if !is_normal_path(p) || p == root_path() {
        Some(FsError::InvalidPath)
    } else if !m.contains_key(parent_of(p)) {
        Some(FsError::ParentMissing)
    } else if m[parent_of(p)].file_type == FileType::File {
        Some(FsError::NotADirectory)
    } else if is_dir_in(m, p) {
        Some(FsError::InvalidPath)
    } else {
        None
    }
}

/// `x` describes a file named after `p`, of `size` bytes, created at
/// `created` and last written at `now`.
pub open spec fn file_meta(x: FileMetadata, p: Seq<char>, size: int, created: u64, now: u64) -> bool {
    &&& x.name@ == name_of(p)
    &&& x.file_type == FileType::File
    &&& x.size == size
    &&& x.created == created
    &&& x.modified == now
}

/// Deleting `p` removes `c`: it is `p` or lies below it.
pub open spec fn doomed(p: Seq<char>, c: Seq<char>) -> bool {
    c == p || is_descendant(c, p)
}

/// `m` holds an entry directly below `p`.
pub open spec fn has_children(m: Index, p: Seq<char>) -> bool {
    exists|c: Seq<char>| #[trigger] is_direct_child(c, p) && m.contains_key(c)
}

/// Why deleting `p` fails on index `m`, if it does: the root or an absent
/// path, or a directory with children when the deletion is not recursive.
pub open spec fn delete_error(m: Index, p: Seq<char>, recursive: bool) -> Option<FsError> {
    if p == root_path() || !m.contains_key(p) {
        Some(FsError::NotFound)
    } else if m[p].file_type == FileType::Directory && !recursive && has_children(m, p) {
        Some(FsError::DirectoryNotEmpty)
    } else {
        None
    }
}

/// What is left of `m` once `p` and everything below it are gone.
pub open spec fn without_subtree(m: Index, p: Seq<char>) -> Index {
    m.remove_keys(m.dom().filter(|c: Seq<char>| doomed(p, c)))
}

/// `a` removes the content of a file of `m` that deleting `p` removes.
pub open spec fn removes_doomed_content(m: Index, p: Seq<char>, a: StoreAction) -> bool {
    exists|c: Seq<char>|
        #[trigger] doomed(p, c) && m.contains_key(c) && m[c].file_type == FileType::File && is_remove(
            a,
            content_key(c),
        )
}

/// The store writes of a deletion of `p` from `m`: the content of each
/// removed file is removed, once, and then the index is saved.
pub open spec fn deletion_writes(m: Index, p: Seq<char>, acts: Seq<StoreAction>) -> bool {
    &&& acts.len() >= 1
    &&& acts.last() is SaveIndex
    &&& acts.drop_last().no_duplicates()
    &&& forall|k: int| 0 <= k < acts.len() - 1 ==> removes_doomed_content(m, p, #[trigger] acts[k])
    &&& forall|c: Seq<char>|
        #[trigger] doomed(p, c) && m.contains_key(c) && m[c].file_type == FileType::File ==> exists|k: int|
            0 <= k < acts.len() - 1 && is_remove(#[trigger] acts[k], content_key(c))
}

/// `new` is `old` with a fresh directory, made at `now`, for each path of
/// `missing_chain(old, p)`, and nothing else changed.
pub open spec fn created_dirs(old: Index, new: Index, p: Seq<char>, now: u64) -> bool {
    &&& forall|q: Seq<char>|
        #[trigger] new.contains_key(q) <==> (old.contains_key(q) || missing_chain(old, p).contains(q))
    &&& forall|q: Seq<char>| #[trigger] old.contains_key(q) ==> new[q] == old[q]
    &&& forall|q: Seq<char>|
        #[trigger] missing_chain(old, p).contains(q) ==> fresh_dir(new[q], q, now)
}

/// The chain of missing directories of a normal path runs from the path up
/// through parents, each normal, absent and not the root, to just below the
/// nearest present path, which the index holds.
pub proof fn lemma_missing_chain(m: Index, p: Seq<char>)
    requires
        well_formed_index(m),
        is_normal_path(p),
    ensures
        ({
            let c = missing_chain(m, p);
            &&& forall|j: int|
                0 <= j < c.len() ==> is_normal_path(#[trigger] c[j]) && c[j] != root_path()
                    && !m.contains_key(c[j])
            &&& forall|j: int| 1 <= j < c.len() ==> #[trigger] c[j] == parent_of(c[j - 1])
            &&& forall|j: int, k: int| 0 <= j < k < c.len() ==> #[trigger] c[k].len() < #[trigger] c[j].len()
            &&& c.len() > 0 ==> c[0] == p && parent_of(c.last()) == nearest_present(m, p)
            &&& c.len() == 0 ==> nearest_present(m, p) == p
            &&& m.contains_key(nearest_present(m, p))
            &&& !m.contains_key(p) ==> c.len() > 0
        }),
    decreases p.len(),
{
    if p.len() <= 1 {
        assert(p == root_path());
    } else if !m.contains_key(p) {
        lemma_ends_without_slash(p);
        lemma_parent_split(p);
        let q = parent_of(p);
        lemma_missing_chain(m, q);
        let c = missing_chain(m, p);
        let d = missing_chain(m, q);
        assert(c == seq![p] + d);
        assert forall|j: int| 1 <= j < c.len() implies #[trigger] c[j] == parent_of(c[j - 1]) by {
            if j > 1 {
                assert(c[j] == d[j - 1]);
                assert(c[j - 1] == d[j - 2]);
            } else {
                assert(d[0] == q);
            }
        }
        assert forall|j: int, k: int| 0 <= j < k < c.len() implies #[trigger] c[k].len() < #[trigger] c[j].len() by {
            if j > 0 {
                assert(c[k] == d[k - 1]);
                assert(c[j] == d[j - 1]);
            } else if k > 1 {
                assert(c[k] == d[k - 1]);
                assert(d[0] == q);
            }
        }
        if d.len() > 0 {
            assert(c.last() == d.last());
        }
    }
}

/// The character sequences that the strings of `v` hold.
pub open spec fn string_views(v: Seq<String>) -> Seq<Seq<char>> {
    v.map_values(|s: String| s@)
}

/// The only store write is saving the index.
pub open spec fn saves_index_only(acts: Seq<StoreAction>) -> bool {
    acts.len() == 1 && acts[0] is SaveIndex
}

/// With distinct paths, each record is found in the index it describes,
/// and nothing else is.
pub proof fn lemma_records_index(rs: Seq<(String, FileMetadata)>)
    requires
        distinct_paths(rs),
    ensures
        forall|i: int|
            0 <= i < rs.len() ==> #[trigger] records_index(rs).contains_key(rs[i].0@)
                && records_index(rs)[rs[i].0@] == rs[i].1,
        forall|p: Seq<char>|
            #[trigger] records_index(rs).contains_key(p) ==> exists|i: int|
                0 <= i < rs.len() && #[trigger] rs[i].0@ == p,
{
    assert forall|i: int| 0 <= i < rs.len() implies #[trigger] records_index(rs).contains_key(rs[i].0@)
        && records_index(rs)[rs[i].0@] == rs[i].1 by {
        let p = rs[i].0@;
        assert(exists|j: int| 0 <= j < rs.len() && #[trigger] rs[j].0@ == p);
        let j = choose|j: int| 0 <= j < rs.len() && #[trigger] rs[j].0@ == p;
        assert(i == j);
    }
}

/// The records kept when `p` and everything below it go, each taken from
/// the records it started from, describe exactly what is left of the index, with
/// distinct paths, and what is left is well formed.
pub(crate) proof fn lemma_kept_records(
    m: Index,
    es: Seq<(String, FileMetadata)>,
    kept: Seq<(String, FileMetadata)>,
    ksrc: Seq<int>,
    p: Seq<char>,
)
    requires
        distinct_paths(es),
        forall|i: int|
            0 <= i < es.len() ==> #[trigger] m.contains_key(es[i].0@) && m[es[i].0@] == es[i].1,
        forall|q: Seq<char>|
            #[trigger] m.contains_key(q) ==> exists|i: int| 0 <= i < es.len() && #[trigger] es[i].0@ == q,
        well_formed_index(m),
        p != root_path(),
        m.contains_key(p),
        ksrc.len() == kept.len(),
        forall|t: int|
            0 <= t < kept.len() ==> 0 <= #[trigger] ksrc[t] < es.len() && kept[t] == es[ksrc[t]]
                && !doomed(p, kept[t].0@),
        forall|t: int, u: int| 0 <= t < u < kept.len() ==> #[trigger] ksrc[t] < #[trigger] ksrc[u],
        forall|j: int|
            0 <= j < es.len() && !doomed(p, #[trigger] es[j].0@) ==> exists|t: int|
                0 <= t < kept.len() && ksrc[t] == j,
    ensures
        distinct_paths(kept),
        forall|t: int|
            0 <= t < kept.len() ==> #[trigger] without_subtree(m, p).contains_key(kept[t].0@)
                && without_subtree(m, p)[kept[t].0@] == kept[t].1,
        forall|c: Seq<char>|
            #[trigger] without_subtree(m, p).contains_key(c) ==> exists|t: int|
                0 <= t < kept.len() && #[trigger] kept[t].0@ == c,
        well_formed_index(without_subtree(m, p)),
{
    let nm = without_subtree(m, p);
    let d = m.dom().filter(|c: Seq<char>| doomed(p, c));
    assert forall|c: Seq<char>| #[trigger] nm.contains_key(c) <==> (m.contains_key(c) && !doomed(p, c)) by {
        if m.contains_key(c) && doomed(p, c) {
            assert(d.contains(c));
        }
    }
    // The records kept describe what is left.
    assert forall|t: int| 0 <= t < kept.len() implies #[trigger] nm.contains_key(kept[t].0@)
        && nm[kept[t].0@] == kept[t].1 by {
        assert(m.contains_key(es[ksrc[t]].0@));
    }
    assert forall|c: Seq<char>| #[trigger] nm.contains_key(c) implies exists|t: int|
        0 <= t < kept.len() && #[trigger] kept[t].0@ == c by {
        let j = choose|j: int| 0 <= j < es.len() && #[trigger] es[j].0@ == c;
        assert(!doomed(p, es[j].0@));
        let t = choose|t: int| 0 <= t < kept.len() && ksrc[t] == j;
        assert(kept[t].0@ == c);
    }
    assert forall|a: int, b: int|
        0 <= a < kept.len() && 0 <= b < kept.len() && a != b implies #[trigger] kept[a].0@
        != #[trigger] kept[b].0@ by {
        if a < b {
            assert(ksrc[a] < ksrc[b]);
        } else {
            assert(ksrc[b] < ksrc[a]);
        }
    }
    // The index left is well formed: nothing kept hangs below a removed directory.
    assert forall|c: Seq<char>| #![trigger nm.contains_key(c), parent_of(c)] nm.contains_key(c) && c != root_path() implies is_dir_in(
        nm,
        parent_of(c),
    ) by {
        let q = parent_of(c);
        assert(is_dir_in(m, q));
        if doomed(p, q) {
            if q == p {
                lemma_child_of_parent(c);
            } else {
                lemma_descendant_of_parent(c, p);
            }
        }
    }
    assert(nm.contains_key(root_path())) by {
        lemma_ends_without_slash(p);
        lemma_root_not_below(p);
    }
    assert(well_formed_index(nm));
}

/// The content removals collected for the files that go when `p` and
/// everything below it go are those of exactly these files, each once.
pub(crate) proof fn lemma_removal_writes(
    m: Index,
    es: Seq<(String, FileMetadata)>,
    a: Seq<StoreAction>,
    asrc: Seq<int>,
    p: Seq<char>,
)
    requires
        distinct_paths(es),
        forall|i: int|
            0 <= i < es.len() ==> #[trigger] m.contains_key(es[i].0@) && m[es[i].0@] == es[i].1,
        forall|q: Seq<char>|
            #[trigger] m.contains_key(q) ==> exists|i: int| 0 <= i < es.len() && #[trigger] es[i].0@ == q,
        well_formed_index(m),
        p != root_path(),
        m.contains_key(p),
        asrc.len() == a.len(),
        forall|t: int|
            0 <= t < a.len() ==> 0 <= #[trigger] asrc[t] < es.len() && doomed(
                p,
                es[asrc[t]].0@,
            ) && es[asrc[t]].1.file_type == FileType::File && is_remove(
                a[t],
                content_key(es[asrc[t]].0@),
            ),
        forall|t: int, u: int| 0 <= t < u < a.len() ==> #[trigger] asrc[t] < #[trigger] asrc[u],
        forall|j: int|
            0 <= j < es.len() && doomed(p, #[trigger] es[j].0@)
                && es[j].1.file_type == FileType::File ==> exists|t: int|
                0 <= t < a.len() && asrc[t] == j,
    ensures
        forall|k: int| 0 <= k < a.len() ==> removes_doomed_content(m, p, #[trigger] a[k]),
        forall|c: Seq<char>|
            #[trigger] doomed(p, c) && m.contains_key(c) && m[c].file_type == FileType::File ==> exists|k: int|
                0 <= k < a.len() && is_remove(#[trigger] a[k], content_key(c)),
        a.no_duplicates(),
{
    assert forall|k: int| 0 <= k < a.len() implies removes_doomed_content(m, p, #[trigger] a[k]) by {
        let c = es[asrc[k]].0@;
        assert(m.contains_key(c));
        assert(doomed(p, c));
    }
    assert forall|c: Seq<char>|
        #[trigger] doomed(p, c) && m.contains_key(c) && m[c].file_type == FileType::File implies exists|k: int|
        0 <= k < a.len() && is_remove(#[trigger] a[k], content_key(c)) by {
        let j = choose|j: int| 0 <= j < es.len() && #[trigger] es[j].0@ == c;
        assert(doomed(p, es[j].0@));
        let t = choose|t: int| 0 <= t < a.len() && asrc[t] == j;
        assert(is_remove(a[t], content_key(c)));
    }
    assert forall|x: int, y: int| 0 <= x < a.len() && 0 <= y < a.len() && x != y implies a[x] != a[y] by {
        let cx = es[asrc[x]].0@;
        let cy = es[asrc[y]].0@;
        assert(asrc[x] != asrc[y]) by {
            if x < y {
                assert(asrc[x] < asrc[y]);
            } else {
                assert(asrc[y] < asrc[x]);
            }
        }
        lemma_content_keys_distinct(cx, cy);
    }
}

/// Content removals for exactly the files that go, each once, followed by
/// saving the index, are the writes of a deletion.
pub(crate) proof fn lemma_writes_then_save(m: Index, p: Seq<char>, a: Seq<StoreAction>)
    requires
        forall|k: int| 0 <= k < a.len() ==> removes_doomed_content(m, p, #[trigger] a[k]),
        forall|c: Seq<char>|
            #[trigger] doomed(p, c) && m.contains_key(c) && m[c].file_type == FileType::File ==> exists|k: int|
                0 <= k < a.len() && is_remove(#[trigger] a[k], content_key(c)),
        a.no_duplicates(),
    ensures
        deletion_writes(m, p, a.push(StoreAction::SaveIndex)),
{
    let w = a.push(StoreAction::SaveIndex);
    assert(w.drop_last() =~= a);
    assert forall|k: int| 0 <= k < w.len() - 1 implies removes_doomed_content(m, p, #[trigger] w[k]) by {
        assert(w[k] == a[k]);
    }
    assert forall|c: Seq<char>|
        #[trigger] doomed(p, c) && m.contains_key(c) && m[c].file_type == FileType::File implies exists|k: int|
        0 <= k < w.len() - 1 && is_remove(#[trigger] w[k], content_key(c)) by {
        let k = choose|k: int| 0 <= k < a.len() && is_remove(#[trigger] a[k], content_key(c));
        assert(w[k] == a[k]);
    }
}

/// The directories that a fresh filesystem holds besides the root.
pub open spec fn seed_dirs() -> Set<Seq<char>> {
    set!["/home"@, "/home/documents"@, "/home/pictures"@, "/applications"@]
}

/// Creating, with parents, a plain segment below a directory that `m`
/// holds adds that one directory.
pub(crate) proof fn lemma_create_below(m: Index, q: Seq<char>, s: Seq<char>)
    requires
        well_formed_index(m),
        is_dir_in(m, q),
        is_plain_segment(s),
        !m.contains_key(dir_prefix(q) + s),
    ensures
        create_error(m, dir_prefix(q) + s, true) is None,
        missing_chain(m, dir_prefix(q) + s) == seq![dir_prefix(q) + s],
{
    let p = dir_prefix(q) + s;
    lemma_join(q, s);
    lemma_ends_without_slash(p);
    assert(nearest_present(m, q) == q);
    assert(missing_chain(m, q) == Seq::<Seq<char>>::empty());
    assert(missing_chain(m, p) =~= seq![p]);
}

/// Deleting the root fails, whether recursive or not, on any index.
pub proof fn lemma_root_not_deletable(m: Index, recursive: bool)
    ensures
        delete_error(m, root_path(), recursive) == Some(FsError::NotFound),
{
}

} // verus!
