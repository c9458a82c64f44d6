use std::collections::HashMap;
use vfs_desktop::path::{is_normal, normalize_trimmed, parent_path, resolve_path};
use vfs_desktop::{
    content_key_of, FileMetadata, FileSystem, FileType, FsError, StoreAction, CONTENT_KEY_PREFIX,
    INDEX_KEY,
};

/// A key-value store that performs the writes the filesystem asks for.
/// Saving the index stores a plain dump of its records.
struct MemStore {
    items: HashMap<String, String>,
    saves: usize,
}

impl MemStore {
    fn new() -> MemStore {
        MemStore { items: HashMap::new(), saves: 0 }
    }

    fn apply(&mut self, fs: &FileSystem, acts: Vec<StoreAction>) {
        for a in acts {
            match a {
                StoreAction::SetItem { key, value } => {
                    self.items.insert(key, value);
                }
                StoreAction::RemoveItem { key } => {
                    self.items.remove(&key);
                }
                StoreAction::SaveIndex => {
                    self.items.insert(INDEX_KEY.to_string(), dump(fs));
                    self.saves += 1;
                }
            }
        }
    }

    fn read(&self, fs: &FileSystem, path: &str) -> Result<String, FsError> {
        let key = content_key_of(&FileSystem::normalize_path(path));
        fs.read_file(path, self.items.get(&key).cloned())
    }
}

fn dump(fs: &FileSystem) -> String {
    let mut recs: Vec<String> = fs
        .records()
        .iter()
        .map(|(p, m)| {
            format!("{}|{}|{:?}|{}|{}|{}", p, m.name, m.file_type, m.size, m.created, m.modified)
        })
        .collect();
    recs.sort();
    recs.join("\n")
}

fn paths(fs: &FileSystem) -> Vec<String> {
    let mut v: Vec<String> = fs.records().into_iter().map(|(p, _)| p).collect();
    v.sort();
    v
}

fn meta_of(fs: &FileSystem, path: &str) -> FileMetadata {
    fs.records().into_iter().find(|(p, _)| p == path).map(|(_, m)| m).unwrap()
}

fn names(list: &[FileMetadata]) -> Vec<String> {
    let mut v: Vec<String> = list.iter().map(|m| m.name.clone()).collect();
    v.sort();
    v
}

fn fresh() -> (FileSystem, MemStore) {
    let (fs, acts) = FileSystem::new(None, 1);
    let mut store = MemStore::new();
    store.apply(&fs, acts);
    (fs, store)
}

#[test]
fn normalize_collapses_and_trims() {
    assert_eq!(FileSystem::normalize_path("  /home//documents/  "), "/home/documents");
    assert_eq!(FileSystem::normalize_path(""), "/");
    assert_eq!(FileSystem::normalize_path("   "), "/");
    assert_eq!(FileSystem::normalize_path("///"), "/");
    assert_eq!(FileSystem::normalize_path("/a/"), "/a");
    assert_eq!(FileSystem::normalize_path("\t/home\n"), "/home");
    assert_eq!(normalize_trimmed(" /a"), " /a");
    assert_eq!(normalize_trimmed("a//b//"), "a/b");
}

#[test]
fn normal_form_and_parents() {
    assert!(is_normal("/"));
    assert!(is_normal("/home/x.txt"));
    assert!(!is_normal("home"));
    assert!(!is_normal("/home/"));
    assert!(!is_normal("/a//b"));
    assert!(!is_normal("/a/./b"));
    assert!(!is_normal("/a/.."));
    assert!(is_normal("/a/.hidden"));
    assert_eq!(parent_path("/home/documents"), "/home");
    assert_eq!(parent_path("/home"), "/");
}

#[test]
fn content_keys() {
    assert_eq!(content_key_of("/home/x.txt"), "wasm_desktop_file:/home/x.txt");
    assert!(content_key_of("/home/x.txt").starts_with(CONTENT_KEY_PREFIX));
    assert_ne!(content_key_of(""), INDEX_KEY);
}

#[test]
fn fresh_filesystem_is_seeded_and_saved() {
    let (fs, store) = fresh();
    assert_eq!(
        paths(&fs),
        vec!["/", "/applications", "/home", "/home/documents", "/home/pictures"]
    );
    assert_eq!(store.saves, 1);
    let home = meta_of(&fs, "/home");
    assert_eq!(home.name, "home");
    assert_eq!(home.file_type, FileType::Directory);
    assert_eq!(home.size, 0);
    assert_eq!(home.created, 1);
    assert_eq!(home.modified, 1);
}

#[test]
fn saved_records_are_loaded_without_writes() {
    let (mut fs, _) = fresh();
    fs.write_file("/home/a.txt", "abc", 5).unwrap();
    let (loaded, acts) = FileSystem::new(Some(fs.records()), 9);
    assert!(acts.is_empty());
    assert!(loaded.records() == fs.records());
}

#[test]
fn invalid_saved_records_give_a_fresh_filesystem() {
    let (fs, _) = fresh();
    let mut recs = fs.records();
    recs.retain(|(p, _)| p != "/home");
    assert!(FileSystem::from_records(recs.clone()).is_none());
    let (loaded, acts) = FileSystem::new(Some(recs), 7);
    assert_eq!(acts.len(), 1);
    assert!(matches!(acts[0], StoreAction::SaveIndex));
    assert_eq!(meta_of(&loaded, "/home").created, 7);
}

#[test]
fn from_records_rejects_duplicates_and_bad_names() {
    let (fs, _) = fresh();
    let mut dup = fs.records();
    dup.push(dup[1].clone());
    assert!(FileSystem::from_records(dup).is_none());
    let mut renamed = fs.records();
    for r in renamed.iter_mut() {
        if r.0 == "/home" {
            r.1.name = "house".to_string();
        }
    }
    assert!(FileSystem::from_records(renamed).is_none());
    let no_root: Vec<(String, FileMetadata)> = Vec::new();
    assert!(FileSystem::from_records(no_root).is_none());
}

#[test]
fn records_round_trip() {
    let (mut fs, _) = fresh();
    fs.create_directory("/home/documents/work", false, 3).unwrap();
    fs.write_file("/home/documents/work/plan.txt", "steps", 4).unwrap();
    fs.write_file("/home/x.txt", "hi", 5).unwrap();
    let back = FileSystem::from_records(fs.records()).unwrap();
    assert!(back.records() == fs.records());
    assert_eq!(dump(&back), dump(&fs));
}

#[test]
fn create_parents_on_root_only() {
    let mut fs = FileSystem::empty(0);
    let acts = fs.create_directory("/a/b/c", true, 2).unwrap();
    assert_eq!(acts.len(), 1);
    assert!(matches!(acts[0], StoreAction::SaveIndex));
    assert_eq!(paths(&fs), vec!["/", "/a", "/a/b", "/a/b/c"]);
    for p in ["/a", "/a/b", "/a/b/c"] {
        let m = meta_of(&fs, p);
        assert_eq!(m.file_type, FileType::Directory);
        assert_eq!(m.created, 2);
    }
    assert_eq!(meta_of(&fs, "/a/b").name, "b");
    let before = fs.records();
    assert_eq!(fs.create_directory("/a/b/c", true, 3), Err(FsError::AlreadyExists));
    assert!(fs.records() == before);
}

#[test]
fn create_without_parents() {
    let mut fs = FileSystem::empty(0);
    assert_eq!(fs.create_directory("/a/b", false, 1), Err(FsError::ParentMissing));
    assert!(fs.create_directory("/a", false, 1).is_ok());
    assert!(fs.create_directory("/a/b", false, 1).is_ok());
    assert_eq!(paths(&fs), vec!["/", "/a", "/a/b"]);
    assert_eq!(fs.create_directory("/", true, 1), Err(FsError::AlreadyExists));
    assert_eq!(fs.create_directory("  ", false, 1), Err(FsError::AlreadyExists));
}

#[test]
fn create_rejects_malformed_paths_and_file_parents() {
    let (mut fs, _) = fresh();
    assert_eq!(fs.create_directory("home/new", true, 1), Err(FsError::InvalidPath));
    assert_eq!(fs.create_directory("/home/../etc", true, 1), Err(FsError::InvalidPath));
    assert_eq!(fs.create_directory("/home/.", false, 1), Err(FsError::InvalidPath));
    fs.write_file("/home/f.txt", "x", 1).unwrap();
    assert_eq!(fs.create_directory("/home/f.txt/sub", false, 2), Err(FsError::NotADirectory));
    assert_eq!(fs.create_directory("/home/f.txt/sub/deep", true, 2), Err(FsError::NotADirectory));
}

#[test]
fn write_then_read_and_overwrite() {
    let (mut fs, mut store) = fresh();
    let acts = fs.write_file("/home/x.txt", "hi", 10).unwrap();
    assert_eq!(acts.len(), 2);
    match &acts[0] {
        StoreAction::SetItem { key, value } => {
            assert_eq!(key, "wasm_desktop_file:/home/x.txt");
            assert_eq!(value, "hi");
        }
        other => panic!("unexpected first write {:?}", other),
    }
    assert!(matches!(acts[1], StoreAction::SaveIndex));
    store.apply(&fs, acts);
    assert_eq!(store.read(&fs, "/home/x.txt"), Ok("hi".to_string()));
    let first = meta_of(&fs, "/home/x.txt");
    assert_eq!(first.created, 10);
    assert_eq!(first.modified, 10);
    assert_eq!(first.size, 2);
    assert_eq!(first.name, "x.txt");

    let acts = fs.write_file("/home/x.txt", "bye", 20).unwrap();
    store.apply(&fs, acts);
    let second = meta_of(&fs, "/home/x.txt");
    assert_eq!(second.created, 10);
    assert_eq!(second.modified, 20);
    assert_eq!(second.size, 3);
    assert_eq!(store.read(&fs, "/home/x.txt"), Ok("bye".to_string()));
}

#[test]
fn write_size_counts_bytes() {
    let (mut fs, _) = fresh();
    fs.write_file("/home/u.txt", "h\u{e9}llo", 1).unwrap();
    assert_eq!(meta_of(&fs, "/home/u.txt").size, 6);
    fs.write_file("/home/empty.txt", "", 1).unwrap();
    assert_eq!(meta_of(&fs, "/home/empty.txt").size, 0);
}

#[test]
fn write_errors() {
    let (mut fs, _) = fresh();
    assert_eq!(fs.write_file("/nowhere/x.txt", "a", 1), Err(FsError::ParentMissing));
    assert_eq!(fs.write_file("/home", "a", 1), Err(FsError::InvalidPath));
    assert_eq!(fs.write_file("/", "a", 1), Err(FsError::InvalidPath));
    assert_eq!(fs.write_file("x.txt", "a", 1), Err(FsError::InvalidPath));
    fs.write_file("/home/f", "a", 1).unwrap();
    assert_eq!(fs.write_file("/home/f/g", "a", 1), Err(FsError::NotADirectory));
}

#[test]
fn read_errors() {
    let (mut fs, mut store) = fresh();
    assert_eq!(store.read(&fs, "/home/none.txt"), Err(FsError::NotFound));
    assert_eq!(store.read(&fs, "/home"), Err(FsError::NotAFile));
    let acts = fs.write_file("/home/lost.txt", "gone", 1).unwrap();
    store.apply(&fs, acts);
    store.items.remove(&content_key_of("/home/lost.txt"));
    assert_eq!(store.read(&fs, "/home/lost.txt"), Err(FsError::IoError));
    assert_eq!(
        fs.read_file(" /home//lost.txt/ ", Some("kept".to_string())),
        Ok("kept".to_string())
    );
}

#[test]
fn list_direct_children_only() {
    let (mut fs, _) = fresh();
    fs.write_file("/home/documents/a.txt", "a", 2).unwrap();
    fs.write_file("/home/x.txt", "x", 2).unwrap();
    let list = fs.list_directory("/home").unwrap();
    assert_eq!(names(&list), vec!["documents", "pictures", "x.txt"]);
    let root = fs.list_directory("/").unwrap();
    assert_eq!(names(&root), vec!["applications", "home"]);
    let docs = fs.list_directory("/home/documents/").unwrap();
    assert_eq!(names(&docs), vec!["a.txt"]);
    assert!(fs.list_directory("/applications").unwrap().is_empty());
}

#[test]
fn list_errors() {
    let (mut fs, _) = fresh();
    assert_eq!(fs.list_directory("/missing").err(), Some(FsError::NotFound));
    fs.write_file("/home/x.txt", "x", 2).unwrap();
    assert_eq!(fs.list_directory("/home/x.txt").err(), Some(FsError::NotADirectory));
}

#[test]
fn delete_non_empty_without_recursion_changes_nothing() {
    let (mut fs, _) = fresh();
    fs.write_file("/home/documents/a.txt", "a", 2).unwrap();
    let before = dump(&fs);
    let records = fs.records();
    assert_eq!(fs.delete("/home", false), Err(FsError::DirectoryNotEmpty));
    assert_eq!(dump(&fs), before);
    assert!(fs.records() == records);
}

#[test]
fn delete_recursive_removes_subtree_and_content() {
    let (mut fs, mut store) = fresh();
    let acts = fs.write_file("/home/documents/a.txt", "a", 2).unwrap();
    store.apply(&fs, acts);
    let acts = fs.write_file("/applications/keep.txt", "k", 2).unwrap();
    store.apply(&fs, acts);
    let acts = fs.delete("/home", true).unwrap();
    assert_eq!(acts.len(), 2);
    match &acts[0] {
        StoreAction::RemoveItem { key } => assert_eq!(key, "wasm_desktop_file:/home/documents/a.txt"),
        other => panic!("unexpected write {:?}", other),
    }
    assert!(matches!(acts[1], StoreAction::SaveIndex));
    store.apply(&fs, acts);
    assert_eq!(paths(&fs), vec!["/", "/applications", "/applications/keep.txt"]);
    assert_eq!(store.read(&fs, "/home/documents/a.txt"), Err(FsError::NotFound));
    assert!(!store.items.contains_key("wasm_desktop_file:/home/documents/a.txt"));
    assert_eq!(store.read(&fs, "/applications/keep.txt"), Ok("k".to_string()));
}

#[test]
fn delete_file_and_empty_directory() {
    let (mut fs, mut store) = fresh();
    let acts = fs.write_file("/home/x.txt", "x", 2).unwrap();
    store.apply(&fs, acts);
    let acts = fs.delete("/home/x.txt", false).unwrap();
    assert_eq!(acts.len(), 2);
    store.apply(&fs, acts);
    assert!(store.items.get("wasm_desktop_file:/home/x.txt").is_none());
    let acts = fs.delete("/home/pictures", false).unwrap();
    assert_eq!(acts.len(), 1);
    assert_eq!(paths(&fs), vec!["/", "/applications", "/home", "/home/documents"]);
    assert_eq!(fs.delete("/home/pictures", true), Err(FsError::NotFound));
}

#[test]
fn delete_root_always_fails() {
    let (mut fs, _) = fresh();
    let before = fs.records();
    assert_eq!(fs.delete("/", false), Err(FsError::NotFound));
    assert_eq!(fs.delete("/", true), Err(FsError::NotFound));
    assert_eq!(fs.delete("  //  ", true), Err(FsError::NotFound));
    assert!(fs.records() == before);
}

#[test]
fn parents_stay_directories() {
    let (mut fs, _) = fresh();
    fs.create_directory("/a/b/c", true, 1).unwrap();
    fs.write_file("/a/b/c/f.txt", "f", 1).unwrap();
    fs.write_file("/a/g.txt", "g", 1).unwrap();
    fs.delete("/a/b", true).unwrap();
    fs.create_directory("/a/b2", false, 2).unwrap();
    let recs = fs.records();
    for (p, _) in recs.iter() {
        if p != "/" {
            let parent = parent_path(p);
            let found = recs.iter().find(|(q, _)| *q == parent).expect("parent present");
            assert_eq!(found.1.file_type, FileType::Directory);
        }
    }
}

#[test]
fn resolve_relative_and_absolute_paths() {
    assert_eq!(resolve_path("/home", "notes.txt"), "/home/notes.txt");
    assert_eq!(resolve_path("/", "home"), "/home");
    assert_eq!(resolve_path("/home", "/etc/x"), "/etc/x");
    assert_eq!(resolve_path("/home/", "a/b"), "/home/a/b");
}
