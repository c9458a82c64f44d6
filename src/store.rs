//! The keys the filesystem uses in its backing key-value store, and the
//! store writes that each mutation asks its host to perform, in order.
use vstd::prelude::*;

verus! {

/// Key under which the serialized index is stored.
pub const INDEX_KEY: &'static str = "wasm_desktop_fs";

/// Prefix of every content key; the rest of the key is the file's path.
pub const CONTENT_KEY_PREFIX: &'static str = "wasm_desktop_file:";

/// The store key of the content of the file at `p`.
pub open spec fn content_key(p: Seq<char>) -> Seq<char> {
    CONTENT_KEY_PREFIX@ + p
}

/// The store key of the content of the file at path `p`.
pub fn content_key_of(p: &str) -> (r: String)
    ensures
        r@ == content_key(p@),
{
    String::from_str(CONTENT_KEY_PREFIX).concat(p)
}

/// Content keys never collide with the index key, nor with one another.
pub proof fn lemma_content_keys_distinct(p: Seq<char>, q: Seq<char>)
    ensures
        content_key(p) != INDEX_KEY@,
        p != q ==> content_key(p) != content_key(q),
{
    reveal_strlit("wasm_desktop_fs");
    reveal_strlit("wasm_desktop_file:");
    assert(content_key(p)[14] != INDEX_KEY@[14]);
    if p != q {
        let n = CONTENT_KEY_PREFIX@.len();
        if content_key(p) == content_key(q) {
            assert(p =~= content_key(p).subrange(n as int, content_key(p).len() as int));
            assert(q =~= content_key(q).subrange(n as int, content_key(q).len() as int));
        }
    }
}

/// One write to the backing store.
#[derive(Debug, PartialEq, Eq)]
pub enum StoreAction {
    /// Store `value` under `key`.
    SetItem { key: String, value: String },
    /// Remove whatever is stored under `key`; a missing key is no error.
    RemoveItem { key: String },
    /// Serialize the whole index and store it under [`INDEX_KEY`].
    SaveIndex,
}

/// `a` stores `value` under `key`.
pub open spec fn is_set(a: StoreAction, key: Seq<char>, value: Seq<char>) -> bool {
    match a {
        StoreAction::SetItem { key: k, value: v } => k@ == key && v@ == value,
        _ => false,
    }
}

/// `a` removes what is stored under `key`.
pub open spec fn is_remove(a: StoreAction, key: Seq<char>) -> bool {
    match a {
        StoreAction::RemoveItem { key: k } => k@ == key,
        _ => false,
    }
}

} // verus!
