//! Absolute `/`-separated paths: their normal form, parents, names, and the
//! prefix rules that decide which entries lie below a directory.
use vstd::prelude::*;

verus! {

/// The root directory, `/`.
pub open spec fn root_path() -> Seq<char> {
    seq!['/']
}

/// Position of the last `/` in `p`, or -1 when `p` holds none.
pub open spec fn last_slash(p: Seq<char>) -> int
    decreases p.len(),
{
    if p.len() == 0 {
        -1
    } else if p.last() == '/' {
        p.len() - 1
    } else {
        last_slash(p.drop_last())
    }
}

/// `p` with its final segment removed; the parent of a top-level entry is the root.
pub open spec fn parent_of(p: Seq<char>) -> Seq<char> {
    if last_slash(p) <= 0 {
        root_path()
    } else {
        p.subrange(0, last_slash(p))
    }
}

/// The final segment of `p`; the root is named `/`.
pub open spec fn name_of(p: Seq<char>) -> Seq<char> {
    if p == root_path() {
        root_path()
    } else {
        p.subrange(last_slash(p) + 1, p.len() as int)
    }
}

/// What every path strictly below directory `p` starts with.
pub open spec fn dir_prefix(p: Seq<char>) -> Seq<char> {
    if p.len() > 0 && p.last() == '/' {
        p
    } else {
        p.push('/')
    }
}

/// `c` lies strictly below `p`, at any depth.
pub open spec fn is_descendant(c: Seq<char>, p: Seq<char>) -> bool {
    c != p && dir_prefix(p).is_prefix_of(c)
}

/// `c` lies directly below `p`: no separator follows the prefix of `p`.
pub open spec fn is_direct_child(c: Seq<char>, p: Seq<char>) -> bool {
    &&& is_descendant(c, p)
    &&& forall|k: int| dir_prefix(p).len() <= k < c.len() ==> c[k] != '/'
}

/// The segment of `p` that starts at `k` is `.` or `..`.
pub open spec fn is_dot_segment(p: Seq<char>, k: int) -> bool {
    ||| (p[k] == '.' && (k + 1 == p.len() || p[k + 1] == '/'))
    ||| (k + 1 < p.len() && p[k] == '.' && p[k + 1] == '.' && (k + 2 == p.len() || p[k + 2]
        == '/'))
}

/// A segment that is neither empty nor `.` nor `..` starts at `k`.
pub open spec fn segment_ok(p: Seq<char>, k: int) -> bool {
    &&& k < p.len()
    &&& p[k] != '/'
    &&& !is_dot_segment(p, k)
}

/// An absolute path with no empty, `.` or `..` segment and no trailing `/`,
/// or the root itself.
pub open spec fn is_normal_path(p: Seq<char>) -> bool {
    ||| p == root_path()
    ||| {
        &&& p.len() >= 2
        &&& p[0] == '/'
        &&& forall|i: int| 0 <= i < p.len() && p[i] == '/' ==> segment_ok(p, i + 1)
    }
}

/// `s` with every `/` that directly follows another `/` dropped.
pub open spec fn collapse_slashes(s: Seq<char>) -> Seq<char>
    decreases s.len(),
{
    if s.len() == 0 {
        s
    } else {
        let rest = collapse_slashes(s.drop_last());
        if s.last() == '/' && s.len() >= 2 && s[s.len() - 2] == '/' {
            rest
        } else {
            rest.push(s.last())
        }
    }
}

/// The normal form of an already trimmed path: empty becomes the root,
/// repeated separators collapse, and a trailing separator goes unless it is
/// the root.
pub open spec fn normalize(s: Seq<char>) -> Seq<char> {
    if s.len() == 0 {
        root_path()
    } else {
        let c = collapse_slashes(s);
        if c.len() > 1 && c.last() == '/' {
            c.drop_last()
        } else {
            c
        }
    }
}

/// What `str::trim` leaves of `s`.
pub uninterp spec fn trimmed(s: Seq<char>) -> Seq<char>;

/// Relies on `str::trim`: strips leading and trailing whitespace, and the
/// result depends on the characters of `s` alone.
#[verifier::external_body]
fn trim_whitespace(s: &str) -> (r: &str)
    ensures
        r@ == trimmed(s@),
{
    s.trim()
}

/// A fresh `String` holding the root path.
pub fn root_string() -> (r: String)
    ensures
        r@ == root_path(),
{
    proof {
        reveal_strlit("/");
    }
    String::from_str("/")
}

/// The path of the entry named `s` inside directory `q`.
pub fn join_path(q: &String, s: &str) -> (r: String)
    ensures
        r@ == dir_prefix(q@) + s@,
{
    proof {
        reveal_strlit("/");
    }
    let n = q.unicode_len();
    if n > 0 && q.as_str().get_char(n - 1) == '/' {
        q.clone().concat(s)
    } else {
        let r = q.clone().concat("/").concat(s);
        assert(q@ + "/"@ =~= q@.push('/'));
        r
    }
}

/// `path` taken relative to the directory `current` unless it is absolute.
pub open spec fn resolved(current: Seq<char>, path: Seq<char>) -> Seq<char> {
    if path.len() > 0 && path[0] == '/' {
        path
    } else {
        dir_prefix(current) + path
    }
}

/// Resolves `path` against the working directory `current`: an absolute
/// path stays as it is, any other is appended below `current`. Neither `.`
/// nor `..` is interpreted.
pub fn resolve_path(current: &str, path: &str) -> (r: String)
    ensures
        r@ == resolved(current@, path@),
{
    if path.unicode_len() > 0 && path.get_char(0) == '/' {
        String::from_str(path)
    } else {
        join_path(&String::from_str(current), path)
    }
}

/// Normal form of a path that has already been trimmed.
pub fn normalize_trimmed(s: &str) -> (r: String)
    ensures
        r@ == normalize(s@),
{
    let n = s.unicode_len();
    let mut out = String::new();
    let mut i: usize = 0;
    while i < n
        invariant
            n == s@.len(),
            i <= n,
            out@ == collapse_slashes(s@.subrange(0, i as int)),
        decreases n - i,
    {
        let c = s.get_char(i);
        assert(s@.subrange(0, i as int + 1).drop_last() =~= s@.subrange(0, i as int));
        if c == '/' && i >= 1 && s.get_char(i - 1) == '/' {
        } else {
            out.append(s.substring_char(i, i + 1));
            assert(s@.subrange(i as int, i + 1) =~= seq![c]);
        }
        i = i + 1;
    }
    assert(s@.subrange(0, n as int) =~= s@);
    if n == 0 {
        return root_string();
    }
    proof {
        lemma_collapse_nonempty(s@);
    }
    let m = out.unicode_len();
    if m > 1 && out.get_char(m - 1) == '/' {
        let r = String::from_str(out.substring_char(0, m - 1));
        assert(r@ =~= out@.drop_last());
        r
    } else {
        out
    }
}

/// Collapsing keeps a non-empty string non-empty.
proof fn lemma_collapse_nonempty(s: Seq<char>)
    requires
        s.len() > 0,
    ensures
        collapse_slashes(s).len() > 0,
    decreases s.len(),
{
    if s.len() >= 2 && s.last() == '/' && s[s.len() - 2] == '/' {
        lemma_collapse_nonempty(s.drop_last());
    }
}

/// Normal form of a path as callers give it: surrounding whitespace is
/// trimmed first.
pub fn normalize_path(path: &str) -> (r: String)
    ensures
        r@ == normalize(trimmed(path@)),
{
    normalize_trimmed(trim_whitespace(path))
}

/// The two strings hold the same characters.
pub fn same_chars(a: &str, b: &str) -> (r: bool)
    ensures
        r == (a@ == b@),
{
    let n = a.unicode_len();
    if n != b.unicode_len() {
        return false;
    }
    let mut i: usize = 0;
    while i < n
        invariant
            n == a@.len(),
            n == b@.len(),
            i <= n,
            forall|k: int| 0 <= k < i ==> a@[k] == b@[k],
        decreases n - i,
    {
        if a.get_char(i) != b.get_char(i) {
            return false;
        }
        i = i + 1;
    }
    assert(a@ =~= b@);
    true
}

/// Position of the last separator of `p`, if it holds one.
fn find_last_slash(p: &str) -> (r: Option<usize>)
    ensures
        match r {
            Some(i) => i == last_slash(p@),
            None => last_slash(p@) == -1,
        },
{
    let mut i = p.unicode_len();
    assert(p@.subrange(0, i as int) =~= p@);
    while i > 0
        invariant
            i <= p@.len(),
            last_slash(p@) == last_slash(p@.subrange(0, i as int)),
        decreases i,
    {
        let sub = Ghost(p@.subrange(0, i as int));
        if p.get_char(i - 1) == '/' {
            return Some(i - 1);
        }
        assert(sub@.drop_last() =~= p@.subrange(0, i - 1));
        i = i - 1;
    }
    None
}

/// The parent directory of `p`.
pub fn parent_path(p: &str) -> (r: String)
    ensures
        r@ == parent_of(p@),
{
    proof {
        lemma_last_slash(p@);
    }
    match find_last_slash(p) {
        Some(i) if i > 0 => String::from_str(p.substring_char(0, i)),
        _ => root_string(),
    }
}

/// The final segment of `p`, or `/` for the root.
pub fn entry_name(p: &str) -> (r: String)
    ensures
        r@ == name_of(p@),
{
    let n = p.unicode_len();
    if n == 1 && p.get_char(0) == '/' {
        assert(p@ =~= root_path());
        return root_string();
    }
    proof {
        lemma_last_slash(p@);
    }
    let start = match find_last_slash(p) {
        Some(i) => i + 1,
        None => 0,
    };
    String::from_str(p.substring_char(start, n))
}

/// Whether `p` is the root path.
pub fn is_root(p: &str) -> (r: bool)
    ensures
        r == (p@ == root_path()),
{
    if p.unicode_len() == 1 && p.get_char(0) == '/' {
        assert(p@ =~= root_path());
        true
    } else {
        false
    }
}

/// Whether `p` is in normal form: the root, or `/`-separated segments that
/// are neither empty nor `.` nor `..`.
pub fn is_normal(p: &str) -> (r: bool)
    ensures
        r == is_normal_path(p@),
{
    let n = p.unicode_len();
    if n == 1 && p.get_char(0) == '/' {
        assert(p@ =~= root_path());
        return true;
    }
    if n < 2 || p.get_char(0) != '/' {
        return false;
    }
    let mut i: usize = 0;
    while i < n
        invariant
            n == p@.len(),
            n >= 2,
            p@[0] == '/',
            i <= n,
            forall|j: int| 0 <= j < i && p@[j] == '/' ==> segment_ok(p@, j + 1),
        decreases n - i,
    {
        if p.get_char(i) == '/' {
            if i + 1 >= n {
                return false;
            }
            let c1 = p.get_char(i + 1);
            if c1 == '/' {
                return false;
            }
            if c1 == '.' {
                if i + 2 == n || p.get_char(i + 2) == '/' {
                    return false;
                }
                if p.get_char(i + 2) == '.' && (i + 3 == n || p.get_char(i + 3) == '/') {
                    return false;
                }
            }
        }
        i = i + 1;
    }
    true
}

/// Whether `c` lies strictly below `p`; if so, the length of the prefix of
/// `p` that such paths start with.
fn below(c: &str, p: &str) -> (r: Option<usize>)
    ensures
        r is Some == is_descendant(c@, p@),
        r is Some ==> r->0 == dir_prefix(p@).len(),
{
    let n = p.unicode_len();
    let m = c.unicode_len();
    let ends_with_slash = n > 0 && p.get_char(n - 1) == '/';
    let pre = Ghost(dir_prefix(p@));
    if m <= n {
        proof {
            if ends_with_slash && pre@.is_prefix_of(c@) {
                assert(c@ =~= p@);
            }
        }
        return None;
    }
    let plen = if ends_with_slash { n } else { n + 1 };
    assert(pre@.len() == plen);
    if same_chars(c, p) || m < plen {
        return None;
    }
    let mut i: usize = 0;
    while i < n
        invariant
            n == p@.len(),
            m == c@.len(),
            pre@ == dir_prefix(p@),
            plen == pre@.len(),
            plen <= m,
            i <= n,
            forall|k: int| 0 <= k < i ==> c@[k] == pre@[k],
        decreases n - i,
    {
        if c.get_char(i) != p.get_char(i) {
            assert(pre@[i as int] == p@[i as int]);
            assert(c@.subrange(0, plen as int)[i as int] != pre@[i as int]);
            return None;
        }
        i = i + 1;
    }
    if !ends_with_slash && c.get_char(n) != '/' {
        assert(c@.subrange(0, plen as int)[n as int] != pre@[n as int]);
        return None;
    }
    assert(c@.subrange(0, plen as int) =~= pre@);
    Some(plen)
}

/// Whether `c` lies strictly below `p`, at any depth.
pub fn is_descendant_path(c: &str, p: &str) -> (r: bool)
    ensures
        r == is_descendant(c@, p@),
{
    below(c, p).is_some()
}

/// Whether `c` lies directly below `p`.
pub fn is_direct_child_path(c: &str, p: &str) -> (r: bool)
    ensures
        r == is_direct_child(c@, p@),
{
    let plen = match below(c, p) {
        Some(l) => l,
        None => return false,
    };
    let m = c.unicode_len();
    let mut k = plen;
    while k < m
        invariant
            m == c@.len(),
            plen == dir_prefix(p@).len(),
            plen <= k <= m,
            forall|j: int| plen <= j < k ==> c@[j] != '/',
        decreases m - k,
    {
        if c.get_char(k) == '/' {
            return false;
        }
        k = k + 1;
    }
    true
}

/// A normal path other than the root does not end in a separator.
pub proof fn lemma_ends_without_slash(p: Seq<char>)
    requires
        is_normal_path(p),
    ensures
        p != root_path() ==> p.len() >= 2 && p.last() != '/',
        p.len() >= 1,
        p[0] == '/',
{
    if p != root_path() && p.last() == '/' {
        assert(segment_ok(p, p.len() as int));
    }
}

/// Where the last separator stands, and that none follows it.
pub proof fn lemma_last_slash(p: Seq<char>)
    ensures
        -1 <= last_slash(p) < p.len(),
        last_slash(p) >= 0 ==> p[last_slash(p)] == '/',
        forall|k: int| 0 <= k < p.len() && p[k] == '/' ==> k <= last_slash(p),
    decreases p.len(),
{
    if p.len() > 0 && p.last() != '/' {
        lemma_last_slash(p.drop_last());
        assert forall|k: int| 0 <= k < p.len() && p[k] == '/' implies k <= last_slash(p) by {
            if k < p.len() - 1 {
                assert(p.drop_last()[k] == '/');
            }
        }
    }
}

/// A normal path other than the root is the prefix of its parent followed
/// by its name, a non-empty segment without separator; the parent is
/// normal and shorter.
pub proof fn lemma_parent_split(p: Seq<char>)
    requires
        is_normal_path(p),
        p != root_path(),
    ensures
        is_normal_path(parent_of(p)),
        parent_of(p).len() < p.len(),
        p == dir_prefix(parent_of(p)) + name_of(p),
        name_of(p).len() > 0,
        forall|k: int| 0 <= k < name_of(p).len() ==> name_of(p)[k] != '/',
{
    lemma_last_slash(p);
    let ls = last_slash(p);
    assert(p[0] == '/');
    assert(ls >= 0);
    assert(segment_ok(p, ls + 1));
    let name = name_of(p);
    assert forall|k: int| 0 <= k < name.len() implies name[k] != '/' by {
        assert(p[ls + 1 + k] == name[k]);
    }
    if ls == 0 {
        assert(p =~= dir_prefix(parent_of(p)) + name);
    } else {
        let q = p.subrange(0, ls);
        if ls == 1 {
            assert(segment_ok(p, 1));
        }
        if p[ls - 1] == '/' {
            assert(segment_ok(p, ls));
        }
        assert(dir_prefix(q) =~= p.subrange(0, ls + 1));
        assert(p =~= dir_prefix(q) + name);
        assert forall|i: int| 0 <= i < q.len() && q[i] == '/' implies segment_ok(q, i + 1) by {
            assert(segment_ok(p, i + 1));
            assert(i + 1 != ls);
            if i + 2 < q.len() {
                assert(q[i + 2] == p[i + 2]);
            }
            if i + 3 < q.len() {
                assert(q[i + 3] == p[i + 3]);
            }
        }
    }
}

/// The last separator of a directory prefix followed by a separator-free
/// segment is the one that ends the prefix.
pub proof fn lemma_name_of_child(pre: Seq<char>, r: Seq<char>)
    requires
        pre.len() > 0,
        pre.last() == '/',
        r.len() > 0,
        forall|k: int| 0 <= k < r.len() ==> r[k] != '/',
    ensures
        last_slash(pre + r) == pre.len() - 1,
        name_of(pre + r) == r,
    decreases r.len(),
{
    let c = pre + r;
    assert(c.last() == r[r.len() - 1]);
    assert(c.last() != '/');
    if r.len() == 1 {
        assert(c.drop_last() =~= pre);
        assert(last_slash(pre) == pre.len() - 1);
    } else {
        lemma_name_of_child(pre, r.drop_last());
        assert(c.drop_last() =~= pre + r.drop_last());
    }
    assert(last_slash(c) == last_slash(c.drop_last()));
    assert(c.len() >= 2);
    assert(c != root_path());
    assert(c.subrange(pre.len() as int, c.len() as int) =~= r);
}

/// A normal path other than the root is a direct child of its parent.
pub proof fn lemma_child_of_parent(c: Seq<char>)
    requires
        is_normal_path(c),
        c != root_path(),
    ensures
        is_direct_child(c, parent_of(c)),
{
    lemma_parent_split(c);
    let q = parent_of(c);
    let pre = dir_prefix(q);
    assert(c.subrange(0, pre.len() as int) =~= pre);
    assert forall|k: int| pre.len() <= k < c.len() implies c[k] != '/' by {
        assert(c[k] == name_of(c)[k - pre.len()]);
    }
}

/// Whatever lies below a descendant of `d` lies below `d` too.
pub proof fn lemma_descendant_of_parent(c: Seq<char>, d: Seq<char>)
    requires
        is_normal_path(c),
        c != root_path(),
        is_descendant(parent_of(c), d),
    ensures
        is_descendant(c, d),
{
    lemma_parent_split(c);
    let q = parent_of(c);
    let pre = dir_prefix(d);
    assert(q.is_prefix_of(c)) by {
        assert(c.subrange(0, q.len() as int) =~= q) by {
            assert forall|k: int| 0 <= k < q.len() implies c[k] == q[k] by {
                assert(dir_prefix(q)[k] == q[k]);
            }
        }
    }
    assert(c.subrange(0, pre.len() as int) =~= pre) by {
        assert forall|k: int| 0 <= k < pre.len() implies c[k] == pre[k] by {
            assert(q[k] == pre[k]);
        }
    }
}

/// A segment that may follow a directory: non-empty, without separator,
/// and neither `.` nor `..`.
pub open spec fn is_plain_segment(s: Seq<char>) -> bool {
    &&& s.len() > 0
    &&& forall|k: int| 0 <= k < s.len() ==> s[k] != '/'
    &&& s != seq!['.']
    &&& s != seq!['.', '.']
}

/// A plain segment joined below a normal path makes a normal path, whose
/// parent is that path and whose name is that segment.
pub proof fn lemma_join(q: Seq<char>, s: Seq<char>)
    requires
        is_normal_path(q),
        is_plain_segment(s),
    ensures
        is_normal_path(dir_prefix(q) + s),
        dir_prefix(q) + s != root_path(),
        parent_of(dir_prefix(q) + s) == q,
        name_of(dir_prefix(q) + s) == s,
{
    lemma_ends_without_slash(q);
    let pre = dir_prefix(q);
    let p = pre + s;
    lemma_name_of_child(pre, s);
    let k = pre.len() as int;
    assert(p[k - 1] == '/');
    assert forall|j: int| 0 <= j < s.len() implies p[k + j] == s[j] by {}
    assert(segment_ok(p, k)) by {
        if s.len() >= 2 {
            assert(p[k + 1] == s[1]);
        }
        if s.len() >= 3 {
            assert(p[k + 2] == s[2]);
        }
        if s.len() == 1 && s[0] == '.' {
            assert(s =~= seq!['.']);
        }
        if s.len() == 2 && s[0] == '.' && s[1] == '.' {
            assert(s =~= seq!['.', '.']);
        }
    }
    if q == root_path() {
        assert(pre == q);
        assert forall|i: int| 0 <= i < p.len() && p[i] == '/' implies segment_ok(p, i + 1) by {
            if i > 0 {
                assert(p[i] == s[i - 1]);
            }
        }
    } else {
        assert(pre =~= q.push('/'));
        assert(p.subrange(0, k - 1) =~= q);
        assert forall|i: int| 0 <= i < p.len() && p[i] == '/' implies segment_ok(p, i + 1) by {
            if i < q.len() {
                assert(p[i] == q[i]);
                assert(segment_ok(q, i + 1));
                assert(p[i + 1] == q[i + 1]);
                if i + 2 < q.len() {
                    assert(p[i + 2] == q[i + 2]);
                }
                if i + 3 < q.len() {
                    assert(p[i + 3] == q[i + 3]);
                }
            } else if i > k - 1 {
                assert(p[i] == s[i - k]);
            }
        }
    }
}

/// The root lies below no path.
pub proof fn lemma_root_not_below(p: Seq<char>)
    ensures
        !is_descendant(root_path(), p) || p.len() == 0,
{
    if is_descendant(root_path(), p) && p.len() > 0 {
        assert(dir_prefix(p).len() >= p.len());
        if p.last() == '/' {
            assert(p.len() == 1);
            assert(p =~= root_path());
        } else {
            assert(dir_prefix(p).len() == p.len() + 1);
        }
    }
}

/// Two distinct direct children of one directory have distinct names.
pub proof fn lemma_children_names_differ(c1: Seq<char>, c2: Seq<char>, p: Seq<char>)
    requires
        is_normal_path(c1),
        is_normal_path(c2),
        is_normal_path(p),
        is_direct_child(c1, p),
        is_direct_child(c2, p),
        c1 != c2,
    ensures
        name_of(c1) != name_of(c2),
{
    let pre = dir_prefix(p);
    let r1 = c1.subrange(pre.len() as int, c1.len() as int);
    let r2 = c2.subrange(pre.len() as int, c2.len() as int);
    assert(c1 =~= pre + r1);
    assert(c2 =~= pre + r2);
    assert(pre.len() > 0 && pre.last() == '/');
    assert(c1.len() > pre.len()) by {
        lemma_ends_without_slash(c1);
        lemma_ends_without_slash(p);
    }
    assert(c2.len() > pre.len()) by {
        lemma_ends_without_slash(c2);
        lemma_ends_without_slash(p);
    }
    lemma_name_of_child(pre, r1);
    lemma_name_of_child(pre, r2);
}

} // verus!
