//! The sandboxed cache store, specified over an explicit model.
//!
//! The store keeps the cache root and a model of the entries below it: a map
//! from normalized relative paths (segment sequences) to file contents, and a
//! set of directories created explicitly. A directory also exists implicitly
//! as the ancestor of any file or created directory. Every operation first
//! resolves its relative path and rejects traversal before touching anything.

use vstd::prelude::*;
use crate::errors::CacheError;
use crate::path::{resolve_rel, seg_views, joined_abs, resolve_path};

verus! {

/// The view of an owned segment vector as a path: a sequence of segments.
pub open spec fn path_view(p: Vec<String>) -> Seq<Seq<char>> {
    seg_views(p@)
}

/// The map an association list of path/contents entries denotes; a later
/// entry for the same path would win, though the store keeps paths unique.
pub open spec fn assoc_map(s: Seq<(Vec<String>, String)>) -> Map<Seq<Seq<char>>, Seq<char>>
    decreases s.len(),
{
    if s.len() == 0 {
        Map::empty()
    } else {
        assoc_map(s.drop_last()).insert(path_view(s.last().0), s.last().1@)
    }
}

/// The set of paths a list of directory entries denotes.
pub open spec fn dir_set(s: Seq<Vec<String>>) -> Set<Seq<Seq<char>>>
    decreases s.len(),
{
    if s.len() == 0 {
        Set::empty()
    } else {
        dir_set(s.drop_last()).insert(path_view(s.last()))
    }
}

proof fn lemma_assoc_contains(s: Seq<(Vec<String>, String)>, k: Seq<Seq<char>>)
    ensures
        assoc_map(s).contains_key(k) <==> exists|i: int|
            0 <= i < s.len() && path_view(#[trigger] s[i].0) == k,
    decreases s.len(),
{
    if s.len() > 0 {
        lemma_assoc_contains(s.drop_last(), k);
        if path_view(s.last().0) == k {
            assert(path_view(s[s.len() - 1].0) == k);
        } else if assoc_map(s).contains_key(k) {
            let i = choose|i: int| 0 <= i < s.drop_last().len()
                && path_view(#[trigger] s.drop_last()[i].0) == k;
            assert(path_view(s[i].0) == k);
        } else if exists|i: int| 0 <= i < s.len() && path_view(#[trigger] s[i].0) == k {
            let i = choose|i: int| 0 <= i < s.len() && path_view(#[trigger] s[i].0) == k;
            assert(i < s.len() - 1);
            assert(path_view(s.drop_last()[i].0) == k);
        }
    }
}

proof fn lemma_assoc_value(s: Seq<(Vec<String>, String)>, i: int)
    requires
        0 <= i < s.len(),
        forall|j: int| 0 <= j < s.len() && j != i
            ==> path_view(#[trigger] s[j].0) != path_view(s[i].0),
    ensures
        assoc_map(s).contains_key(path_view(s[i].0)),
        assoc_map(s)[path_view(s[i].0)] == s[i].1@,
    decreases s.len(),
{
    if i == s.len() - 1 {
    } else {
        assert(forall|j: int| 0 <= j < s.drop_last().len() && j != i
            ==> path_view(#[trigger] s.drop_last()[j].0) != path_view(s.drop_last()[i].0));
        lemma_assoc_value(s.drop_last(), i);
        assert(path_view(s[s.len() - 1].0) != path_view(s[i].0));
    }
}

proof fn lemma_assoc_remove(s: Seq<(Vec<String>, String)>, i: int)
    requires
        0 <= i < s.len(),
        forall|j: int| 0 <= j < s.len() && j != i
            ==> path_view(#[trigger] s[j].0) != path_view(s[i].0),
    ensures
        assoc_map(s.remove(i)) == assoc_map(s).remove(path_view(s[i].0)),
    decreases s.len(),
{
    let k = path_view(s[i].0);
    if i == s.len() - 1 {
        assert(s.remove(i) =~= s.drop_last());
        lemma_assoc_contains(s.drop_last(), k);
        assert(!assoc_map(s.drop_last()).contains_key(k));
        assert(assoc_map(s).remove(k) =~= assoc_map(s.drop_last()));
    } else {
        assert(s.remove(i).drop_last() =~= s.drop_last().remove(i));
        assert(s.remove(i).last() == s.last());
        assert(forall|j: int| 0 <= j < s.drop_last().len() && j != i
            ==> path_view(#[trigger] s.drop_last()[j].0) != path_view(s.drop_last()[i].0));
        lemma_assoc_remove(s.drop_last(), i);
        let klast = path_view(s.last().0);
        assert(klast != k);
        assert(assoc_map(s.drop_last()).remove(k).insert(klast, s.last().1@)
            =~= assoc_map(s.drop_last()).insert(klast, s.last().1@).remove(k));
    }
}

proof fn lemma_dir_contains(s: Seq<Vec<String>>, k: Seq<Seq<char>>)
    ensures
        dir_set(s).contains(k) <==> exists|i: int|
            0 <= i < s.len() && path_view(#[trigger] s[i]) == k,
    decreases s.len(),
{
    if s.len() > 0 {
        lemma_dir_contains(s.drop_last(), k);
        if path_view(s.last()) == k {
            assert(path_view(s[s.len() - 1]) == k);
        } else if dir_set(s).contains(k) {
            let i = choose|i: int| 0 <= i < s.drop_last().len()
                && path_view(#[trigger] s.drop_last()[i]) == k;
            assert(path_view(s[i]) == k);
        } else if exists|i: int| 0 <= i < s.len() && path_view(#[trigger] s[i]) == k {
            let i = choose|i: int| 0 <= i < s.len() && path_view(#[trigger] s[i]) == k;
            assert(i < s.len() - 1);
            assert(path_view(s.drop_last()[i]) == k);
        }
    }
}

/// `e` is one of the entries of `s`.
spec fn entry_from(s: Seq<(Vec<String>, String)>, e: (Vec<String>, String)) -> bool {
    exists|m: int| 0 <= m < s.len() && e == #[trigger] s[m]
}

/// Keeping every entry but the written one and then appending a fresh entry
/// whose path is clear to write preserves the store's invariant.
proof fn lemma_wf_after_write(pre: CacheStore, midv: Seq<(Vec<String>, String)>, post: CacheStore)
    requires
        pre.wf(),
        post.dir_entries@ == pre.dir_entries@,
        post.file_entries@.len() == midv.len() + 1,
        post.file_entries@.drop_last() == midv,
        forall|a: int, b: int| 0 <= a < midv.len() && 0 <= b < midv.len() && a != b
            ==> !path_view(#[trigger] midv[a].0).is_prefix_of(path_view(#[trigger] midv[b].0)),
        forall|j: int| 0 <= j < midv.len()
            ==> entry_from(pre.file_entries@, #[trigger] midv[j]),
        forall|j: int| 0 <= j < midv.len()
            ==> path_view(#[trigger] midv[j].0) != path_view(post.file_entries@.last().0),
        !pre.dir_exists(path_view(post.file_entries@.last().0)),
        !pre.blocked_by_file(path_view(post.file_entries@.last().0)),
    ensures
        post.wf(),
{
    let k = path_view(post.file_entries@.last().0);
    let last: int = midv.len() as int;
    assert(k.len() > 0);
    assert forall|j: int| 0 <= j < last implies post.file_entries@[j] == midv[j] by {
        assert(post.file_entries@.drop_last()[j] == midv[j]);
    }
    assert forall|j: int| 0 <= j < last
        implies pre.files().contains_key(path_view(#[trigger] midv[j].0))
            && path_view(midv[j].0).len() > 0 by {
        let m = choose|m: int| 0 <= m < pre.file_entries@.len()
            && midv[j] == #[trigger] pre.file_entries@[m];
        assert(midv[j] == pre.file_entries@[m]);
        let f = path_view(pre.file_entries@[m].0);
        lemma_assoc_contains(pre.file_entries@, f);
    }
    assert forall|a: int, b: int|
        0 <= a < post.file_entries@.len() && 0 <= b < post.file_entries@.len() && a != b
        implies !path_view(#[trigger] post.file_entries@[a].0).is_prefix_of(
            path_view(#[trigger] post.file_entries@[b].0)) by {
        if a < last && b < last {
        } else if a == last && b < last {
            let f = path_view(midv[b].0);
            if k.is_prefix_of(f) {
                if k.len() == f.len() {
                    assert(f =~= k);
                } else {
                    assert(pre.files().contains_key(f) && k.len() < f.len() && k.is_prefix_of(f));
                    assert(pre.dir_exists(k));
                }
                assert(false);
            }
        } else {
            let f = path_view(midv[a].0);
            if f.is_prefix_of(k) {
                if f.len() == k.len() {
                    assert(k =~= f);
                } else {
                    assert(pre.files().contains_key(f) && f.len() < k.len() && f.is_prefix_of(k));
                    assert(pre.blocked_by_file(k));
                }
                assert(false);
            }
        }
    }
    assert forall|a: int, j: int|
        0 <= a < post.file_entries@.len() && 0 <= j < post.dir_entries@.len()
        implies !path_view(#[trigger] post.file_entries@[a].0).is_prefix_of(
            path_view(#[trigger] post.dir_entries@[j])) by {
        if a < last {
            let m = choose|m: int| 0 <= m < pre.file_entries@.len()
                && midv[a] == #[trigger] pre.file_entries@[m];
            assert(midv[a] == pre.file_entries@[m]);
            assert(!path_view(pre.file_entries@[m].0).is_prefix_of(
                path_view(pre.dir_entries@[j])));
        } else {
            let d = path_view(post.dir_entries@[j]);
            if k.is_prefix_of(d) {
                lemma_dir_contains(pre.dir_entries@, d);
                assert(path_view(pre.dir_entries@[j]) == d);
                assert(pre.dirs().contains(d));
                assert(pre.dir_exists(k));
                assert(false);
            }
        }
    }
    assert forall|a: int| 0 <= a < post.file_entries@.len()
        implies path_view(#[trigger] post.file_entries@[a].0).len() > 0 by {
        if a < last {
            assert(path_view(midv[a].0).len() > 0);
        }
    }
}

/// Segment-vector equality, proved against the path views.
fn segs_eq(a: &Vec<String>, b: &Vec<String>) -> (r: bool)
    ensures
        r == (path_view(*a) == path_view(*b)),
{
    if a.len() != b.len() {
        return false;
    }
    let n = a.len();
    let mut i: usize = 0;
    while i < n
        invariant
            n == a@.len(),
            n == b@.len(),
            i <= n,
            forall|j: int| 0 <= j < i ==> a@[j]@ == b@[j]@,
        decreases n - i,
    {
        if !crate::path::str_eq(a[i].as_str(), b[i].as_str()) {
            assert(path_view(*a)[i as int] != path_view(*b)[i as int]);
            return false;
        }
        i = i + 1;
    }
    proof {
        assert(path_view(*a) =~~= path_view(*b));
    }
    true
}

/// Whether `a` names an ancestor-or-self of `b`, proved against the views.
fn is_prefix_exec(a: &Vec<String>, b: &Vec<String>) -> (r: bool)
    ensures
        r == path_view(*a).is_prefix_of(path_view(*b)),
{
    if a.len() > b.len() {
        return false;
    }
    let n = a.len();
    let mut i: usize = 0;
    while i < n
        invariant
            n == a@.len(),
            n <= b@.len(),
            i <= n,
            forall|j: int| 0 <= j < i ==> a@[j]@ == b@[j]@,
        decreases n - i,
    {
        if !crate::path::str_eq(a[i].as_str(), b[i].as_str()) {
            assert(path_view(*a)[i as int] != path_view(*b).subrange(0, n as int)[i as int]);
            return false;
        }
        i = i + 1;
    }
    proof {
        assert(path_view(*a) =~~= path_view(*b).subrange(0, n as int));
    }
    true
}

/// Whether `s` is already among `names`, proved against the views.
fn contains_name(names: &Vec<String>, s: &str) -> (r: bool)
    ensures
        r == exists|t: int| 0 <= t < names@.len() && #[trigger] names@[t]@ == s@,
{
    let n = names.len();
    let mut i: usize = 0;
    while i < n
        invariant
            n == names@.len(),
            i <= n,
            forall|t: int| 0 <= t < i ==> #[trigger] names@[t]@ != s@,
        decreases n - i,
    {
        if crate::path::str_eq(names[i].as_str(), s) {
            assert(names@[i as int]@ == s@);
            return true;
        }
        i = i + 1;
    }
    false
}

/// The sandboxed cache store: the cache root plus the model of the files and
/// directories beneath it.
pub struct CacheStore {
    root: String,
    file_entries: Vec<(Vec<String>, String)>,
    dir_entries: Vec<Vec<String>>,
}

impl CacheStore {
    /// The absolute path of the cache root.
    pub closed spec fn root_view(self) -> Seq<char> {
        self.root@
    }

    /// The files below the root: normalized path to contents.
    pub closed spec fn files(self) -> Map<Seq<Seq<char>>, Seq<char>> {
        assoc_map(self.file_entries@)
    }

    /// The directories created explicitly below the root.
    pub closed spec fn dirs(self) -> Set<Seq<Seq<char>>> {
        dir_set(self.dir_entries@)
    }

    /// The store's invariant: no file lies on the way to another file or to a
    /// created directory, and the root itself is never a file.
    pub closed spec fn wf(self) -> bool {
        &&& forall|i: int, j: int|
                0 <= i < self.file_entries@.len() && 0 <= j < self.file_entries@.len() && i != j
                ==> !path_view(#[trigger] self.file_entries@[i].0).is_prefix_of(
                    path_view(#[trigger] self.file_entries@[j].0))
        &&& forall|i: int, j: int|
                0 <= i < self.file_entries@.len() && 0 <= j < self.dir_entries@.len()
                ==> !path_view(#[trigger] self.file_entries@[i].0).is_prefix_of(
                    path_view(#[trigger] self.dir_entries@[j]))
        &&& forall|i: int| 0 <= i < self.file_entries@.len()
                ==> path_view(#[trigger] self.file_entries@[i].0).len() > 0
    }

    /// A directory exists at `p`: it is the root, or an explicitly created
    /// directory (or an ancestor of one), or an ancestor of a file.
    pub open spec fn dir_exists(self, p: Seq<Seq<char>>) -> bool {
        ||| p.len() == 0
        ||| exists|d: Seq<Seq<char>>| #[trigger] self.dirs().contains(d) && p.is_prefix_of(d)
        ||| exists|f: Seq<Seq<char>>| #[trigger] self.files().contains_key(f)
                && p.len() < f.len() && p.is_prefix_of(f)
    }

    /// A file sits on the way to `p`, so `p` cannot be created beneath it.
    pub open spec fn blocked_by_file(self, p: Seq<Seq<char>>) -> bool {
        exists|f: Seq<Seq<char>>| #[trigger] self.files().contains_key(f)
            && f.len() < p.len() && f.is_prefix_of(p)
    }

    /// A file sits at `p` or on the way to it.
    pub open spec fn blocked_dir(self, p: Seq<Seq<char>>) -> bool {
        exists|f: Seq<Seq<char>>| #[trigger] self.files().contains_key(f)
            && f.is_prefix_of(p)
    }

    /// `p` can be written as a file: no directory exists there, and no file
    /// blocks the way to it.
    pub open spec fn can_write(self, p: Seq<Seq<char>>) -> bool {
        !self.dir_exists(p) && !self.blocked_by_file(p)
    }

    /// `n` names an entry directly inside the directory at `p`: some file or
    /// created directory lies strictly below `p` and continues with `n`.
    pub open spec fn is_child_name(self, p: Seq<Seq<char>>, n: Seq<char>) -> bool {
        ||| exists|d: Seq<Seq<char>>| #[trigger] self.dirs().contains(d)
                && p.len() < d.len() && p.is_prefix_of(d) && d[p.len() as int] == n
        ||| exists|f: Seq<Seq<char>>| #[trigger] self.files().contains_key(f)
                && p.len() < f.len() && p.is_prefix_of(f) && f[p.len() as int] == n
    }

    /// `names` is exactly the listing of the directory at `p`: every name is
    /// a child, every child appears, and no name appears twice.
    pub open spec fn lists_children(self, p: Seq<Seq<char>>, names: Seq<String>) -> bool {
        &&& forall|t: int| 0 <= t < names.len()
                ==> self.is_child_name(p, #[trigger] names[t]@)
        &&& forall|n: Seq<char>| #[trigger] self.is_child_name(p, n)
                ==> exists|t: int| 0 <= t < names.len() && #[trigger] names[t]@ == n
        &&& forall|t: int, u: int| 0 <= t < u < names.len() ==> names[t]@ != names[u]@
    }

    /// What reading a relative path returns, over the model.
    pub open spec fn spec_read(self, rel: Seq<char>) -> Result<Seq<char>, CacheError> {
        match resolve_rel(rel) {
            None => Err(CacheError::PathTraversalError),
            Some(p) => if self.files().contains_key(p) {
                Ok(self.files()[p])
            } else if self.dir_exists(p) {
                Err(CacheError::IoError)
            } else {
                Err(CacheError::NotFoundError)
            },
        }
    }

    /// The invariant, restated over the store's model for callers and laws.
    pub proof fn lemma_wf_abstract(self)
        requires
            self.wf(),
        ensures
            forall|f1: Seq<Seq<char>>, f2: Seq<Seq<char>>|
                #[trigger] self.files().contains_key(f1) && #[trigger] self.files().contains_key(f2)
                && f1 != f2 ==> !f1.is_prefix_of(f2),
            forall|f: Seq<Seq<char>>, d: Seq<Seq<char>>|
                #[trigger] self.files().contains_key(f) && #[trigger] self.dirs().contains(d)
                ==> !f.is_prefix_of(d),
            forall|f: Seq<Seq<char>>| #[trigger] self.files().contains_key(f) ==> f.len() > 0,
    {
        assert forall|f1: Seq<Seq<char>>, f2: Seq<Seq<char>>|
            #[trigger] self.files().contains_key(f1) && #[trigger] self.files().contains_key(f2)
            && f1 != f2 implies !f1.is_prefix_of(f2) by {
            lemma_assoc_contains(self.file_entries@, f1);
            lemma_assoc_contains(self.file_entries@, f2);
        }
        assert forall|f: Seq<Seq<char>>, d: Seq<Seq<char>>|
            #[trigger] self.files().contains_key(f) && #[trigger] self.dirs().contains(d)
            implies !f.is_prefix_of(d) by {
            lemma_assoc_contains(self.file_entries@, f);
            lemma_dir_contains(self.dir_entries@, d);
        }
        assert forall|f: Seq<Seq<char>>| #[trigger] self.files().contains_key(f)
            implies f.len() > 0 by {
            lemma_assoc_contains(self.file_entries@, f);
        }
    }

    /// A fresh, empty store rooted at `root`.
    pub fn new(root: String) -> (s: CacheStore)
        ensures
            s.wf(),
            s.root_view() == root@,
            s.files() == Map::<Seq<Seq<char>>, Seq<char>>::empty(),
            s.dirs() == Set::<Seq<Seq<char>>>::empty(),
    {
        CacheStore { root, file_entries: Vec::new(), dir_entries: Vec::new() }
    }

    /// The cache root as an absolute path.
    pub fn root_dir(&self) -> (r: &str)
        ensures
            r@ == self.root_view(),
    {
        self.root.as_str()
    }

    /// Finds the entry index of the file at `p`, if any.
    fn find_file(&self, p: &Vec<String>) -> (r: Option<usize>)
        requires
            self.wf(),
        ensures
            match r {
                Some(i) => i < self.file_entries@.len()
                    && path_view(self.file_entries@[i as int].0) == path_view(*p)
                    && self.files().contains_key(path_view(*p))
                    && self.files()[path_view(*p)] == self.file_entries@[i as int].1@
                    && (forall|j: int| 0 <= j < self.file_entries@.len() && j != i
                        ==> path_view(#[trigger] self.file_entries@[j].0) != path_view(*p)),
                None => !self.files().contains_key(path_view(*p)),
            },
    {
        let n = self.file_entries.len();
        let mut i: usize = 0;
        while i < n
            invariant
                self.wf(),
                n == self.file_entries@.len(),
                i <= n,
                forall|j: int| 0 <= j < i
                    ==> path_view(#[trigger] self.file_entries@[j].0) != path_view(*p),
            decreases n - i,
        {
            if segs_eq(&self.file_entries[i].0, p) {
                proof {
                    assert forall|j: int| 0 <= j < self.file_entries@.len() && j != i
                        implies path_view(#[trigger] self.file_entries@[j].0) != path_view(*p) by {
                        assert(!path_view(self.file_entries@[i as int].0).is_prefix_of(
                            path_view(self.file_entries@[j].0)));
                    }
                    lemma_assoc_value(self.file_entries@, i as int);
                }
                return Some(i);
            }
            i = i + 1;
        }
        proof {
            lemma_assoc_contains(self.file_entries@, path_view(*p));
        }
        None
    }

    /// Whether a directory exists at `p`, over the entries.
    fn dir_exists_exec(&self, p: &Vec<String>) -> (r: bool)
        ensures
            r == self.dir_exists(path_view(*p)),
    {
        if p.len() == 0 {
            return true;
        }
        let nd = self.dir_entries.len();
        let mut i: usize = 0;
        while i < nd
            invariant
                nd == self.dir_entries@.len(),
                i <= nd,
                forall|j: int| 0 <= j < i
                    ==> !path_view(*p).is_prefix_of(path_view(#[trigger] self.dir_entries@[j])),
            decreases nd - i,
        {
            if is_prefix_exec(p, &self.dir_entries[i]) {
                proof {
                    let k = path_view(self.dir_entries@[i as int]);
                    lemma_dir_contains(self.dir_entries@, k);
                    assert(path_view(self.dir_entries@[i as int]) == k);
                    assert(self.dirs().contains(k));
                }
                return true;
            }
            i = i + 1;
        }
        let nf = self.file_entries.len();
        let mut k: usize = 0;
        while k < nf
            invariant
                nf == self.file_entries@.len(),
                k <= nf,
                forall|j: int| 0 <= j < k
                    ==> !(path_view(*p).len() < path_view(#[trigger] self.file_entries@[j].0).len()
                        && path_view(*p).is_prefix_of(path_view(self.file_entries@[j].0))),
                forall|j: int| 0 <= j < self.dir_entries@.len()
                    ==> !path_view(*p).is_prefix_of(path_view(#[trigger] self.dir_entries@[j])),
            decreases nf - k,
        {
            if self.file_entries[k].0.len() > p.len() && is_prefix_exec(p, &self.file_entries[k].0) {
                proof {
                    let kk = path_view(self.file_entries@[k as int].0);
                    lemma_assoc_contains(self.file_entries@, kk);
                    assert(path_view(self.file_entries@[k as int].0) == kk);
                    assert(self.files().contains_key(kk));
                }
                return true;
            }
            k = k + 1;
        }
        proof {
            if self.dir_exists(path_view(*p)) {
                if exists|d: Seq<Seq<char>>| #[trigger] self.dirs().contains(d)
                    && path_view(*p).is_prefix_of(d) {
                    let d = choose|d: Seq<Seq<char>>| #[trigger] self.dirs().contains(d)
                        && path_view(*p).is_prefix_of(d);
                    lemma_dir_contains(self.dir_entries@, d);
                } else {
                    let f = choose|f: Seq<Seq<char>>| #[trigger] self.files().contains_key(f)
                        && path_view(*p).len() < f.len() && path_view(*p).is_prefix_of(f);
                    lemma_assoc_contains(self.file_entries@, f);
                }
            }
        }
        false
    }

    /// Whether a file lies strictly on the way to `p`.
    fn blocked_by_file_exec(&self, p: &Vec<String>) -> (r: bool)
        ensures
            r == self.blocked_by_file(path_view(*p)),
    {
        let nf = self.file_entries.len();
        let mut i: usize = 0;
        while i < nf
            invariant
                nf == self.file_entries@.len(),
                i <= nf,
                forall|j: int| 0 <= j < i
                    ==> !(path_view(#[trigger] self.file_entries@[j].0).len() < path_view(*p).len()
                        && path_view(self.file_entries@[j].0).is_prefix_of(path_view(*p))),
            decreases nf - i,
        {
            if self.file_entries[i].0.len() < p.len() && is_prefix_exec(&self.file_entries[i].0, p) {
                proof {
                    let kk = path_view(self.file_entries@[i as int].0);
                    lemma_assoc_contains(self.file_entries@, kk);
                    assert(path_view(self.file_entries@[i as int].0) == kk);
                    assert(self.files().contains_key(kk));
                }
                return true;
            }
            i = i + 1;
        }
        proof {
            if self.blocked_by_file(path_view(*p)) {
                let f = choose|f: Seq<Seq<char>>| #[trigger] self.files().contains_key(f)
                    && f.len() < path_view(*p).len() && f.is_prefix_of(path_view(*p));
                lemma_assoc_contains(self.file_entries@, f);
            }
        }
        false
    }

    /// Whether a file sits at `p` or on the way to it.
    fn blocked_dir_exec(&self, p: &Vec<String>) -> (r: bool)
        ensures
            r == self.blocked_dir(path_view(*p)),
    {
        let nf = self.file_entries.len();
        let mut i: usize = 0;
        while i < nf
            invariant
                nf == self.file_entries@.len(),
                i <= nf,
                forall|j: int| 0 <= j < i
                    ==> !path_view(#[trigger] self.file_entries@[j].0).is_prefix_of(path_view(*p)),
            decreases nf - i,
        {
            if is_prefix_exec(&self.file_entries[i].0, p) {
                proof {
                    let kk = path_view(self.file_entries@[i as int].0);
                    lemma_assoc_contains(self.file_entries@, kk);
                    assert(path_view(self.file_entries@[i as int].0) == kk);
                    assert(self.files().contains_key(kk));
                }
                return true;
            }
            i = i + 1;
        }
        proof {
            if self.blocked_dir(path_view(*p)) {
                let f = choose|f: Seq<Seq<char>>| #[trigger] self.files().contains_key(f)
                    && f.is_prefix_of(path_view(*p));
                lemma_assoc_contains(self.file_entries@, f);
            }
        }
        false
    }

    /// Whether `p` itself is among the created directories.
    fn find_dir(&self, p: &Vec<String>) -> (r: bool)
        ensures
            r == self.dirs().contains(path_view(*p)),
    {
        let n = self.dir_entries.len();
        let mut i: usize = 0;
        while i < n
            invariant
                n == self.dir_entries@.len(),
                i <= n,
                forall|j: int| 0 <= j < i
                    ==> path_view(#[trigger] self.dir_entries@[j]) != path_view(*p),
            decreases n - i,
        {
            if segs_eq(&self.dir_entries[i], p) {
                proof {
                    lemma_dir_contains(self.dir_entries@, path_view(*p));
                }
                return true;
            }
            i = i + 1;
        }
        proof {
            lemma_dir_contains(self.dir_entries@, path_view(*p));
        }
        false
    }

    /// Reads the text file at `relative`: its contents, `NotFoundError` when
    /// nothing exists there, `IoError` when a directory does, and
    /// `PathTraversalError` when the path escapes the root.
    pub fn read_text(&self, relative: &str) -> (r: Result<String, CacheError>)
        requires
            self.wf(),
        ensures
            match r {
                Ok(c) => self.spec_read(relative@) == Ok::<Seq<char>, CacheError>(c@),
                Err(e) => self.spec_read(relative@) == Err::<Seq<char>, CacheError>(e),
            },
    {
        let segs = match crate::path::resolve_segments(relative) {
            Ok(segs) => segs,
            Err(e) => {
                return Err(e);
            },
        };
        match self.find_file(&segs) {
            Some(i) => Ok(self.file_entries[i].1.clone()),
            None => {
                if self.dir_exists_exec(&segs) {
                    Err(CacheError::IoError)
                } else {
                    Err(CacheError::NotFoundError)
                }
            },
        }
    }

    /// Writes `contents` to the text file at `relative`, creating it if
    /// missing and replacing it whole if present; parent directories come
    /// into being with it. Fails with `IoError` when a directory sits at the
    /// path or a file on the way to it, and with `PathTraversalError` when
    /// the path escapes the root; a failure changes nothing.
    pub fn write_text(&mut self, relative: &str, contents: &str) -> (r: Result<(), CacheError>)
        requires
            old(self).wf(),
        ensures
            final(self).wf(),
            final(self).root_view() == old(self).root_view(),
            final(self).dirs() == old(self).dirs(),
            match r {
                Ok(()) => resolve_rel(relative@) is Some
                    && old(self).can_write(resolve_rel(relative@).unwrap())
                    && final(self).files() == old(self).files().insert(
                        resolve_rel(relative@).unwrap(), contents@),
                Err(e) => final(self).files() == old(self).files()
                    && ((e == CacheError::PathTraversalError && resolve_rel(relative@) is None)
                        || (e == CacheError::IoError && resolve_rel(relative@) is Some
                            && !old(self).can_write(resolve_rel(relative@).unwrap()))),
            },
    {
        let segs = match crate::path::resolve_segments(relative) {
            Ok(segs) => segs,
            Err(e) => {
                return Err(e);
            },
        };
        if self.dir_exists_exec(&segs) {
            return Err(CacheError::IoError);
        }
        if self.blocked_by_file_exec(&segs) {
            return Err(CacheError::IoError);
        }
        let ghost pre = *self;
        let ghost k = path_view(segs);
        match self.find_file(&segs) {
            Some(i) => {
                self.file_entries.remove(i);
                proof {
                    lemma_assoc_remove(pre.file_entries@, i as int);
                    assert(self.file_entries@ =~= pre.file_entries@.remove(i as int));
                }
            },
            None => {
            },
        }
        let ghost mid = *self;
        proof {
            assert forall|a: int, b: int|
                0 <= a < mid.file_entries@.len() && 0 <= b < mid.file_entries@.len() && a != b
                implies !path_view(#[trigger] mid.file_entries@[a].0).is_prefix_of(
                    path_view(#[trigger] mid.file_entries@[b].0)) by {
                if mid.file_entries@.len() == pre.file_entries@.len() {
                } else {
                    let i = choose|i: int| 0 <= i < pre.file_entries@.len()
                        && mid.file_entries@ == pre.file_entries@.remove(i);
                    let ma: int = if a < i { a } else { a + 1 };
                    let mb: int = if b < i { b } else { b + 1 };
                    assert(mid.file_entries@[a] == pre.file_entries@[ma]);
                    assert(mid.file_entries@[b] == pre.file_entries@[mb]);
                }
            }
            assert forall|j: int| 0 <= j < mid.file_entries@.len()
                implies entry_from(pre.file_entries@, #[trigger] mid.file_entries@[j]) by {
                if mid.file_entries@.len() == pre.file_entries@.len() {
                    assert(mid.file_entries@[j] == pre.file_entries@[j]);
                } else {
                    let i = choose|i: int| 0 <= i < pre.file_entries@.len()
                        && mid.file_entries@ == pre.file_entries@.remove(i);
                    let m: int = if j < i { j } else { j + 1 };
                    assert(mid.file_entries@[j] == pre.file_entries@[m]);
                }
            }
            assert forall|j: int| 0 <= j < mid.file_entries@.len()
                implies path_view(#[trigger] mid.file_entries@[j].0) != k by {
                if mid.file_entries@.len() == pre.file_entries@.len() {
                    lemma_assoc_contains(pre.file_entries@, k);
                    assert(mid.file_entries@[j] == pre.file_entries@[j]);
                }
            }
        }
        self.file_entries.push((segs, contents.to_owned()));
        proof {
            assert(self.file_entries@.drop_last() =~= mid.file_entries@);
            assert(path_view(self.file_entries@.last().0) == k);
            assert(self.files() == mid.files().insert(k, contents@));
            if mid.file_entries@.len() == pre.file_entries@.len() {
                assert(self.files() == pre.files().insert(k, contents@));
            } else {
                assert(pre.files().remove(k).insert(k, contents@) =~= pre.files().insert(k, contents@));
            }
            lemma_wf_after_write(pre, mid.file_entries@, *self);
        }
        Ok(())
    }

    /// Creates the directory at `relative` and any missing ancestors;
    /// succeeds silently when it already exists. Fails with `IoError` when a
    /// file sits at the path or on the way to it, and with
    /// `PathTraversalError` when the path escapes the root; a failure
    /// changes nothing.
    pub fn ensure_directory(&mut self, relative: &str) -> (r: Result<(), CacheError>)
        requires
            old(self).wf(),
        ensures
            final(self).wf(),
            final(self).root_view() == old(self).root_view(),
            final(self).files() == old(self).files(),
            match r {
                Ok(()) => resolve_rel(relative@) is Some
                    && !old(self).blocked_dir(resolve_rel(relative@).unwrap())
                    && final(self).dirs() == (if resolve_rel(relative@).unwrap().len() == 0 {
                        old(self).dirs()
                    } else {
                        old(self).dirs().insert(resolve_rel(relative@).unwrap())
                    }),
                Err(e) => final(self).dirs() == old(self).dirs()
                    && ((e == CacheError::PathTraversalError && resolve_rel(relative@) is None)
                        || (e == CacheError::IoError && resolve_rel(relative@) is Some
                            && old(self).blocked_dir(resolve_rel(relative@).unwrap()))),
            },
    {
        let segs = match crate::path::resolve_segments(relative) {
            Ok(segs) => segs,
            Err(e) => {
                return Err(e);
            },
        };
        if self.blocked_dir_exec(&segs) {
            return Err(CacheError::IoError);
        }
        if segs.len() == 0 {
            return Ok(());
        }
        if self.find_dir(&segs) {
            proof {
                assert(self.dirs().insert(path_view(segs)) =~= self.dirs());
            }
            return Ok(());
        }
        let ghost pre = *self;
        let ghost k = path_view(segs);
        self.dir_entries.push(segs);
        proof {
            assert(self.dir_entries@.drop_last() =~= pre.dir_entries@);
            assert(path_view(self.dir_entries@.last()) == k);
            assert(self.dirs() == pre.dirs().insert(k));
            assert forall|i: int, j: int|
                0 <= i < self.file_entries@.len() && 0 <= j < self.dir_entries@.len()
                implies !path_view(#[trigger] self.file_entries@[i].0).is_prefix_of(
                    path_view(#[trigger] self.dir_entries@[j])) by {
                if j == self.dir_entries@.len() - 1 {
                    let f = path_view(self.file_entries@[i].0);
                    lemma_assoc_contains(pre.file_entries@, f);
                    assert(pre.files().contains_key(f));
                }
            }
        }
        Ok(())
    }

    /// Lists the names of the entries directly inside the directory at
    /// `relative`, each once, in no promised order; a directory that does
    /// not exist yields an empty listing, not an error. Fails with `IoError`
    /// when the path names a file, and with `PathTraversalError` when it
    /// escapes the root.
    #[verifier::rlimit(100)]
    #[verifier::spinoff_prover]
    pub fn list_entries(&self, relative: &str) -> (r: Result<Vec<String>, CacheError>)
        requires
            self.wf(),
        ensures
            r is Ok ==> resolve_rel(relative@) is Some
                && !self.files().contains_key(resolve_rel(relative@).unwrap()),
            r matches Ok(names)
                ==> self.lists_children(resolve_rel(relative@).unwrap(), names@),
            r matches Err(e) ==> (e == CacheError::PathTraversalError
                    && resolve_rel(relative@) is None)
                || (e == CacheError::IoError && resolve_rel(relative@) is Some
                    && self.files().contains_key(resolve_rel(relative@).unwrap())),
    {
        let segs = match crate::path::resolve_segments(relative) {
            Ok(segs) => segs,
            Err(e) => {
                return Err(e);
            },
        };
        match self.find_file(&segs) {
            Some(_) => {
                return Err(CacheError::IoError);
            },
            None => {
            },
        }
        let ghost p = path_view(segs);
        let p_len = segs.len();
        let mut names: Vec<String> = Vec::new();
        let nd = self.dir_entries.len();
        let mut i: usize = 0;
        while i < nd
            invariant
                self.wf(),
                nd == self.dir_entries@.len(),
                i <= nd,
                p == path_view(segs),
                p_len == segs@.len(),
                forall|t: int| 0 <= t < names@.len()
                    ==> self.is_child_name(p, #[trigger] names@[t]@),
                forall|t: int, u: int| 0 <= t < u < names@.len() ==> names@[t]@ != names@[u]@,
                forall|j: int| 0 <= j < i
                    && p.len() < path_view(#[trigger] self.dir_entries@[j]).len()
                    && p.is_prefix_of(path_view(self.dir_entries@[j]))
                    ==> exists|t: int| 0 <= t < names@.len()
                        && #[trigger] names@[t]@ == path_view(self.dir_entries@[j])[p.len() as int],
            decreases nd - i,
        {
            let d = &self.dir_entries[i];
            if d.len() > p_len && is_prefix_exec(&segs, d) {
                let name = d[p_len].clone();
                if !contains_name(&names, name.as_str()) {
                    proof {
                        let dk = path_view(self.dir_entries@[i as int]);
                        lemma_dir_contains(self.dir_entries@, dk);
                        assert(path_view(self.dir_entries@[i as int]) == dk);
                        assert(self.dirs().contains(dk));
                        assert(self.is_child_name(p, name@));
                    }
                    let ghost names0 = names@;
                    names.push(name);
                    proof {
                        assert forall|j: int| 0 <= j < i + 1
                            && p.len() < path_view(#[trigger] self.dir_entries@[j]).len()
                            && p.is_prefix_of(path_view(self.dir_entries@[j]))
                            implies exists|t: int| 0 <= t < names@.len()
                                && #[trigger] names@[t]@
                                    == path_view(self.dir_entries@[j])[p.len() as int] by {
                            let target = path_view(self.dir_entries@[j])[p.len() as int];
                            if j < i {
                                let t = choose|t: int| 0 <= t < names0.len()
                                    && #[trigger] names0[t]@ == target;
                                assert(names@[t]@ == target);
                            } else {
                                assert(names@[names@.len() - 1]@ == target);
                            }
                        }
                    }
                }
            }
            i = i + 1;
        }
        let nf = self.file_entries.len();
        let mut h: usize = 0;
        while h < nf
            invariant
                self.wf(),
                nf == self.file_entries@.len(),
                h <= nf,
                p == path_view(segs),
                p_len == segs@.len(),
                forall|t: int| 0 <= t < names@.len()
                    ==> self.is_child_name(p, #[trigger] names@[t]@),
                forall|t: int, u: int| 0 <= t < u < names@.len() ==> names@[t]@ != names@[u]@,
                forall|j: int| 0 <= j < self.dir_entries@.len()
                    && p.len() < path_view(#[trigger] self.dir_entries@[j]).len()
                    && p.is_prefix_of(path_view(self.dir_entries@[j]))
                    ==> exists|t: int| 0 <= t < names@.len()
                        && #[trigger] names@[t]@ == path_view(self.dir_entries@[j])[p.len() as int],
                forall|j: int| 0 <= j < h
                    && p.len() < path_view(#[trigger] self.file_entries@[j].0).len()
                    && p.is_prefix_of(path_view(self.file_entries@[j].0))
                    ==> exists|t: int| 0 <= t < names@.len()
                        && #[trigger] names@[t]@
                            == path_view(self.file_entries@[j].0)[p.len() as int],
            decreases nf - h,
        {
            let f = &self.file_entries[h].0;
            if f.len() > p_len && is_prefix_exec(&segs, f) {
                let name = f[p_len].clone();
                if !contains_name(&names, name.as_str()) {
                    proof {
                        let fk = path_view(self.file_entries@[h as int].0);
                        lemma_assoc_contains(self.file_entries@, fk);
                        assert(path_view(self.file_entries@[h as int].0) == fk);
                        assert(self.files().contains_key(fk));
                        assert(self.is_child_name(p, name@));
                    }
                    let ghost names0 = names@;
                    names.push(name);
                    proof {
                        assert forall|j: int| 0 <= j < self.dir_entries@.len()
                            && p.len() < path_view(#[trigger] self.dir_entries@[j]).len()
                            && p.is_prefix_of(path_view(self.dir_entries@[j]))
                            implies exists|t: int| 0 <= t < names@.len()
                                && #[trigger] names@[t]@
                                    == path_view(self.dir_entries@[j])[p.len() as int] by {
                            let target = path_view(self.dir_entries@[j])[p.len() as int];
                            let t = choose|t: int| 0 <= t < names0.len()
                                && #[trigger] names0[t]@ == target;
                            assert(names@[t]@ == target);
                        }
                        assert forall|j: int| 0 <= j < h + 1
                            && p.len() < path_view(#[trigger] self.file_entries@[j].0).len()
                            && p.is_prefix_of(path_view(self.file_entries@[j].0))
                            implies exists|t: int| 0 <= t < names@.len()
                                && #[trigger] names@[t]@
                                    == path_view(self.file_entries@[j].0)[p.len() as int] by {
                            let target = path_view(self.file_entries@[j].0)[p.len() as int];
                            if j < h {
                                let t = choose|t: int| 0 <= t < names0.len()
                                    && #[trigger] names0[t]@ == target;
                                assert(names@[t]@ == target);
                            } else {
                                assert(names@[names@.len() - 1]@ == target);
                            }
                        }
                    }
                }
            }
            h = h + 1;
        }
        proof {
            assert forall|n: Seq<char>| #[trigger] self.is_child_name(p, n)
                implies exists|t: int| 0 <= t < names@.len() && #[trigger] names@[t]@ == n by {
                if exists|d: Seq<Seq<char>>| #[trigger] self.dirs().contains(d)
                    && p.len() < d.len() && p.is_prefix_of(d) && d[p.len() as int] == n {
                    let d = choose|d: Seq<Seq<char>>| #[trigger] self.dirs().contains(d)
                        && p.len() < d.len() && p.is_prefix_of(d) && d[p.len() as int] == n;
                    lemma_dir_contains(self.dir_entries@, d);
                    let j = choose|j: int| 0 <= j < self.dir_entries@.len()
                        && path_view(#[trigger] self.dir_entries@[j]) == d;
                    assert(path_view(self.dir_entries@[j]) == d);
                } else {
                    let f = choose|f: Seq<Seq<char>>| #[trigger] self.files().contains_key(f)
                        && p.len() < f.len() && p.is_prefix_of(f) && f[p.len() as int] == n;
                    lemma_assoc_contains(self.file_entries@, f);
                    let j = choose|j: int| 0 <= j < self.file_entries@.len()
                        && path_view(#[trigger] self.file_entries@[j].0) == f;
                    assert(path_view(self.file_entries@[j].0) == f);
                }
            }
            assert(p == resolve_rel(relative@).unwrap());
            assert(self.lists_children(resolve_rel(relative@).unwrap(), names@));
        }
        Ok(names)
    }

    /// Deletes the file at `relative`; succeeds without effect when nothing
    /// exists there. Fails with `IoError` when the path names a directory,
    /// and with `PathTraversalError` when it escapes the root; a failure
    /// changes nothing.
    pub fn delete_entry(&mut self, relative: &str) -> (r: Result<(), CacheError>)
        requires
            old(self).wf(),
        ensures
            final(self).wf(),
            final(self).root_view() == old(self).root_view(),
            final(self).dirs() == old(self).dirs(),
            match r {
                Ok(()) => resolve_rel(relative@) is Some
                    && (if old(self).files().contains_key(resolve_rel(relative@).unwrap()) {
                        final(self).files() == old(self).files().remove(
                            resolve_rel(relative@).unwrap())
                    } else {
                        !old(self).dir_exists(resolve_rel(relative@).unwrap())
                            && final(self).files() == old(self).files()
                    }),
                Err(e) => final(self).files() == old(self).files()
                    && ((e == CacheError::PathTraversalError && resolve_rel(relative@) is None)
                        || (e == CacheError::IoError && resolve_rel(relative@) is Some
                            && !old(self).files().contains_key(resolve_rel(relative@).unwrap())
                            && old(self).dir_exists(resolve_rel(relative@).unwrap()))),
            },
    {
        let segs = match crate::path::resolve_segments(relative) {
            Ok(segs) => segs,
            Err(e) => {
                return Err(e);
            },
        };
        let ghost pre = *self;
        match self.find_file(&segs) {
            Some(i) => {
                self.file_entries.remove(i);
                proof {
                    lemma_assoc_remove(pre.file_entries@, i as int);
                    assert(self.file_entries@ =~= pre.file_entries@.remove(i as int));
                    assert forall|a: int, b: int|
                        0 <= a < self.file_entries@.len() && 0 <= b < self.file_entries@.len()
                        && a != b
                        implies !path_view(#[trigger] self.file_entries@[a].0).is_prefix_of(
                            path_view(#[trigger] self.file_entries@[b].0)) by {
                        let ma: int = if a < i { a } else { a + 1 };
                        let mb: int = if b < i { b } else { b + 1 };
                        assert(self.file_entries@[a] == pre.file_entries@[ma]);
                        assert(self.file_entries@[b] == pre.file_entries@[mb]);
                    }
                    assert forall|a: int, j: int|
                        0 <= a < self.file_entries@.len() && 0 <= j < self.dir_entries@.len()
                        implies !path_view(#[trigger] self.file_entries@[a].0).is_prefix_of(
                            path_view(#[trigger] self.dir_entries@[j])) by {
                        let ma: int = if a < i { a } else { a + 1 };
                        assert(self.file_entries@[a] == pre.file_entries@[ma]);
                    }
                    assert forall|a: int| 0 <= a < self.file_entries@.len()
                        implies path_view(#[trigger] self.file_entries@[a].0).len() > 0 by {
                        let ma: int = if a < i { a } else { a + 1 };
                        assert(self.file_entries@[a] == pre.file_entries@[ma]);
                    }
                }
                Ok(())
            },
            None => {
                if self.dir_exists_exec(&segs) {
                    Err(CacheError::IoError)
                } else {
                    Ok(())
                }
            },
        }
    }

    /// Resolves `relative` against the root, rejecting traversal.
    pub fn resolve(&self, relative: &str) -> (r: Result<String, CacheError>)
        ensures
            match r {
                Ok(p) => resolve_rel(relative@) is Some
                    && p@ == joined_abs(self.root_view(), resolve_rel(relative@).unwrap()),
                Err(e) => resolve_rel(relative@) is None && e == CacheError::PathTraversalError,
            },
    {
        resolve_path(self.root.as_str(), relative)
    }
}

/// The cache root the host's application-data directory implies: that
/// directory plus the application's own namespace segment.
pub fn resolve_root(app_data_dir: Option<&str>) -> (r: Result<String, CacheError>)
    ensures
        match r {
            Ok(p) => app_data_dir is Some && p@ == app_data_dir.unwrap()@ + "/"@ + "loopos"@,
            Err(e) => app_data_dir is None && e == CacheError::EnvironmentError,
        },
{
    match app_data_dir {
        Some(d) => {
            let mut s = d.to_owned();
            s.append("/");
            s.append("loopos");
            Ok(s)
        },
        None => Err(CacheError::EnvironmentError),
    }
}

/// A store rooted at the cache root the host's application-data directory
/// implies, or `EnvironmentError` when the host supplies none.
pub fn from_app_data(app_data_dir: Option<&str>) -> (r: Result<CacheStore, CacheError>)
    ensures
        match r {
            Ok(s) => app_data_dir is Some
                && s.wf()
                && s.root_view() == app_data_dir.unwrap()@ + "/"@ + "loopos"@
                && s.files() == Map::<Seq<Seq<char>>, Seq<char>>::empty()
                && s.dirs() == Set::<Seq<Seq<char>>>::empty(),
            Err(e) => app_data_dir is None && e == CacheError::EnvironmentError,
        },
{
    match resolve_root(app_data_dir) {
        Ok(root) => Ok(CacheStore::new(root)),
        Err(e) => Err(e),
    }
}

} // verus!
