//! Laws the store's operations obey, stated over the model the operations'
//! contracts use: the files map, the directories set, and `resolve_rel`.

use vstd::prelude::*;
use crate::errors::CacheError;
use crate::path::resolve_rel;
use crate::store::CacheStore;

verus! {

/// Writing a file and then reading the same relative path yields exactly the
/// contents written.
pub proof fn lemma_write_read_roundtrip(pre: CacheStore, post: CacheStore, rel: Seq<char>, c: Seq<char>)
    requires
        resolve_rel(rel) is Some,
        post.files() == pre.files().insert(resolve_rel(rel).unwrap(), c),
    ensures
        post.spec_read(rel) == Ok::<Seq<char>, CacheError>(c),
{
}

/// Writing a file twice and then reading it yields exactly the second
/// contents: a write replaces, it does not append.
pub proof fn lemma_overwrite_reads_last(
    pre: CacheStore,
    mid: CacheStore,
    post: CacheStore,
    rel: Seq<char>,
    c1: Seq<char>,
    c2: Seq<char>,
)
    requires
        resolve_rel(rel) is Some,
        mid.files() == pre.files().insert(resolve_rel(rel).unwrap(), c1),
        post.files() == mid.files().insert(resolve_rel(rel).unwrap(), c2),
    ensures
        post.spec_read(rel) == Ok::<Seq<char>, CacheError>(c2),
{
}

/// After a file is deleted, reading its path reports `NotFoundError`: the
/// deletion cannot leave a directory or another file behind at that path.
pub proof fn lemma_delete_read_not_found(pre: CacheStore, post: CacheStore, rel: Seq<char>)
    requires
        pre.wf(),
        resolve_rel(rel) is Some,
        pre.files().contains_key(resolve_rel(rel).unwrap()),
        post.files() == pre.files().remove(resolve_rel(rel).unwrap()),
        post.dirs() == pre.dirs(),
    ensures
        post.spec_read(rel) == Err::<Seq<char>, CacheError>(CacheError::NotFoundError),
{
    let p = resolve_rel(rel).unwrap();
    pre.lemma_wf_abstract();
    assert(!post.files().contains_key(p));
    if post.dir_exists(p) {
        assert(p.len() > 0);
        if exists|d: Seq<Seq<char>>| #[trigger] post.dirs().contains(d) && p.is_prefix_of(d) {
            let d = choose|d: Seq<Seq<char>>| #[trigger] post.dirs().contains(d)
                && p.is_prefix_of(d);
            assert(pre.dirs().contains(d));
            assert(false);
        } else {
            let f = choose|f: Seq<Seq<char>>| #[trigger] post.files().contains_key(f)
                && p.len() < f.len() && p.is_prefix_of(f);
            assert(pre.files().contains_key(f));
            assert(f != p);
            assert(false);
        }
    }
}

/// A directory that does not exist has no children: listing it yields the
/// empty listing, not an error.
pub proof fn lemma_list_missing_dir_empty(s: CacheStore, rel: Seq<char>)
    requires
        resolve_rel(rel) is Some,
        !s.files().contains_key(resolve_rel(rel).unwrap()),
        !s.dir_exists(resolve_rel(rel).unwrap()),
    ensures
        forall|n: Seq<char>| !s.is_child_name(resolve_rel(rel).unwrap(), n),
{
    let p = resolve_rel(rel).unwrap();
    assert forall|n: Seq<char>| !s.is_child_name(p, n) by {
        if s.is_child_name(p, n) {
            if exists|d: Seq<Seq<char>>| #[trigger] s.dirs().contains(d)
                && p.len() < d.len() && p.is_prefix_of(d) && d[p.len() as int] == n {
                let d = choose|d: Seq<Seq<char>>| #[trigger] s.dirs().contains(d)
                    && p.len() < d.len() && p.is_prefix_of(d) && d[p.len() as int] == n;
                assert(s.dir_exists(p));
            } else {
                let f = choose|f: Seq<Seq<char>>| #[trigger] s.files().contains_key(f)
                    && p.len() < f.len() && p.is_prefix_of(f) && f[p.len() as int] == n;
                assert(s.dir_exists(p));
            }
            assert(false);
        }
    }
}

} // verus!
