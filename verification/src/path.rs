//! Resolution of caller-supplied relative paths against the cache root.
//!
//! A relative path is split on `'/'`, then normalized lexically: empty
//! segments and `"."` are dropped, and `".."` removes the segment before it.
//! A path whose `".."` segments would climb above the root, or one that is
//! absolute, is rejected as a traversal attempt before anything else happens.

use vstd::prelude::*;
use crate::errors::CacheError;

verus! {

/// The segments of `s` split at every `'/'`; an empty input yields one empty
/// segment, like the splitting the standard library performs.
pub open spec fn split_segments(s: Seq<char>) -> Seq<Seq<char>>
    decreases s.len(),
{
    if s.len() == 0 {
        seq![Seq::<char>::empty()]
    } else if s.last() == '/' {
        split_segments(s.drop_last()).push(Seq::<char>::empty())
    } else {
        let rest = split_segments(s.drop_last());
        rest.update(rest.len() - 1, rest.last().push(s.last()))
    }
}

/// Lexical normalization of a segment sequence: empty segments and `"."` are
/// dropped, `".."` pops the previous kept segment, and `None` means a `".."`
/// tried to climb above the root.
pub open spec fn normalize(segs: Seq<Seq<char>>) -> Option<Seq<Seq<char>>>
    decreases segs.len(),
{
    if segs.len() == 0 {
        Some(Seq::<Seq<char>>::empty())
    } else {
        match normalize(segs.drop_last()) {
            None => None,
            Some(stack) => {
                let seg = segs.last();
                if seg.len() == 0 || seg == "."@ {
                    Some(stack)
                } else if seg == ".."@ {
                    if stack.len() == 0 {
                        None
                    } else {
                        Some(stack.drop_last())
                    }
                } else {
                    Some(stack.push(seg))
                }
            },
        }
    }
}

/// What a relative path means inside the sandbox: `None` when it is absolute
/// or escapes the root, otherwise the normalized segments beneath the root.
pub open spec fn resolve_rel(rel: Seq<char>) -> Option<Seq<Seq<char>>> {
    if rel.len() > 0 && rel[0] == '/' {
        None
    } else {
        normalize(split_segments(rel))
    }
}

/// The absolute path of the file or directory named by `segs` under `root`.
pub open spec fn joined_abs(root: Seq<char>, segs: Seq<Seq<char>>) -> Seq<char>
    decreases segs.len(),
{
    if segs.len() == 0 {
        root
    } else {
        joined_abs(root, segs.drop_last()) + "/"@ + segs.last()
    }
}

/// The views of a vector of owned segments.
pub open spec fn seg_views(v: Seq<String>) -> Seq<Seq<char>> {
    v.map_values(|s: String| s@)
}

/// `p` lies at or below `root`: it extends `root`, and anything it adds
/// starts with a separator.
pub open spec fn descends_from(p: Seq<char>, root: Seq<char>) -> bool {
    &&& p.len() >= root.len()
    &&& p.subrange(0, root.len() as int) == root
    &&& p.len() > root.len() ==> p[root.len() as int] == '/'
}

/// Character-wise string equality, proved against the string views.
pub fn str_eq(a: &str, b: &str) -> (r: bool)
    ensures
        r == (a@ == b@),
{
    let an = a.unicode_len();
    let bn = b.unicode_len();
    if an != bn {
        return false;
    }
    let mut i: usize = 0;
    while i < an
        invariant
            an == a@.len(),
            an == b@.len(),
            i <= an,
            forall|j: int| 0 <= j < i ==> a@[j] == b@[j],
        decreases an - i,
    {
        if a.get_char(i) != b.get_char(i) {
            return false;
        }
        i = i + 1;
    }
    proof {
        assert(a@ =~= b@);
    }
    true
}

/// Splits a relative path into its raw segments.
pub fn split_path(s: &str) -> (segs: Vec<String>)
    ensures
        seg_views(segs@) == split_segments(s@),
{
    let n = s.unicode_len();
    let mut done: Vec<String> = Vec::new();
    let mut start: usize = 0;
    let mut i: usize = 0;
    proof {
        assert(s@.take(0) =~= Seq::<char>::empty());
        assert(split_segments(s@.take(0)) =~~= seg_views(done@).push(s@.subrange(0, 0)));
    }
    while i < n
        invariant
            n == s@.len(),
            start <= i <= n,
            split_segments(s@.take(i as int)) == seg_views(done@).push(s@.subrange(start as int, i as int)),
        decreases n - i,
    {
        let c = s.get_char(i);
        proof {
            assert(s@.take(i + 1).drop_last() =~= s@.take(i as int));
            assert(s@.take(i + 1).last() == s@[i as int]);
        }
        if c == '/' {
            let seg = s.substring_char(start, i);
            done.push(seg.to_owned());
            start = i + 1;
            proof {
                assert(split_segments(s@.take(i + 1)) =~~=
                    seg_views(done@).push(s@.subrange(start as int, i + 1)));
            }
        } else {
            proof {
                let rest = split_segments(s@.take(i as int));
                assert(rest.last() == s@.subrange(start as int, i as int));
                assert(s@.subrange(start as int, i as int).push(s@[i as int]) =~=
                    s@.subrange(start as int, i + 1));
                assert(split_segments(s@.take(i + 1)) =~=
                    seg_views(done@).push(s@.subrange(start as int, i + 1)));
            }
        }
        i = i + 1;
    }
    let last = s.substring_char(start, n);
    done.push(last.to_owned());
    proof {
        assert(s@.take(n as int) =~= s@);
        assert(seg_views(done@) =~= split_segments(s@));
    }
    done
}

/// Once a prefix of the segments fails to normalize, the whole sequence does.
proof fn lemma_normalize_none(segs: Seq<Seq<char>>, i: int)
    requires
        0 <= i <= segs.len(),
        normalize(segs.take(i)) is None,
    ensures
        normalize(segs) is None,
    decreases segs.len() - i,
{
    if i < segs.len() {
        assert(segs.take(i + 1).drop_last() =~= segs.take(i));
        lemma_normalize_none(segs, i + 1);
    } else {
        assert(segs.take(i) =~= segs);
    }
}

/// Normalizes raw segments, rejecting a climb above the root.
pub fn normalize_segments(raw: &Vec<String>) -> (r: Result<Vec<String>, CacheError>)
    ensures
        match r {
            Ok(segs) => normalize(seg_views(raw@)) == Some(seg_views(segs@)),
            Err(e) => normalize(seg_views(raw@)) is None && e == CacheError::PathTraversalError,
        },
{
    let n = raw.len();
    let mut stack: Vec<String> = Vec::new();
    let mut i: usize = 0;
    while i < n
        invariant
            n == raw@.len(),
            i <= n,
            normalize(seg_views(raw@).take(i as int)) == Some(seg_views(stack@)),
        decreases n - i,
    {
        proof {
            assert(seg_views(raw@).take(i + 1).drop_last() =~= seg_views(raw@).take(i as int));
            assert(seg_views(raw@).take(i + 1).last() == raw@[i as int]@);
        }
        let seg = &raw[i];
        if seg.as_str().unicode_len() == 0 || str_eq(seg.as_str(), ".") {
            // dropped
        } else if str_eq(seg.as_str(), "..") {
            if stack.len() == 0 {
                proof {
                    lemma_normalize_none(seg_views(raw@), i + 1);
                }
                return Err(CacheError::PathTraversalError);
            }
            stack.pop();
            proof {
                assert(seg_views(stack@) =~=
                    normalize(seg_views(raw@).take(i + 1)).unwrap());
            }
        } else {
            stack.push(seg.clone());
            proof {
                assert(seg_views(stack@) =~=
                    normalize(seg_views(raw@).take(i + 1)).unwrap());
            }
        }
        i = i + 1;
    }
    proof {
        assert(seg_views(raw@).take(n as int) =~= seg_views(raw@));
    }
    Ok(stack)
}

/// Resolves a relative path to the normalized segments it names beneath the
/// root, rejecting absolute paths and any climb above the root.
pub fn resolve_segments(relative: &str) -> (r: Result<Vec<String>, CacheError>)
    ensures
        match r {
            Ok(segs) => resolve_rel(relative@) == Some(seg_views(segs@)),
            Err(e) => resolve_rel(relative@) is None && e == CacheError::PathTraversalError,
        },
{
    if relative.unicode_len() > 0 && relative.get_char(0) == '/' {
        return Err(CacheError::PathTraversalError);
    }
    let raw = split_path(relative);
    normalize_segments(&raw)
}

/// Resolves `relative` against `root`, returning the absolute path inside the
/// sandbox or rejecting the request as a traversal attempt.
pub fn resolve_path(root: &str, relative: &str) -> (r: Result<String, CacheError>)
    ensures
        match r {
            Ok(p) => resolve_rel(relative@) is Some
                && p@ == joined_abs(root@, resolve_rel(relative@).unwrap()),
            Err(e) => resolve_rel(relative@) is None && e == CacheError::PathTraversalError,
        },
{
    let segs = match resolve_segments(relative) {
        Ok(segs) => segs,
        Err(e) => {
            return Err(e);
        },
    };
    let mut out: String = root.to_owned();
    let n = segs.len();
    let mut i: usize = 0;
    while i < n
        invariant
            n == segs@.len(),
            i <= n,
            out@ == joined_abs(root@, seg_views(segs@).take(i as int)),
        decreases n - i,
    {
        proof {
            assert(seg_views(segs@).take(i + 1).drop_last() =~= seg_views(segs@).take(i as int));
            assert(seg_views(segs@).take(i + 1).last() == segs@[i as int]@);
        }
        out.append("/");
        out.append(segs[i].as_str());
        i = i + 1;
    }
    proof {
        assert(seg_views(segs@).take(n as int) =~= seg_views(segs@));
    }
    Ok(out)
}

/// Appending further segments keeps the root as a prefix, separated by `'/'`.
proof fn lemma_joined_abs_descends(root: Seq<char>, segs: Seq<Seq<char>>)
    ensures
        descends_from(joined_abs(root, segs), root),
    decreases segs.len(),
{
    reveal_strlit("/");
    if segs.len() == 0 {
        assert(joined_abs(root, segs).subrange(0, root.len() as int) =~= root);
    } else {
        lemma_joined_abs_descends(root, segs.drop_last());
        let prev = joined_abs(root, segs.drop_last());
        let whole = joined_abs(root, segs);
        assert(whole.subrange(0, root.len() as int) =~= root);
        if whole.len() > root.len() {
            if prev.len() > root.len() {
                assert(whole[root.len() as int] == prev[root.len() as int]);
            } else {
                assert(whole[root.len() as int] == '/');
            }
        }
    }
}

proof fn lemma_normalize_without_parent_segments(segs: Seq<Seq<char>>)
    requires
        forall|i: int| 0 <= i < segs.len() ==> #[trigger] segs[i] != ".."@,
    ensures
        normalize(segs) is Some,
    decreases segs.len(),
{
    if segs.len() > 0 {
        assert(forall|i: int| 0 <= i < segs.drop_last().len()
            ==> #[trigger] segs.drop_last()[i] != ".."@);
        lemma_normalize_without_parent_segments(segs.drop_last());
    }
}

/// A relative path that is not absolute and has no parent-directory segment
/// cannot escape the root: it always resolves.
pub proof fn lemma_no_parent_segments_resolve(rel: Seq<char>)
    requires
        rel.len() == 0 || rel[0] != '/',
        forall|i: int| 0 <= i < split_segments(rel).len()
            ==> #[trigger] split_segments(rel)[i] != ".."@,
    ensures
        resolve_rel(rel) is Some,
{
    lemma_normalize_without_parent_segments(split_segments(rel));
}

/// Every successfully resolved path is a descendant of the root.
pub proof fn lemma_resolved_descends(root: Seq<char>, rel: Seq<char>)
    requires
        resolve_rel(rel) is Some,
    ensures
        descends_from(joined_abs(root, resolve_rel(rel).unwrap()), root),
{
    lemma_joined_abs_descends(root, resolve_rel(rel).unwrap());
}

} // verus!
