//! Path logic: extension filtering for the walk, relative-path computation
//! for aggregation, and the safety check that keeps distribution from
//! writing outside its root.

use vstd::prelude::*;
use crate::bytes::{
    bytes_eq, copy_range, find_last, last_pos, lemma_last_pos_is, lemma_last_pos_range, DOT, SLASH,
};

verus! {

/// Model of a list of byte strings.
pub open spec fn seqs_view(v: Seq<Vec<u8>>) -> Seq<Seq<u8>> {
    v.map_values(|x: Vec<u8>| x@)
}

/// Extension of a file name: the bytes after the last dot, if a dot occurs
/// at all.
pub open spec fn ext_of(name: Seq<u8>) -> Option<Seq<u8>> {
    let d = last_pos(name, DOT);
    if d == -1 {
        None
    } else {
        Some(name.subrange(d + 1, name.len() as int))
    }
}

/// Whether a file name passes the extension filter.  An empty filter admits
/// every file; a non-empty filter admits exactly the files whose extension
/// is listed, and a file without an extension is excluded.
pub open spec fn passes_filter(name: Seq<u8>, filter: Seq<Seq<u8>>) -> bool {
    filter.len() == 0 || match ext_of(name) {
        Some(e) => filter.contains(e),
        None => false,
    }
}

/// Decides whether the file called `name` is included under `filter`.
pub fn matches_filter(name: &[u8], filter: &Vec<Vec<u8>>) -> (r: bool)
    ensures
        r == passes_filter(name@, seqs_view(filter@)),
{
    if filter.len() == 0 {
        return true;
    }
    let n = name.len();
    let d = match find_last(name, DOT) {
        Some(d) => d,
        None => {
            return false;
        },
    };
    proof {
        lemma_last_pos_range(name@, DOT);
    }
    let ext = copy_range(name, d + 1, n);
    let mut i: usize = 0;
    while i < filter.len()
        invariant
            i <= filter@.len(),
            filter@.len() > 0,
            ext@ == name@.subrange(d + 1, name@.len() as int),
            d == last_pos(name@, DOT),
            forall|k: int| 0 <= k < i ==> seqs_view(filter@)[k] != ext@,
        decreases filter@.len() - i,
    {
        if bytes_eq(ext.as_slice(), filter[i].as_slice()) {
            proof {
                assert(seqs_view(filter@)[i as int] == ext@);
            }
            return true;
        }
        proof {
            assert(seqs_view(filter@)[i as int] == filter@[i as int]@);
        }
        i = i + 1;
    }
    proof {
        assert(forall|k: int|
            0 <= k < seqs_view(filter@).len() ==> #[trigger] seqs_view(filter@)[k] != ext@);
    }
    false
}

/// With a filter holding one extension, and that extension holding no dot,
/// exactly the files whose name ends in a dot followed by the extension
/// pass; in particular a file whose name holds no dot at all is excluded.
pub proof fn lemma_single_extension_filter(name: Seq<u8>, ext: Seq<u8>)
    requires
        ext.len() > 0,
        forall|i: int| 0 <= i < ext.len() ==> ext[i] != DOT,
    ensures
        passes_filter(name, seq![ext]) <==> (name.len() > ext.len() && name.subrange(
            name.len() - ext.len() - 1,
            name.len() as int,
        ) == seq![DOT] + ext),
{
    let el = ext.len() as int;
    let n = name.len() as int;
    lemma_last_pos_range(name, DOT);
    let d = last_pos(name, DOT);
    if passes_filter(name, seq![ext]) {
        match ext_of(name) {
            Some(e) => {
                assert(seq![ext].contains(e));
                let i = choose|i: int| 0 <= i < 1 && seq![ext][i] == e;
                assert(e == ext);
                assert(name.subrange(d + 1, n) == ext);
                assert(n - d - 1 == el);
                assert(name[d] == DOT);
                assert forall|k: int| 0 <= k < el + 1 implies name.subrange(n - el - 1, n)[k] == (
                seq![DOT] + ext)[k] by {
                    if k > 0 {
                        assert(name.subrange(d + 1, n)[k - 1] == ext[k - 1]);
                    }
                }
                assert(name.subrange(n - el - 1, n) =~= seq![DOT] + ext);
            },
            None => {
                assert(false);
            },
        }
    }
    if n > el && name.subrange(n - el - 1, n) == seq![DOT] + ext {
        let d0 = n - el - 1;
        assert(name[d0] == DOT) by {
            assert(name.subrange(d0, n)[0] == (seq![DOT] + ext)[0]);
        }
        assert forall|k: int| d0 < k < n implies name[k] != DOT by {
            assert(name.subrange(d0, n)[k - d0] == (seq![DOT] + ext)[k - d0]);
            assert((seq![DOT] + ext)[k - d0] == ext[k - d0 - 1]);
        }
        lemma_last_pos_is(name, DOT, d0);
        assert(name.subrange(d0 + 1, n) =~= ext) by {
            assert forall|k: int| 0 <= k < el implies name.subrange(d0 + 1, n)[k] == ext[k] by {
                assert(name.subrange(d0, n)[k + 1] == (seq![DOT] + ext)[k + 1]);
            }
        }
        assert(seq![ext][0] == ext);
        assert(seq![ext].contains(ext));
    }
}

/// The file-name component of a path: the bytes after the last separator,
/// or the whole path when it holds no separator.
pub open spec fn base_name(p: Seq<u8>) -> Seq<u8> {
    p.subrange(last_pos(p, SLASH) + 1, p.len() as int)
}

/// Extracts the file-name component of a path.
pub fn file_name(path: &[u8]) -> (r: Vec<u8>)
    ensures
        r@ == base_name(path@),
{
    let n = path.len();
    proof {
        lemma_last_pos_range(path@, SLASH);
    }
    match find_last(path, SLASH) {
        Some(j) => copy_range(path, j + 1, n),
        None => copy_range(path, 0, n),
    }
}

/// Relative form of `path` with respect to `root`: defined only when `path`
/// is a strict descendant of `root`, and then the remainder after the root
/// prefix and the separator between them.
pub open spec fn strip_root(root: Seq<u8>, path: Seq<u8>) -> Option<Seq<u8>> {
    if path.len() > root.len() && path.subrange(0, root.len() as int) == root {
        if path[root.len() as int] == SLASH {
            Some(path.subrange(root.len() + 1int, path.len() as int))
        } else if root.len() > 0 && root.last() == SLASH {
            Some(path.subrange(root.len() as int, path.len() as int))
        } else {
            None
        }
    } else {
        None
    }
}

/// Computes the path of a file relative to the root, or reports that the
/// file is not a descendant of the root and must be skipped.
pub fn relative_to_root(root: &[u8], path: &[u8]) -> (r: Option<Vec<u8>>)
    ensures
        match r {
            Some(rel) => strip_root(root@, path@) == Some(rel@),
            None => strip_root(root@, path@) == None::<Seq<u8>>,
        },
{
    if path.len() <= root.len() {
        return None;
    }
    let mut i: usize = 0;
    while i < root.len()
        invariant
            i <= root@.len() < path@.len(),
            forall|k: int| 0 <= k < i ==> path@[k] == root@[k],
        decreases root@.len() - i,
    {
        if path[i] != root[i] {
            proof {
                assert(path@.subrange(0, root@.len() as int)[i as int] != root@[i as int]);
            }
            return None;
        }
        i = i + 1;
    }
    proof {
        assert(path@.subrange(0, root@.len() as int) =~= root@);
    }
    if path[root.len()] == SLASH {
        Some(copy_range(path, root.len() + 1, path.len()))
    } else if root.len() > 0 && root[root.len() - 1] == SLASH {
        Some(copy_range(path, root.len(), path.len()))
    } else {
        None
    }
}

/// A `..` component stands at position `i` of the path.
pub open spec fn dotdot_at(p: Seq<u8>, i: int) -> bool {
    0 <= i && i + 2 <= p.len() && p[i] == DOT && p[i + 1] == DOT && (i == 0 || p[i - 1] == SLASH)
        && (i + 2 == p.len() || p[i + 2] == SLASH)
}

/// A relative path that is safe to join under a root: non-empty, not
/// absolute, and free of `..` components, so the joined path stays under
/// the root.
pub open spec fn safe_rel_path(p: Seq<u8>) -> bool {
    p.len() > 0 && p[0] != SLASH && forall|i: int| !dotdot_at(p, i)
}

/// Decides whether a parsed relative path is safe to write under the root.
pub fn is_safe_relative_path(p: &[u8]) -> (r: bool)
    ensures
        r == safe_rel_path(p@),
{
    if p.len() == 0 {
        return false;
    }
    if p[0] == SLASH {
        return false;
    }
    let mut i: usize = 0;
    while i < p.len()
        invariant
            i <= p@.len(),
            forall|k: int| 0 <= k < i ==> !dotdot_at(p@, k),
        decreases p@.len() - i,
    {
        if i + 1 < p.len() && p[i] == DOT && p[i + 1] == DOT && (i == 0 || p[i - 1] == SLASH) && (i
            + 2 == p.len() || p[i + 2] == SLASH) {
            assert(dotdot_at(p@, i as int));
            return false;
        }
        i = i + 1;
    }
    assert(forall|k: int| !dotdot_at(p@, k));
    true
}

} // verus!
