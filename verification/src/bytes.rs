//! Byte-level helpers shared by the blob codec and the path logic.
//!
//! All data in this crate is modelled as sequences of bytes: file contents,
//! file paths, and the combined blob are `Vec<u8>` values whose mathematical
//! model is a `Seq<u8>`.

use vstd::prelude::*;

verus! {

/// Newline byte, the line terminator of the blob format.
pub const NL: u8 = 10;

/// Forward slash, both the path separator and the marker character.
pub const SLASH: u8 = 47;

/// Dot, the extension separator inside a file name.
pub const DOT: u8 = 46;

/// Index of the last occurrence of `b` in `s`, or `-1` if `b` does not occur.
pub open spec fn last_pos(s: Seq<u8>, b: u8) -> int
    decreases s.len(),
{
    if s.len() == 0 {
        -1
    } else if s.last() == b {
        s.len() - 1
    } else {
        last_pos(s.drop_last(), b)
    }
}

/// `last_pos` is pinned down by the usual characterisation: `j` is the last
/// occurrence of `b` when `s[j] == b` and nothing after `j` is `b`, and the
/// result is `-1` when `b` occurs nowhere.
pub proof fn lemma_last_pos_is(s: Seq<u8>, b: u8, j: int)
    requires
        -1 <= j < s.len(),
        j >= 0 ==> s[j] == b,
        forall|k: int| j < k < s.len() ==> s[k] != b,
    ensures
        last_pos(s, b) == j,
    decreases s.len(),
{
    if s.len() == 0 {
    } else if s.last() == b {
        assert(j == s.len() - 1);
    } else {
        assert(j < s.len() - 1);
        lemma_last_pos_is(s.drop_last(), b, j);
    }
}

/// `last_pos` always lies in `[-1, s.len())`, and points at `b` when it is
/// non-negative.
pub proof fn lemma_last_pos_range(s: Seq<u8>, b: u8)
    ensures
        -1 <= last_pos(s, b) < s.len(),
        last_pos(s, b) >= 0 ==> s[last_pos(s, b)] == b,
        forall|k: int| last_pos(s, b) < k < s.len() ==> s[k] != b,
    decreases s.len(),
{
    if s.len() == 0 {
    } else if s.last() == b {
    } else {
        lemma_last_pos_range(s.drop_last(), b);
        assert forall|k: int| last_pos(s, b) < k < s.len() implies s[k] != b by {
            if k < s.len() - 1 {
                assert(s.drop_last()[k] == s[k]);
            }
        }
    }
}

/// Copies `v[lo..hi]` into a fresh vector.
pub fn copy_range(v: &[u8], lo: usize, hi: usize) -> (r: Vec<u8>)
    requires
        lo <= hi <= v@.len(),
    ensures
        r@ == v@.subrange(lo as int, hi as int),
{
    let mut r: Vec<u8> = Vec::new();
    let mut i: usize = lo;
    while i < hi
        invariant
            lo <= i <= hi <= v@.len(),
            r@ == v@.subrange(lo as int, i as int),
        decreases hi - i,
    {
        r.push(v[i]);
        i = i + 1;
        assert(r@ =~= v@.subrange(lo as int, i as int));
    }
    r
}

/// Appends all of `src` to `out`.
pub fn push_all(out: &mut Vec<u8>, src: &[u8])
    ensures
        final(out)@ == old(out)@ + src@,
{
    let ghost orig: Seq<u8> = out@;
    let mut i: usize = 0;
    while i < src.len()
        invariant
            i <= src@.len(),
            out@ == orig + src@.subrange(0, i as int),
        decreases src@.len() - i,
    {
        out.push(src[i]);
        i = i + 1;
        assert(out@ =~= orig + src@.subrange(0, i as int));
    }
    assert(out@ =~= orig + src@);
}

/// Byte-for-byte equality of two byte strings.
pub fn bytes_eq(a: &[u8], b: &[u8]) -> (r: bool)
    ensures
        r == (a@ == b@),
{
    if a.len() != b.len() {
        assert(a@ != b@);
        return false;
    }
    let mut i: usize = 0;
    while i < a.len()
        invariant
            i <= a@.len(),
            a@.len() == b@.len(),
            forall|k: int| 0 <= k < i ==> a@[k] == b@[k],
        decreases a@.len() - i,
    {
        if a[i] != b[i] {
            return false;
        }
        i = i + 1;
    }
    assert(a@ =~= b@);
    true
}

/// Position of the last occurrence of `b` in `v`, if any.
pub fn find_last(v: &[u8], b: u8) -> (r: Option<usize>)
    ensures
        match r {
            Some(j) => last_pos(v@, b) == j,
            None => last_pos(v@, b) == -1,
        },
{
    let mut i: usize = v.len();
    while i > 0
        invariant
            i <= v@.len(),
            forall|k: int| i <= k < v@.len() ==> v@[k] != b,
        decreases i,
    {
        i = i - 1;
        if v[i] == b {
            proof {
                lemma_last_pos_is(v@, b, i as int);
            }
            return Some(i);
        }
    }
    proof {
        lemma_last_pos_is(v@, b, -1);
    }
    None
}

} // verus!
