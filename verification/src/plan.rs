//! Distribution planning: which parsed records get written, and what the
//! writes do to the tree under the root.

use vstd::prelude::*;
use crate::blob::{encode_records, parse_records};
use crate::bytes::copy_range;
use crate::paths::{is_safe_relative_path, safe_rel_path};
use crate::records::{records_wf, recs_view, FileRecord, RecordModel};

verus! {

/// The records of `rs` whose relative path is safe, in order.
pub open spec fn safe_filter(rs: Seq<RecordModel>) -> Seq<RecordModel>
    decreases rs.len(),
{
    if rs.len() == 0 {
        Seq::empty()
    } else {
        safe_filter(rs.drop_last()) + if safe_rel_path(rs.last().path) {
            seq![rs.last()]
        } else {
            Seq::empty()
        }
    }
}

/// Keeps exactly the records whose relative path is safe to write under
/// the root; records that would escape the root are dropped.
pub fn safe_records(records: &Vec<FileRecord>) -> (r: Vec<FileRecord>)
    ensures
        recs_view(r@) == safe_filter(recs_view(records@)),
        forall|k: int| 0 <= k < r@.len() ==> safe_rel_path(#[trigger] r@[k]@.path),
{
    let mut out: Vec<FileRecord> = Vec::new();
    let mut i: usize = 0;
    while i < records.len()
        invariant
            i <= records@.len(),
            recs_view(out@) == safe_filter(recs_view(records@.subrange(0, i as int))),
            forall|k: int| 0 <= k < out@.len() ==> safe_rel_path(#[trigger] out@[k]@.path),
        decreases records@.len() - i,
    {
        let ghost out0 = out@;
        let ghost pre = recs_view(records@.subrange(0, i as int));
        let rec = &records[i];
        let keep = is_safe_relative_path(rec.path.as_slice());
        if keep {
            let path = copy_range(rec.path.as_slice(), 0, rec.path.len());
            let content = copy_range(rec.content.as_slice(), 0, rec.content.len());
            out.push(FileRecord { path, content });
            proof {
                assert(path@ =~= rec.path@);
                assert(content@ =~= rec.content@);
                assert(recs_view(out@) =~~= recs_view(out0).push(records@[i as int]@));
                assert(recs_view(out0).push(records@[i as int]@) =~= recs_view(out0) + seq![
                    records@[i as int]@,
                ]);
            }
        }
        proof {
            let post = recs_view(records@.subrange(0, i + 1));
            assert(post.drop_last() =~= pre);
            assert(post.last() == records@[i as int]@);
            assert(safe_filter(post) == safe_filter(pre) + if safe_rel_path(
                records@[i as int]@.path,
            ) {
                seq![records@[i as int]@]
            } else {
                Seq::<RecordModel>::empty()
            });
            if !keep {
                assert(recs_view(out@) + Seq::<RecordModel>::empty() =~= recs_view(out@));
            }
        }
        i = i + 1;
    }
    proof {
        assert(records@.subrange(0, records@.len() as int) =~= records@);
    }
    out
}

/// The distribution plan for a blob: the records it holds whose relative
/// path is safe to write under the root, in order.  A malformed blob, or
/// one whose records would all escape the root, yields an empty plan and
/// there is nothing to distribute.
pub fn plan_writes(blob: &Vec<u8>) -> (r: Vec<FileRecord>)
    ensures
        recs_view(r@) == safe_filter(parse_records(blob@)),
        forall|k: int| 0 <= k < r@.len() ==> safe_rel_path(#[trigger] r@[k]@.path),
{
    let parsed = crate::blob::parse_blob(blob);
    safe_records(&parsed)
}

/// A sequence of safe records passes the safety filter unchanged.
pub proof fn lemma_safe_filter_all(rs: Seq<RecordModel>)
    requires
        forall|k: int| 0 <= k < rs.len() ==> safe_rel_path(#[trigger] rs[k].path),
    ensures
        safe_filter(rs) == rs,
    decreases rs.len(),
{
    if rs.len() > 0 {
        assert(forall|k: int|
            0 <= k < rs.drop_last().len() ==> #[trigger] rs.drop_last()[k] == rs[k]);
        lemma_safe_filter_all(rs.drop_last());
        assert(safe_rel_path(rs.last().path));
        assert(rs.drop_last() + seq![rs.last()] =~= rs);
    }
}

/// Full round trip of the tool: the blob built from well-formed records
/// with safe relative paths is parsed back, and every parsed record passes
/// the safety filter, so distribution writes exactly the aggregated
/// records, in order, with byte-identical contents.
pub proof fn lemma_aggregate_then_distribute(rs: Seq<RecordModel>)
    requires
        records_wf(rs),
        forall|k: int| 0 <= k < rs.len() ==> safe_rel_path(#[trigger] rs[k].path),
    ensures
        safe_filter(parse_records(encode_records(rs))) == rs,
{
    crate::blob::lemma_round_trip(rs);
    lemma_safe_filter_all(rs);
}

/// Effect of writing records in order under a root, modelled as a map from
/// relative path to content: each write creates or overwrites its file.
pub open spec fn apply_writes(m: Map<Seq<u8>, Seq<u8>>, rs: Seq<RecordModel>) -> Map<
    Seq<u8>,
    Seq<u8>,
>
    decreases rs.len(),
{
    if rs.len() == 0 {
        m
    } else {
        apply_writes(m.insert(rs[0].path, rs[0].content), rs.subrange(1, rs.len() as int))
    }
}

/// Content of the last record of `rs` whose path is `k`, if any.
pub open spec fn last_write(rs: Seq<RecordModel>, k: Seq<u8>) -> Option<Seq<u8>>
    decreases rs.len(),
{
    if rs.len() == 0 {
        None
    } else {
        match last_write(rs.subrange(1, rs.len() as int), k) {
            Some(c) => Some(c),
            None => if rs[0].path == k {
                Some(rs[0].content)
            } else {
                None
            },
        }
    }
}

/// What a sequence of writes leaves at each path: the content of the last
/// record written there, or what was there before if none was.
pub proof fn lemma_apply_writes_at(m: Map<Seq<u8>, Seq<u8>>, rs: Seq<RecordModel>, k: Seq<u8>)
    ensures
        match last_write(rs, k) {
            Some(c) => apply_writes(m, rs).contains_key(k) && apply_writes(m, rs)[k] == c,
            None => apply_writes(m, rs).contains_key(k) == m.contains_key(k) && (m.contains_key(k)
                ==> apply_writes(m, rs)[k] == m[k]),
        },
    decreases rs.len(),
{
    if rs.len() > 0 {
        lemma_apply_writes_at(
            m.insert(rs[0].path, rs[0].content),
            rs.subrange(1, rs.len() as int),
            k,
        );
    }
}

/// Distributing the same records twice leaves the same final contents as
/// distributing them once: the second pass overwrites each file with the
/// content it already has.
pub proof fn lemma_apply_writes_idempotent(m: Map<Seq<u8>, Seq<u8>>, rs: Seq<RecordModel>)
    ensures
        apply_writes(apply_writes(m, rs), rs) == apply_writes(m, rs),
{
    let m1 = apply_writes(m, rs);
    let m2 = apply_writes(m1, rs);
    assert forall|k: Seq<u8>| m2.dom().contains(k) == m1.dom().contains(k) by {
        lemma_apply_writes_at(m, rs, k);
        lemma_apply_writes_at(m1, rs, k);
    }
    assert(m2.dom() =~= m1.dom());
    assert forall|k: Seq<u8>| m1.dom().contains(k) implies m2[k] == m1[k] by {
        lemma_apply_writes_at(m, rs, k);
        lemma_apply_writes_at(m1, rs, k);
    }
    assert(m2 =~= m1);
}

} // verus!
