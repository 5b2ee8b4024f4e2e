//! The blob format: the wire contract between aggregation and distribution.
//!
//! A blob is a flat byte string holding a sequence of records.  Each record
//! is written as a header line — the two-character marker `//` followed by
//! the relative path and a newline — then the raw file content, then one
//! closing newline:
//!
//! ```text
//! //<relative-path>\n<content>\n//<relative-path>\n<content>\n...
//! ```
//!
//! Parsing scans for header lines: a line whose first two bytes are the
//! marker starts a new record, and everything up to the next header line is
//! that record's content.  A blob that does not begin with a header line
//! holds no records.

use vstd::prelude::*;
use crate::bytes::{copy_range, push_all, NL, SLASH};
use crate::records::{
    content_wf, record_wf, records_wf, recs_view, FileRecord, RecordModel,
};

verus! {

/// Serialized form of one record:
/// marker, path, newline, content, newline.
pub open spec fn encode_record(r: RecordModel) -> Seq<u8> {
    seq![SLASH, SLASH] + r.path + seq![NL] + r.content + seq![NL]
}

/// Serialized form of a sequence of records: the records' encodings, in
/// order, concatenated.
pub open spec fn encode_records(rs: Seq<RecordModel>) -> Seq<u8>
    decreases rs.len(),
{
    if rs.len() == 0 {
        Seq::empty()
    } else {
        encode_record(rs[0]) + encode_records(rs.subrange(1, rs.len() as int))
    }
}

/// Index of the first newline at or after `from`, or `s.len()` if there is
/// none.
pub open spec fn first_nl(s: Seq<u8>, from: int) -> int
    decreases s.len() - from,
{
    if from >= s.len() {
        s.len() as int
    } else if s[from] == NL {
        from
    } else {
        first_nl(s, from + 1)
    }
}

/// A header line starts at `i`: the two marker bytes stand there, at the
/// start of the blob or right after a newline.
pub open spec fn is_header_start(s: Seq<u8>, i: int) -> bool {
    0 <= i && i + 1 < s.len() && s[i] == SLASH && s[i + 1] == SLASH && (i == 0 || s[i - 1] == NL)
}

/// Index of the first header start at or after `from`, or `s.len()` if
/// there is none.
pub open spec fn first_header(s: Seq<u8>, from: int) -> int
    decreases s.len() - from,
{
    if from >= s.len() {
        s.len() as int
    } else if is_header_start(s, from) {
        from
    } else {
        first_header(s, from + 1)
    }
}

/// `first_nl` stays within `[from, s.len()]` and points at a newline when it
/// is short of the end.
pub proof fn lemma_first_nl_ge(s: Seq<u8>, from: int)
    requires
        0 <= from <= s.len(),
    ensures
        from <= first_nl(s, from) <= s.len(),
        first_nl(s, from) < s.len() ==> s[first_nl(s, from)] == NL,
    decreases s.len() - from,
{
    if from < s.len() && s[from] != NL {
        lemma_first_nl_ge(s, from + 1);
    }
}

/// `first_nl` is pinned down by its characterisation: no newline before `j`,
/// and a newline at `j` unless `j` is the end.
pub proof fn lemma_first_nl_is(s: Seq<u8>, from: int, j: int)
    requires
        0 <= from <= j <= s.len(),
        forall|k: int| from <= k < j ==> s[k] != NL,
        j < s.len() ==> s[j] == NL,
    ensures
        first_nl(s, from) == j,
    decreases j - from,
{
    if from < j {
        lemma_first_nl_is(s, from + 1, j);
    }
}

/// `first_header` stays within `[from, s.len()]` and points at a header
/// start when it is short of the end.
pub proof fn lemma_first_header_ge(s: Seq<u8>, from: int)
    requires
        0 <= from <= s.len(),
    ensures
        from <= first_header(s, from) <= s.len(),
        first_header(s, from) < s.len() ==> is_header_start(s, first_header(s, from)),
    decreases s.len() - from,
{
    if from < s.len() && !is_header_start(s, from) {
        lemma_first_header_ge(s, from + 1);
    }
}

/// `first_header` is pinned down by its characterisation: no header start
/// before `j`, and one at `j` unless `j` is the end.
pub proof fn lemma_first_header_is(s: Seq<u8>, from: int, j: int)
    requires
        0 <= from <= j <= s.len(),
        forall|k: int| from <= k < j ==> !is_header_start(s, k),
        j < s.len() ==> is_header_start(s, j),
    ensures
        first_header(s, from) == j,
    decreases j - from,
{
    if from < j {
        lemma_first_header_is(s, from + 1, j);
    }
}

/// The records held by a blob.
///
/// A blob that does not begin with a header line is malformed and holds no
/// records.  Otherwise each header line starts a record: the rest of the
/// header line is the record's relative path, and the bytes up to the next
/// header start (less the record's closing newline) are its content.
pub open spec fn parse_records(s: Seq<u8>) -> Seq<RecordModel>
    decreases s.len(),
    via parse_records_decreases
{
    if !(s.len() >= 2 && s[0] == SLASH && s[1] == SLASH) {
        Seq::empty()
    } else {
        let eol = first_nl(s, 2);
        if eol >= s.len() {
            seq![RecordModel { path: s.subrange(2, s.len() as int), content: Seq::empty() }]
        } else {
            let bend = first_header(s, eol + 1);
            let span = s.subrange(eol + 1, bend);
            let content = if span.len() > 0 && span.last() == NL {
                span.drop_last()
            } else {
                span
            };
            seq![RecordModel { path: s.subrange(2, eol), content: content }] + parse_records(
                s.subrange(bend, s.len() as int),
            )
        }
    }
}

#[via_fn]
proof fn parse_records_decreases(s: Seq<u8>) {
    if s.len() >= 2 && s[0] == SLASH && s[1] == SLASH {
        lemma_first_nl_ge(s, 2);
        let eol = first_nl(s, 2);
        if eol < s.len() {
            lemma_first_header_ge(s, eol + 1);
        }
    }
}

/// A blob in which no line begins with the marker holds no records: in
/// particular its first two bytes are not the marker.
pub proof fn lemma_no_header_no_records(s: Seq<u8>)
    requires
        forall|i: int| !is_header_start(s, i),
    ensures
        parse_records(s).len() == 0,
{
    if s.len() >= 2 && s[0] == SLASH && s[1] == SLASH {
        assert(is_header_start(s, 0));
    }
}

/// Combines records into one blob, or reports that there is no content.
///
/// This is the serialisation step of aggregation: the caller reads the
/// files and hands the records over; nothing is combined when there are no
/// records, and the caller then has nothing to place on the clipboard.
pub fn combine_records(records: &Vec<FileRecord>) -> (r: Option<Vec<u8>>)
    ensures
        match r {
            Some(blob) => records@.len() > 0 && blob@ == encode_records(recs_view(records@)),
            None => records@.len() == 0,
        },
{
    if records.len() == 0 {
        return None;
    }
    let mut out: Vec<u8> = Vec::new();
    let mut i: usize = 0;
    while i < records.len()
        invariant
            i <= records@.len(),
            out@ == encode_records(recs_view(records@.subrange(0, i as int))),
        decreases records@.len() - i,
    {
        let ghost prev: Seq<u8> = out@;
        let rec = &records[i];
        out.push(SLASH);
        out.push(SLASH);
        push_all(&mut out, rec.path.as_slice());
        out.push(NL);
        push_all(&mut out, rec.content.as_slice());
        out.push(NL);
        proof {
            assert(out@ =~= prev + encode_record(records@[i as int]@));
            lemma_encode_records_push(recs_view(records@.subrange(0, i as int)), records@[i as int]@);
            assert(recs_view(records@.subrange(0, i as int)).push(records@[i as int]@) =~= recs_view(
                records@.subrange(0, i + 1),
            ));
        }
        i = i + 1;
    }
    proof {
        assert(records@.subrange(0, records@.len() as int) =~= records@);
    }
    Some(out)
}

/// Parses a blob back into the records it holds.
///
/// This is the parsing step of distribution: the result lists exactly the
/// records of the blob, in order; a malformed blob — one that does not
/// begin with a header line — yields no records at all.
pub fn parse_blob(blob: &Vec<u8>) -> (r: Vec<FileRecord>)
    ensures
        recs_view(r@) == parse_records(blob@),
{
    let n = blob.len();
    let mut out: Vec<FileRecord> = Vec::new();
    if !(n >= 2 && blob[0] == SLASH && blob[1] == SLASH) {
        assert(recs_view(out@) =~= parse_records(blob@));
        return out;
    }
    let mut i: usize = 0;
    proof {
        assert(blob@.subrange(0, n as int) =~= blob@);
        assert(recs_view(out@) + parse_records(blob@) =~= parse_records(blob@));
    }
    while i < n
        invariant
            n == blob@.len(),
            i <= n,
            i < n ==> i + 1 < n && blob@[i as int] == SLASH && blob@[i as int + 1] == SLASH && (i
                == 0 || blob@[i as int - 1] == NL),
            recs_view(out@) + parse_records(blob@.subrange(i as int, n as int)) == parse_records(
                blob@,
            ),
        decreases n - i,
    {
        let ghost s = blob@.subrange(i as int, n as int);
        let ghost out0 = out@;
        assert(s[0] == SLASH && s[1] == SLASH);

        // Scan past the header line to its terminating newline.
        let mut eol: usize = i + 2;
        while eol < n && blob[eol] != NL
            invariant
                n == blob@.len(),
                i + 2 <= eol <= n,
                forall|k: int| i + 2 <= k < eol ==> blob@[k] != NL,
            decreases n - eol,
        {
            eol = eol + 1;
        }
        proof {
            assert forall|k: int| 2 <= k < eol - i implies s[k] != NL by {
                assert(s[k] == blob@[i + k]);
            }
            if eol < n {
                assert(s[eol - i] == blob@[eol as int]);
            }
            lemma_first_nl_is(s, 2, eol - i);
        }

        if eol >= n {
            // Unterminated header line: the rest of the blob is the path of
            // a record with empty content.
            let path = copy_range(blob.as_slice(), i + 2, n);
            out.push(FileRecord { path, content: Vec::new() });
            proof {
                let rec = RecordModel {
                    path: s.subrange(2, s.len() as int),
                    content: Seq::<u8>::empty(),
                };
                assert(parse_records(s) == seq![rec]);
                assert(rec.path =~= blob@.subrange(i + 2, n as int));
                assert(recs_view(out@) =~~= recs_view(out0).push(rec));
                assert(recs_view(out0).push(rec) =~= recs_view(out0) + seq![rec]);
                assert(blob@.subrange(n as int, n as int) =~= Seq::<u8>::empty());
                assert(parse_records(blob@.subrange(n as int, n as int)) == Seq::<
                    RecordModel,
                >::empty());
                assert(recs_view(out0) + parse_records(s) =~= (recs_view(out0) + seq![rec])
                    + Seq::<RecordModel>::empty());
            }
            i = n;
        } else {
            // Scan for the start of the next header line.
            let mut j: usize = eol + 1;
            while j < n && !(j + 1 < n && blob[j] == SLASH && blob[j + 1] == SLASH && blob[j - 1]
                == NL)
                invariant
                    n == blob@.len(),
                    eol + 1 <= j <= n,
                    i + 2 <= eol < n,
                    forall|k: int| eol + 1 <= k < j ==> !is_header_start(blob@, k),
                decreases n - j,
            {
                j = j + 1;
            }
            proof {
                assert forall|k: int| eol - i + 1 <= k < j - i implies !is_header_start(s, k) by {
                    if is_header_start(s, k) {
                        assert(s[k] == blob@[i + k]);
                        assert(s[k + 1] == blob@[i + k + 1]);
                        assert(s[k - 1] == blob@[i + k - 1]);
                        assert(is_header_start(blob@, i + k));
                    }
                }
                if j < n {
                    assert(is_header_start(blob@, j as int));
                    assert(s[j - i] == blob@[j as int]);
                    assert(s[j - i + 1] == blob@[j as int + 1]);
                    assert(s[j - i - 1] == blob@[j as int - 1]);
                    assert(is_header_start(s, j - i));
                }
                lemma_first_header_is(s, eol - i + 1, j - i);
            }

            let path = copy_range(blob.as_slice(), i + 2, eol);
            let mut content = copy_range(blob.as_slice(), eol + 1, j);
            if content.len() > 0 && content[content.len() - 1] == NL {
                content.pop();
                proof {
                    let span = s.subrange(eol - i + 1, j - i);
                    assert(span =~= blob@.subrange(eol + 1, j as int));
                    assert(content@ =~= span.drop_last());
                }
            }
            out.push(FileRecord { path, content });
            proof {
                let eoll = eol - i;
                let bend = j - i;
                let span = s.subrange(eoll + 1, bend);
                let c = if span.len() > 0 && span.last() == NL {
                    span.drop_last()
                } else {
                    span
                };
                let rec = RecordModel { path: s.subrange(2, eoll), content: c };
                assert(parse_records(s) == seq![rec] + parse_records(
                    s.subrange(bend, s.len() as int),
                ));
                assert(span =~= blob@.subrange(eol + 1, j as int));
                assert(rec.path =~= blob@.subrange(i + 2, eol as int));
                assert(recs_view(out@) =~~= recs_view(out0).push(rec));
                assert(recs_view(out0).push(rec) =~= recs_view(out0) + seq![rec]);
                assert(s.subrange(bend, s.len() as int) =~= blob@.subrange(j as int, n as int));
                assert(recs_view(out0) + (seq![rec] + parse_records(
                    blob@.subrange(j as int, n as int),
                )) =~= (recs_view(out0) + seq![rec]) + parse_records(
                    blob@.subrange(j as int, n as int),
                ));
            }
            i = j;
        }
    }
    proof {
        assert(blob@.subrange(n as int, n as int) =~= Seq::<u8>::empty());
        assert(parse_records(Seq::<u8>::empty()) == Seq::<RecordModel>::empty());
        assert(recs_view(out@) + Seq::<RecordModel>::empty() =~= recs_view(out@));
    }
    out
}

/// Encoding a sequence extended by one record appends that record's
/// encoding.
pub proof fn lemma_encode_records_push(rs: Seq<RecordModel>, r: RecordModel)
    ensures
        encode_records(rs.push(r)) == encode_records(rs) + encode_record(r),
    decreases rs.len(),
{
    if rs.len() == 0 {
        assert(rs.push(r)[0] == r);
        assert(rs.push(r).subrange(1, rs.push(r).len() as int) =~= Seq::<RecordModel>::empty());
        assert(encode_records(rs.push(r)) == encode_record(r) + encode_records(
            Seq::<RecordModel>::empty(),
        ));
        assert(encode_record(r) + Seq::<u8>::empty() =~= Seq::<u8>::empty() + encode_record(r));
    } else {
        let tail = rs.subrange(1, rs.len() as int);
        assert(rs.push(r)[0] == rs[0]);
        assert(rs.push(r).subrange(1, rs.push(r).len() as int) =~= tail.push(r));
        lemma_encode_records_push(tail, r);
        assert(encode_records(rs.push(r)) == encode_record(rs[0]) + (encode_records(tail)
            + encode_record(r)));
        assert(encode_record(rs[0]) + (encode_records(tail) + encode_record(r)) =~= (encode_record(
            rs[0],
        ) + encode_records(tail)) + encode_record(r));
    }
}

/// Byte layout of one encoded record: the marker, then the path, then a
/// newline, then the content, then the closing newline.
proof fn lemma_encode_record_bytes(r: RecordModel)
    ensures
        encode_record(r).len() == r.path.len() + r.content.len() + 4,
        encode_record(r)[0] == SLASH,
        encode_record(r)[1] == SLASH,
        forall|k: int| 0 <= k < r.path.len() ==> encode_record(r)[2 + k] == r.path[k],
        encode_record(r)[2 + r.path.len() as int] == NL,
        forall|k: int|
            0 <= k < r.content.len() ==> encode_record(r)[3 + r.path.len() + k] == r.content[k],
        encode_record(r)[r.path.len() + r.content.len() + 3int] == NL,
{
    let er = encode_record(r);
    assert forall|k: int| 0 <= k < r.path.len() implies er[2 + k] == r.path[k] by {
        assert((seq![SLASH, SLASH] + r.path)[2 + k] == r.path[k]);
    }
    assert forall|k: int| 0 <= k < r.content.len() implies er[3 + r.path.len() + k]
        == r.content[k] by {
        assert((seq![SLASH, SLASH] + r.path + seq![NL] + r.content)[3 + r.path.len() + k]
            == r.content[k]);
    }
}

/// Round trip: parsing the encoding of well-formed records yields exactly
/// those records.
///
/// This is the law that makes aggregation and distribution inverses: for
/// any sequence of records whose paths hold no newline and whose contents
/// have no line beginning with the marker, the blob built from them parses
/// back to the same paths and byte-identical contents.
pub proof fn lemma_round_trip(rs: Seq<RecordModel>)
    requires
        records_wf(rs),
    ensures
        parse_records(encode_records(rs)) == rs,
    decreases rs.len(),
{
    if rs.len() == 0 {
        assert(parse_records(encode_records(rs)) =~= rs);
    } else {
        let r = rs[0];
        let tail_rs = rs.subrange(1, rs.len() as int);
        let tail = encode_records(tail_rs);
        let er = encode_record(r);
        let s = encode_records(rs);
        assert(s == er + tail);
        assert(record_wf(r));
        lemma_encode_record_bytes(r);
        let pl = r.path.len() as int;
        let cl = r.content.len() as int;
        let ll = pl + cl + 4;
        assert(er.len() == ll);
        assert(forall|k: int| 0 <= k < ll ==> #[trigger] s[k] == er[k]);
        assert(forall|k: int| ll <= k < s.len() ==> #[trigger] s[k] == tail[k - ll]);

        // The header line ends at the newline after the path.
        assert(s[0] == SLASH && s[1] == SLASH);
        assert forall|k: int| 2 <= k < 2 + pl implies s[k] != NL by {
            assert(s[k] == er[k] && er[k] == r.path[k - 2]);
        }
        assert(s[2 + pl] == NL);
        lemma_first_nl_is(s, 2, 2 + pl);
        let eol = 2 + pl;

        // No header line starts inside the content span, so the next header
        // start is exactly where the next record's encoding begins.
        assert forall|k: int| eol + 1 <= k < ll implies !is_header_start(s, k) by {
            if is_header_start(s, k) {
                if k == ll - 1 {
                    assert(s[k] == er[ll - 1] && er[ll - 1] == NL);
                } else if k == ll - 2 && cl == 0 {
                    assert(s[k] == NL);
                } else if k + 1 == ll - 1 {
                    assert(s[k + 1] == er[ll - 1] && er[ll - 1] == NL);
                } else {
                    let ci = k - 3 - pl;
                    assert(s[k] == er[k] && er[k] == r.content[ci]);
                    assert(s[k + 1] == er[k + 1] && er[k + 1] == r.content[ci + 1]);
                    if ci == 0 {
                        assert(r.content[0] == SLASH && r.content[1] == SLASH);
                        assert(!content_wf(r.content));
                    } else {
                        assert(s[k - 1] == er[k - 1] && er[k - 1] == r.content[ci - 1]);
                        assert(r.content[ci - 1] == NL);
                        assert(!content_wf(r.content));
                    }
                }
            }
        }
        if tail_rs.len() > 0 {
            lemma_encode_record_bytes(tail_rs[0]);
            assert(tail == encode_record(tail_rs[0]) + encode_records(
                tail_rs.subrange(1, tail_rs.len() as int),
            ));
            assert(tail[0] == SLASH && tail[1] == SLASH && tail.len() >= 4);
            assert(s[ll] == SLASH && s[ll + 1] == SLASH && s[ll - 1] == NL);
            assert(is_header_start(s, ll));
        } else {
            assert(tail.len() == 0);
        }
        lemma_first_header_is(s, eol + 1, ll);

        // The parsed record is exactly the first record.
        let span = s.subrange(eol + 1, ll);
        assert(span =~= r.content + seq![NL]);
        assert(span.last() == NL);
        let c = span.drop_last();
        assert(c =~= r.content);
        assert(s.subrange(2, eol) =~= r.path);

        // The rest of the blob is the encoding of the remaining records.
        assert(s.subrange(ll, s.len() as int) =~= tail);
        assert(records_wf(tail_rs)) by {
            assert(forall|k: int|
                0 <= k < tail_rs.len() ==> #[trigger] tail_rs[k] == rs[k + 1] && record_wf(
                    rs[k + 1],
                ));
        }
        lemma_round_trip(tail_rs);

        let rec = RecordModel { path: s.subrange(2, eol), content: c };
        assert(parse_records(s) == seq![rec] + tail_rs);
        assert(rec =~~= r);
        assert(seq![rec] + tail_rs =~~= rs);
    }
}

} // verus!
