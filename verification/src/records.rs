//! File records: the unit of data that aggregation collects and
//! distribution writes back.

use vstd::prelude::*;
use crate::bytes::{NL, SLASH};

verus! {

/// One file, as carried through the blob: its path relative to the root and
/// its full text content, both as bytes.
pub struct FileRecord {
    pub path: Vec<u8>,
    pub content: Vec<u8>,
}

/// Mathematical model of a `FileRecord`.
#[verifier::ext_equal]
pub struct RecordModel {
    pub path: Seq<u8>,
    pub content: Seq<u8>,
}

impl View for FileRecord {
    type V = RecordModel;

    open spec fn view(&self) -> RecordModel {
        RecordModel { path: self.path@, content: self.content@ }
    }
}

/// Model of a sequence of records.
pub open spec fn recs_view(v: Seq<FileRecord>) -> Seq<RecordModel> {
    v.map_values(|fr: FileRecord| fr@)
}

/// A relative path can stand on a header line: it contains no newline.
pub open spec fn path_wf(p: Seq<u8>) -> bool {
    forall|i: int| 0 <= i < p.len() ==> p[i] != NL
}

/// A file content survives the blob format: none of its lines begins with
/// the two-character marker, so no content line can be mistaken for a header.
pub open spec fn content_wf(c: Seq<u8>) -> bool {
    forall|i: int|
        0 <= i && i + 1 < c.len() && (i == 0 || c[i - 1] == NL) ==> !(#[trigger] c[i] == SLASH
            && c[i + 1] == SLASH)
}

/// A record round-trips through the blob format.
pub open spec fn record_wf(r: RecordModel) -> bool {
    path_wf(r.path) && content_wf(r.content)
}

/// Every record of the sequence round-trips.
pub open spec fn records_wf(rs: Seq<RecordModel>) -> bool {
    forall|k: int| 0 <= k < rs.len() ==> record_wf(#[trigger] rs[k])
}

} // verus!
