//! The snapshot store: serializes a run snapshot to its canonical text,
//! compresses it on request, keeps the blob in its catalogue, and restores
//! the snapshot on demand. Saving and then reading a run id yields a
//! snapshot with the same model.

use vstd::prelude::*;

use crate::compress::{gzip_compress, gzip_decompress, is_gz_of};
use crate::json::{decode_value, encode_value, ser, wf_value};
use crate::listing::{sort_newest_first, sorted_desc};
use crate::models::{CompressionResult, ExecutionSnapshot, ExecutionStatus, ExecutionSummary,
    SnapshotListItem, SnapshotStorageOptions, StorageStats};
use crate::snapcodec::{snap_model, snapshot_to_value, value_to_snapshot};
use crate::value::{Value, ValueSpec};

verus! {

broadcast use vstd::seq::axiom_seq_index_decreases, vstd::seq::axiom_seq_subrange_decreases, vstd::std_specs::vec::axiom_vec_decreases_to_view, vstd::std_specs::vec::axiom_spec_len, vstd::seq_lib::group_to_multiset_ensures;

/// The library's error taxonomy for storage and lookup.
#[derive(Debug)]
pub enum AppError {
    /// A required record does not exist.
    NotFound(String),
    /// A stored blob does not hold what it should.
    Serialization(String),
    /// A blob cannot be decompressed.
    Compression(String),
    /// A request is malformed.
    Validation(String),
    /// A node's own work failed.
    Execution(String),
}

/// Relies on `String::into_bytes`: the bytes are the UTF-8 encoding of the
/// characters.
#[verifier::external_body]
fn string_to_bytes(s: String) -> (b: Vec<u8>)
    ensures
        b@ == vstd::utf8::encode_utf8(s@),
{
    s.into_bytes()
}

/// Relies on `String::from_utf8`: decoding succeeds exactly on valid UTF-8,
/// the decoded string's encoding is the given bytes, and the characters are
/// unique for each byte sequence.
#[verifier::external_body]
fn bytes_to_string(b: Vec<u8>) -> (r: Option<String>)
    ensures
        r is None ==> forall|cs: Seq<char>| b@ != #[trigger] vstd::utf8::encode_utf8(cs),
        r matches Some(s) ==> b@ == vstd::utf8::encode_utf8(s@),
        r matches Some(s) ==> forall|cs: Seq<char>|
            b@ == #[trigger] vstd::utf8::encode_utf8(cs) ==> s@ == cs,
{
    String::from_utf8(b).ok()
}

/// One stored snapshot: the catalogue row and its blob.
#[derive(Debug)]
pub struct StoredSnapshot {
    pub execution_id: String,
    pub workflow_id: String,
    pub workflow_name: Option<String>,
    pub status: ExecutionStatus,
    pub started_at: i64,
    pub completed_at: Option<i64>,
    pub duration_ms: Option<i64>,
    pub data: Vec<u8>,
    pub compressed: bool,
    pub original_size: i64,
    pub compressed_size: Option<i64>,
    pub created_at: i64,
}

/// The snapshot store: one row per run id.
#[derive(Debug)]
pub struct SnapshotStore {
    pub rows: Vec<StoredSnapshot>,
}

/// The index of the first row with the given run id; -1 when absent.
pub open spec fn row_idx(rows: Seq<StoredSnapshot>, id: Seq<char>) -> int
    decreases rows.len(),
{
    if rows.len() == 0 {
        -1
    } else if rows[0].execution_id@ == id {
        0
    } else {
        let r = row_idx(rows.subrange(1, rows.len() as int), id);
        if r < 0 {
            -1
        } else {
            r + 1
        }
    }
}

/// `row_idx` finds a row carrying the id, or there is none.
pub proof fn lemma_row_idx(rows: Seq<StoredSnapshot>, id: Seq<char>)
    ensures
        row_idx(rows, id) >= 0 ==> row_idx(rows, id) < rows.len() && rows[row_idx(
            rows,
            id,
        )].execution_id@ == id,
        row_idx(rows, id) < 0 ==> forall|j: int|
            0 <= j < rows.len() ==> rows[j].execution_id@ != id,
    decreases rows.len(),
{
    if rows.len() > 0 && rows[0].execution_id@ != id {
        let tail = rows.subrange(1, rows.len() as int);
        lemma_row_idx(tail, id);
        assert forall|j: int| 1 <= j < rows.len() implies rows[j].execution_id@
            == tail[j - 1].execution_id@ by {
            assert(tail[j - 1] == rows[j]);
        }
    }
}

/// `row_idx` returns the first match.
proof fn lemma_row_idx_first(rows: Seq<StoredSnapshot>, id: Seq<char>, k: int)
    requires
        0 <= k < rows.len(),
        rows[k].execution_id@ == id,
        forall|j: int| 0 <= j < k ==> (#[trigger] rows[j].execution_id@) != id,
    ensures
        row_idx(rows, id) == k,
    decreases k,
{
    if k > 0 {
        let tail = rows.subrange(1, rows.len() as int);
        assert forall|j: int| 0 <= j < k - 1 implies (#[trigger] tail[j].execution_id@) != id by {
            assert(tail[j] == rows[j + 1]);
        }
        assert(tail[k - 1] == rows[k]);
        lemma_row_idx_first(tail, id, k - 1);
    }
}

/// The row's blob holds the canonical text of the model `m`, compressed or
/// not as the row says.
pub open spec fn row_holds(row: StoredSnapshot, m: ValueSpec) -> bool {
    &&& wf_value(m)
    &&& (if row.compressed {
        is_gz_of(row.data@, vstd::utf8::encode_utf8(ser(m)))
    } else {
        row.data@ == vstd::utf8::encode_utf8(ser(m))
    })
}

impl SnapshotStore {
    /// The store's well-formedness: one row per run id.
    pub open spec fn wf(self) -> bool {
        forall|a: int, b: int|
            0 <= a < b < self.rows@.len() ==> (#[trigger] self.rows@[a].execution_id@) != (
            #[trigger] self.rows@[b].execution_id@)
    }

    /// An empty store.
    pub fn new() -> (s: SnapshotStore)
        ensures
            s.rows@.len() == 0,
            s.wf(),
    {
        SnapshotStore { rows: Vec::new() }
    }

    /// Saves a snapshot: serializes it to the canonical text, compresses it
    /// unless the options say otherwise, and overwrites any prior row for
    /// the same run id.
    #[verifier::loop_isolation(false)]
    pub fn save(&mut self, snapshot: &ExecutionSnapshot, options: &SnapshotStorageOptions, now_ms: i64) -> (id: String)
        requires
            old(self).wf(),
        ensures
            final(self).wf(),
            id@ == snapshot.execution_id@,
            row_idx(final(self).rows@, snapshot.execution_id@) >= 0,
            row_holds(
                final(self).rows@[row_idx(final(self).rows@, snapshot.execution_id@)],
                snap_model(*snapshot),
            ),
            ({
                let idx = row_idx(final(self).rows@, snapshot.execution_id@);
                let row = final(self).rows@[idx];
                &&& row.execution_id@ == snapshot.execution_id@
                &&& row.workflow_id@ == snapshot.workflow_id@
                &&& row.status == snapshot.status
                &&& row.started_at == snapshot.started_at
                &&& row.completed_at == snapshot.completed_at
                &&& row.duration_ms == snapshot.duration_ms
                &&& row.created_at == now_ms
                &&& row.compressed == (options.compress != Some(false))
                &&& row.original_size as int == crate::retention::clamp64(
                    vstd::utf8::encode_utf8(ser(snap_model(*snapshot))).len() as int,
                )
                &&& (row.compressed ==> (row.compressed_size matches Some(c) && c as int
                    == crate::retention::clamp64(row.data@.len() as int)))
                &&& (!row.compressed ==> row.compressed_size is None)
                &&& (row_idx(old(self).rows@, snapshot.execution_id@) >= 0 ==> idx == row_idx(
                    old(self).rows@,
                    snapshot.execution_id@,
                ) && final(self).rows@ == old(self).rows@.update(idx, row))
                &&& (row_idx(old(self).rows@, snapshot.execution_id@) < 0 ==> idx == old(
                    self,
                ).rows@.len() && final(self).rows@ == old(self).rows@.push(row))
            }),
    {
        let v = snapshot_to_value(snapshot);
        proof {
            crate::json::lemma_view_wf(v);
        }
        let chars = encode_value(&v);
        let text = crate::text::chars_to_string(&chars);
        let bytes = string_to_bytes(text);
        let original_size = if bytes.len() as u64 <= i64::MAX as u64 {
            bytes.len() as i64
        } else {
            i64::MAX
        };
        let compress = match options.compress {
            Some(false) => false,
            _ => true,
        };
        let level: u32 = match options.compression_level {
            Some(l) => if 1 <= l && l <= 9 {
                l as u32
            } else {
                6
            },
            None => 6,
        };
        let (data, compressed_size) = if compress {
            let blob = gzip_compress(&bytes, level);
            let cs = if blob.len() as u64 <= i64::MAX as u64 {
                blob.len() as i64
            } else {
                i64::MAX
            };
            (blob, Some(cs))
        } else {
            (bytes, None)
        };
        let row = StoredSnapshot {
            execution_id: snapshot.execution_id.clone(),
            workflow_id: snapshot.workflow_id.clone(),
            workflow_name: match &snapshot.workflow_name {
                Some(n) => Some(n.clone()),
                None => None,
            },
            status: snapshot.status,
            started_at: snapshot.started_at,
            completed_at: snapshot.completed_at,
            duration_ms: snapshot.duration_ms,
            data,
            compressed: compress,
            original_size,
            compressed_size,
            created_at: now_ms,
        };
        let n = self.rows.len();
        let mut i: usize = 0;
        while i < n
            invariant
                i <= n,
                n == self.rows@.len(),
                self.rows@ == old(self).rows@,
                forall|j: int|
                    0 <= j < i ==> (#[trigger] self.rows@[j].execution_id@)
                        != snapshot.execution_id@,
            decreases n - i,
        {
            if self.rows[i].execution_id.eq(&snapshot.execution_id) {
                proof {
                    lemma_row_idx_first(old(self).rows@, snapshot.execution_id@, i as int);
                }
                self.rows.set(i, row);
                proof {
                    lemma_row_idx_first(self.rows@, snapshot.execution_id@, i as int);
                }
                return snapshot.execution_id.clone();
            }
            i = i + 1;
        }
        proof {
            lemma_row_idx(old(self).rows@, snapshot.execution_id@);
            if row_idx(old(self).rows@, snapshot.execution_id@) >= 0 {
                assert(old(self).rows@[row_idx(
                    old(self).rows@,
                    snapshot.execution_id@,
                )].execution_id@ == snapshot.execution_id@);
            }
        }
        self.rows.push(row);
        proof {
            lemma_row_idx_first(self.rows@, snapshot.execution_id@, n as int);
        }
        snapshot.execution_id.clone()
    }

    /// Reads a snapshot back: decompresses the blob as its row says and
    /// restores the value. A missing id is a distinct error, and a corrupt
    /// or mismatched blob surfaces as an error, never as an empty result.
    #[verifier::loop_isolation(false)]
    pub fn get(&self, execution_id: &String) -> (r: Result<ExecutionSnapshot, AppError>)
        ensures
            row_idx(self.rows@, execution_id@) < 0 <==> (r matches Err(e) && e is NotFound),
            r is Ok ==> row_idx(self.rows@, execution_id@) >= 0,
            forall|s0: ExecutionSnapshot|
                row_idx(self.rows@, execution_id@) >= 0 && #[trigger] row_holds(
                    self.rows@[row_idx(self.rows@, execution_id@)],
                    snap_model(s0),
                ) ==> (r matches Ok(s) && snap_model(s) == snap_model(s0)),
            // a successful read certifies the blob: it decompresses (or
            // stands) as the UTF-8 encoding of some text
            r is Ok ==> ({
                let row = self.rows@[row_idx(self.rows@, execution_id@)];
                exists|text: Seq<char>|
                    if row.compressed {
                        is_gz_of(row.data@, #[trigger] vstd::utf8::encode_utf8(text))
                    } else {
                        row.data@ == vstd::utf8::encode_utf8(text)
                    }
            }),
    {
        let n = self.rows.len();
        let mut i: usize = 0;
        while i < n
            invariant
                i <= n,
                n == self.rows@.len(),
                forall|j: int|
                    0 <= j < i ==> (#[trigger] self.rows@[j].execution_id@) != execution_id@,
            decreases n - i,
        {
            if self.rows[i].execution_id.eq(execution_id) {
                proof {
                    lemma_row_idx_first(self.rows@, execution_id@, i as int);
                }
                let ghost row0 = self.rows@[i as int];
                let row = &self.rows[i];
                let r2 = if row.compressed {
                    gzip_decompress(&row.data)
                } else {
                    Some(clone_bytes(&row.data))
                };
                proof {
                    assert forall|s0: ExecutionSnapshot|
                        row_holds(row0, snap_model(s0)) implies (r2 matches Some(b) && b@
                        == vstd::utf8::encode_utf8(ser(snap_model(s0)))) by {
                        if row0.compressed {
                            assert(is_gz_of(
                                row0.data@,
                                vstd::utf8::encode_utf8(ser(snap_model(s0))),
                            ));
                        }
                    }
                }
                let bytes = match r2 {
                    Some(b) => b,
                    None => {
                        return Err(
                            AppError::Compression(
                                String::from_str("stored blob is not a gzip stream"),
                            ),
                        );
                    },
                };
                let r3 = bytes_to_string(bytes);
                proof {
                    assert forall|s0: ExecutionSnapshot|
                        row_holds(row0, snap_model(s0)) implies (r3 matches Some(t) && t@ == ser(
                        snap_model(s0),
                    )) by {
                        if r3 is None {
                            assert(bytes@ != vstd::utf8::encode_utf8(ser(snap_model(s0))));
                        }
                    }
                }
                let text = match r3 {
                    Some(t) => t,
                    None => {
                        return Err(
                            AppError::Serialization(String::from_str("stored blob is not text")),
                        );
                    },
                };
                let chars = crate::text::string_chars(text.as_str());
                let r4 = decode_value(&chars);
                proof {
                    assert forall|s0: ExecutionSnapshot|
                        row_holds(row0, snap_model(s0)) implies (r4 matches Some(v) && v.view_spec()
                        == snap_model(s0)) by {
                        assert(wf_value(snap_model(s0)));
                        assert(chars@ == ser(snap_model(s0)));
                    }
                }
                let v = match r4 {
                    Some(v) => v,
                    None => {
                        return Err(
                            AppError::Serialization(
                                String::from_str("stored text is not a canonical value"),
                            ),
                        );
                    },
                };
                let r5 = value_to_snapshot(&v);
                proof {
                    assert forall|s0: ExecutionSnapshot|
                        row_holds(row0, snap_model(s0)) implies (r5 matches Some(s) && snap_model(s)
                        == snap_model(s0)) by {
                        assert(v.view_spec() == snap_model(s0));
                    }
                }
                match r5 {
                    Some(s) => {
                        proof {
                            let witness = text@;
                            if row0.compressed {
                                assert(is_gz_of(row0.data@, vstd::utf8::encode_utf8(witness)));
                            } else {
                                assert(row0.data@ == vstd::utf8::encode_utf8(witness));
                            }
                        }
                        return Ok(s);
                    },
                    None => {
                        return Err(
                            AppError::Serialization(
                                String::from_str("stored value is not a snapshot"),
                            ),
                        );
                    },
                }
            }
            i = i + 1;
        }
        proof {
            lemma_row_idx(self.rows@, execution_id@);
            if row_idx(self.rows@, execution_id@) >= 0 {
                assert(self.rows@[row_idx(self.rows@, execution_id@)].execution_id@
                    == execution_id@);
            }
        }
        Err(AppError::NotFound(String::from_str("no snapshot for this run")))
    }

    /// Drops the snapshot for one run id, if any.
    #[verifier::loop_isolation(false)]
    pub fn delete(&mut self, execution_id: &String)
        requires
            old(self).wf(),
        ensures
            final(self).wf(),
            row_idx(old(self).rows@, execution_id@) < 0 ==> final(self).rows@ == old(self).rows@,
            row_idx(old(self).rows@, execution_id@) >= 0 ==> final(self).rows@ == old(
                self,
            ).rows@.remove(row_idx(old(self).rows@, execution_id@)),
    {
        let n = self.rows.len();
        let mut i: usize = 0;
        while i < n
            invariant
                i <= n,
                n == self.rows@.len(),
                self.rows@ == old(self).rows@,
                forall|j: int|
                    0 <= j < i ==> (#[trigger] self.rows@[j].execution_id@) != execution_id@,
            decreases n - i,
        {
            if self.rows[i].execution_id.eq(execution_id) {
                proof {
                    lemma_row_idx_first(self.rows@, execution_id@, i as int);
                }
                self.rows.remove(i);
                return ;
            }
            i = i + 1;
        }
        proof {
            lemma_row_idx(self.rows@, execution_id@);
            if row_idx(self.rows@, execution_id@) >= 0 {
                assert(self.rows@[row_idx(self.rows@, execution_id@)].execution_id@
                    == execution_id@);
            }
        }
    }

    /// Re-saves one snapshot at a new compression level: a composition of
    /// `get` and `save`. A stored well-formed snapshot is always
    /// re-compressed successfully, and the result reports the re-saved
    /// row's sizes.
    #[verifier::loop_isolation(false)]
    pub fn recompress(&mut self, execution_id: &String, level: Option<i64>, now_ms: i64) -> (r:
        Result<CompressionResult, AppError>)
        requires
            old(self).wf(),
        ensures
            final(self).wf(),
            row_idx(old(self).rows@, execution_id@) < 0 ==> (r matches Err(e) && e is NotFound)
                && final(self).rows@ == old(self).rows@,
            forall|s0: ExecutionSnapshot|
                row_idx(old(self).rows@, execution_id@) >= 0 && s0.execution_id@ == execution_id@
                    && #[trigger] row_holds(
                    old(self).rows@[row_idx(old(self).rows@, execution_id@)],
                    snap_model(s0),
                ) ==> ({
                    let idx = row_idx(final(self).rows@, execution_id@);
                    let row = final(self).rows@[idx];
                    &&& r matches Ok(c)
                    &&& idx >= 0
                    &&& row_holds(row, snap_model(s0))
                    &&& row.compressed
                    &&& c.execution_id@ == execution_id@
                    &&& c.original_size == row.original_size
                    &&& c.compressed_size == (match row.compressed_size {
                        Some(cs) => cs,
                        None => row.original_size,
                    })
                }),
    {
        let snapshot = match self.get(execution_id) {
            Ok(s) => s,
            Err(e) => {
                proof {
                    if row_idx(self.rows@, execution_id@) >= 0 {
                        assert forall|s0: ExecutionSnapshot|
                            s0.execution_id@ == execution_id@ && #[trigger] row_holds(
                                self.rows@[row_idx(self.rows@, execution_id@)],
                                snap_model(s0),
                            ) implies false by {}
                    }
                }
                return Err(e);
            },
        };
        let options = SnapshotStorageOptions {
            compress: Some(true),
            compression_level: match level {
                Some(l) => Some(l),
                None => Some(9),
            },
            max_snapshots: None,
            max_age_days: None,
            exclude_sensitive_data: Some(false),
            sensitive_fields: None,
        };
        let ghost mid_rows = self.rows@;
        self.save(&snapshot, &options, now_ms);
        proof {
            assert forall|s0: ExecutionSnapshot|
                row_idx(old(self).rows@, execution_id@) >= 0 && s0.execution_id@ == execution_id@
                    && #[trigger] row_holds(
                    old(self).rows@[row_idx(old(self).rows@, execution_id@)],
                    snap_model(s0),
                ) implies row_idx(self.rows@, execution_id@) >= 0 && row_holds(
                self.rows@[row_idx(self.rows@, execution_id@)],
                snap_model(s0),
            ) && self.rows@[row_idx(self.rows@, execution_id@)].compressed by {
                assert(snap_model(snapshot) == snap_model(s0));
                assert(snap_model(snapshot)->Arr_0[0] == snap_model(s0)->Arr_0[0]);
                assert(snapshot.execution_id@ == s0.execution_id@);
            }
        }
        // read the re-saved row's sizes back
        let n = self.rows.len();
        let mut i: usize = 0;
        while i < n
            invariant
                i <= n,
                n == self.rows@.len(),
                forall|j: int|
                    0 <= j < i ==> (#[trigger] self.rows@[j].execution_id@) != execution_id@,
            decreases n - i,
        {
            if self.rows[i].execution_id.eq(execution_id) {
                proof {
                    lemma_row_idx_first(self.rows@, execution_id@, i as int);
                }
                let row = &self.rows[i];
                let comp = match row.compressed_size {
                    Some(c) => c,
                    None => row.original_size,
                };
                return Ok(
                    CompressionResult {
                        execution_id: execution_id.clone(),
                        original_size: row.original_size,
                        compressed_size: comp,
                    },
                );
            }
            i = i + 1;
        }
        // the re-saved row carries the snapshot's own id; a blob whose
        // embedded id differs from the requested one ends here
        proof {
            lemma_row_idx(self.rows@, execution_id@);
            if row_idx(self.rows@, execution_id@) >= 0 {
                assert(self.rows@[row_idx(self.rows@, execution_id@)].execution_id@
                    == execution_id@);
            }
        }
        Err(AppError::NotFound(String::from_str("no snapshot for this run")))
    }

}

/// A byte-for-byte copy.
#[verifier::loop_isolation(false)]
fn clone_bytes(b: &Vec<u8>) -> (r: Vec<u8>)
    ensures
        r@ == b@,
{
    let n = b.len();
    let mut out: Vec<u8> = Vec::new();
    let mut i: usize = 0;
    while i < n
        invariant
            i <= n,
            n == b@.len(),
            out@ == b@.subrange(0, i as int),
        decreases n - i,
    {
        out.push(b[i]);
        proof {
            assert(out@ =~= b@.subrange(0, i + 1 as int));
        }
        i = i + 1;
    }
    proof {
        assert(out@ =~= b@);
    }
    out
}

/// Saving a snapshot and reading its run id back yields a snapshot with
/// the same model, whether or not the blob was compressed.
pub proof fn lemma_save_get_round_trip(
    before: SnapshotStore,
    after: SnapshotStore,
    snapshot: ExecutionSnapshot,
    got: Result<ExecutionSnapshot, AppError>,
)
    requires
        // what `save` ensures
        row_idx(after.rows@, snapshot.execution_id@) >= 0,
        row_holds(
            after.rows@[row_idx(after.rows@, snapshot.execution_id@)],
            snap_model(snapshot),
        ),
        // what `get` on `after` ensures
        row_idx(after.rows@, snapshot.execution_id@) < 0 ==> (got matches Err(e) && e
            is NotFound),
        forall|s0: ExecutionSnapshot|
            row_idx(after.rows@, snapshot.execution_id@) >= 0 && #[trigger] row_holds(
                after.rows@[row_idx(after.rows@, snapshot.execution_id@)],
                snap_model(s0),
            ) ==> (got matches Ok(s) && snap_model(s) == snap_model(s0)),
    ensures
        got matches Ok(s) && snap_model(s) == snap_model(snapshot),
{
}


/// Whether a row matches the optional workflow filter.
pub open spec fn row_matches(r: StoredSnapshot, wfv: Option<Seq<char>>) -> bool {
    match wfv {
        Some(w) => r.workflow_id@ == w,
        None => true,
    }
}

/// The matching rows among the first `k`, as (start time, position)
/// candidates in catalogue order.
pub open spec fn row_cands(rows: Seq<StoredSnapshot>, wfv: Option<Seq<char>>, k: int) -> Seq<(
    i64,
    usize,
)>
    decreases k,
{
    if k <= 0 {
        Seq::empty()
    } else {
        row_cands(rows, wfv, k - 1) + (if row_matches(rows[k - 1], wfv) {
            seq![(rows[k - 1].started_at, (k - 1) as usize)]
        } else {
            Seq::empty()
        })
    }
}

/// Every candidate names a matching row at its position.
proof fn lemma_row_cands(rows: Seq<StoredSnapshot>, wfv: Option<Seq<char>>, k: int)
    requires
        k <= rows.len(),
        rows.len() <= usize::MAX,
    ensures
        forall|p: int|
            0 <= p < row_cands(rows, wfv, k).len() ==> ({
                let c = #[trigger] row_cands(rows, wfv, k)[p];
                &&& (c.1 as int) < rows.len()
                &&& rows[c.1 as int].started_at == c.0
                &&& row_matches(rows[c.1 as int], wfv)
            }),
    decreases k,
{
    if k > 0 {
        lemma_row_cands(rows, wfv, k - 1);
        let prev = row_cands(rows, wfv, k - 1);
        let cur = row_cands(rows, wfv, k);
        assert forall|p: int| 0 <= p < cur.len() implies ({
            let c = #[trigger] cur[p];
            &&& (c.1 as int) < rows.len()
            &&& rows[c.1 as int].started_at == c.0
            &&& row_matches(rows[c.1 as int], wfv)
        }) by {
            if p < prev.len() {
                assert(cur[p] == prev[p]);
            } else {
                assert(cur[p] == (rows[k - 1].started_at, (k - 1) as usize));
            }
        }
    }
}

/// The total original size of the first `k` rows.
pub open spec fn sum_original(rows: Seq<StoredSnapshot>, k: int) -> int
    decreases k,
{
    if k <= 0 {
        0
    } else {
        sum_original(rows, k - 1) + rows[k - 1].original_size as int
    }
}

/// The earliest start time among the first `k` rows.
pub open spec fn min_started(rows: Seq<StoredSnapshot>, k: int) -> Option<int>
    decreases k,
{
    if k <= 0 {
        None
    } else {
        match min_started(rows, k - 1) {
            None => Some(rows[k - 1].started_at as int),
            Some(m) => Some(
                if rows[k - 1].started_at < m {
                    rows[k - 1].started_at as int
                } else {
                    m
                },
            ),
        }
    }
}

/// The latest start time among the first `k` rows.
pub open spec fn max_started(rows: Seq<StoredSnapshot>, k: int) -> Option<int>
    decreases k,
{
    if k <= 0 {
        None
    } else {
        match max_started(rows, k - 1) {
            None => Some(rows[k - 1].started_at as int),
            Some(m) => Some(
                if rows[k - 1].started_at > m {
                    rows[k - 1].started_at as int
                } else {
                    m
                },
            ),
        }
    }
}

impl SnapshotStore {
    /// Catalogue rows as list items, filtered by workflow when asked, the
    /// most recently started first (ties in catalogue order), skipping
    /// `offset` matches and yielding at most `limit`.
    #[verifier::loop_isolation(false)]
    pub fn list_snapshots(
        &self,
        workflow_id: Option<&String>,
        limit: usize,
        offset: usize,
    ) -> (items: Vec<SnapshotListItem>)
        ensures
            ({
                let wfv = match workflow_id {
                    Some(w) => Some(w@),
                    None => None::<Seq<char>>,
                };
                let cands = row_cands(self.rows@, wfv, self.rows@.len() as int);
                exists|ord: Seq<(i64, usize)>|
                    {
                        let avail: int = if ord.len() >= offset {
                            ord.len() - offset
                        } else {
                            0
                        };
                        &&& #[trigger] sorted_desc(ord)
                        &&& ord.to_multiset() == cands.to_multiset()
                        &&& items@.len() == (if limit as int <= avail {
                            limit as int
                        } else {
                            avail
                        })
                        &&& (forall|j: int|
                            0 <= j < items@.len() ==> ({
                                let c = ord[offset + j];
                                let row = self.rows@[c.1 as int];
                                &&& (c.1 as int) < self.rows@.len()
                                &&& (#[trigger] items@[j]).execution_id@ == row.execution_id@
                                &&& items@[j].workflow_id@ == row.workflow_id@
                                &&& items@[j].status == row.status
                                &&& items@[j].started_at == row.started_at
                                &&& items@[j].completed_at == row.completed_at
                                &&& items@[j].duration_ms == row.duration_ms
                                &&& row_matches(row, wfv)
                            }))
                    }
            }),
    {
        let ghost wfv: Option<Seq<char>> = match workflow_id {
            Some(w) => Some(w@),
            None => None,
        };
        let n = self.rows.len();
        let mut cands: Vec<(i64, usize)> = Vec::new();
        let mut i: usize = 0;
        while i < n
            invariant
                i <= n,
                n == self.rows@.len(),
                cands@ == row_cands(self.rows@, wfv, i as int),
            decreases n - i,
        {
            let keep = match workflow_id {
                Some(w) => self.rows[i].workflow_id.eq(w),
                None => true,
            };
            if keep {
                cands.push((self.rows[i].started_at, i));
            }
            proof {
                assert(cands@ =~= row_cands(self.rows@, wfv, i + 1));
            }
            i = i + 1;
        }
        let sorted = sort_newest_first(cands);
        proof {
            assert(self.rows@.len() <= usize::MAX);
            lemma_row_cands(self.rows@, wfv, n as int);
            assert forall|j: int| 0 <= j < sorted@.len() implies ((#[trigger] sorted@[j]).1 as int)
                < self.rows@.len() && self.rows@[sorted@[j].1 as int].started_at == sorted@[j].0
                && row_matches(self.rows@[sorted@[j].1 as int], wfv) by {
                assert(sorted@.contains(sorted@[j]));
                let full = row_cands(self.rows@, wfv, n as int);
                assert(full.to_multiset().count(sorted@[j]) > 0);
                assert(full.contains(sorted@[j]));
                let p = choose|p: int| 0 <= p < full.len() && full[p] == sorted@[j];
            }
        }
        let avail = if sorted.len() >= offset {
            sorted.len() - offset
        } else {
            0
        };
        let take = if limit <= avail {
            limit
        } else {
            avail
        };
        let mut items: Vec<SnapshotListItem> = Vec::new();
        let mut j: usize = 0;
        while j < take
            invariant
                j <= take,
                take + offset <= sorted@.len() || take == 0,
                take <= avail,
                avail == (if sorted@.len() >= offset {
                    sorted@.len() - offset
                } else {
                    0
                }),
                items@.len() == j,
                forall|q: int|
                    0 <= q < j ==> ({
                        let c = sorted@[offset + q];
                        let row = self.rows@[c.1 as int];
                        &&& (#[trigger] items@[q]).execution_id@ == row.execution_id@
                        &&& items@[q].workflow_id@ == row.workflow_id@
                        &&& items@[q].status == row.status
                        &&& items@[q].started_at == row.started_at
                        &&& items@[q].completed_at == row.completed_at
                        &&& items@[q].duration_ms == row.duration_ms
                    }),
            decreases take - j,
        {
            let idx = sorted[offset + j].1;
            let row = &self.rows[idx];
            let item = SnapshotListItem {
                execution_id: row.execution_id.clone(),
                workflow_id: row.workflow_id.clone(),
                workflow_name: match &row.workflow_name {
                    Some(w2) => Some(w2.clone()),
                    None => None,
                },
                status: row.status,
                started_at: row.started_at,
                completed_at: row.completed_at,
                duration_ms: row.duration_ms,
                summary: ExecutionSummary {
                    total_nodes: 0,
                    completed_nodes: 0,
                    failed_nodes: 0,
                    skipped_nodes: 0,
                    total_tokens_used: None,
                },
            };
            items.push(item);
            j = j + 1;
        }
        proof {
            let ghost ord = sorted@;
            assert(sorted_desc(ord));
        }
        items
    }

    /// Aggregate sizes and the age range of the catalogue.
    #[verifier::loop_isolation(false)]
    pub fn storage_stats(&self) -> (s: StorageStats)
        ensures
            s.total_count as int == crate::retention::clamp64(self.rows@.len() as int),
            s.total_original_size as int == crate::retention::clamp64(
                sum_original(self.rows@, self.rows@.len() as int),
            ),
            s.total_compressed_size as int == crate::retention::clamp64(
                crate::retention::total_size(self.rows@, self.rows@.len() as int),
            ),
            ({
                let oldest = min_started(self.rows@, self.rows@.len() as int);
                let newest = max_started(self.rows@, self.rows@.len() as int);
                &&& (s.oldest_snapshot matches Some(o) <==> oldest is Some)
                &&& (s.oldest_snapshot matches Some(o) ==> Some(o as int) == oldest)
                &&& (s.newest_snapshot matches Some(o) <==> newest is Some)
                &&& (s.newest_snapshot matches Some(o) ==> Some(o as int) == newest)
            }),
    {
        let n = self.rows.len();
        let mut original: i128 = 0;
        let mut compressed: i128 = 0;
        let mut oldest: Option<i64> = None;
        let mut newest: Option<i64> = None;
        let mut i: usize = 0;
        while i < n
            invariant
                i <= n,
                n == self.rows@.len(),
                original as int == sum_original(self.rows@, i as int),
                compressed as int == crate::retention::total_size(self.rows@, i as int),
                -(i as int) * (i64::MAX as int + 1) <= original <= (i as int) * (i64::MAX as int),
                -(i as int) * (i64::MAX as int + 1) <= compressed <= (i as int) * (
                i64::MAX as int),
                (oldest matches Some(o) <==> min_started(self.rows@, i as int) is Some),
                (oldest matches Some(o) ==> Some(o as int) == min_started(self.rows@, i as int)),
                (newest matches Some(o) <==> max_started(self.rows@, i as int) is Some),
                (newest matches Some(o) ==> Some(o as int) == max_started(self.rows@, i as int)),
            decreases n - i,
        {
            let row = &self.rows[i];
            let sz = match row.compressed_size {
                Some(c) => c,
                None => row.original_size,
            };
            proof {
                crate::retention::lemma_sum_step(i as int, original as int, row.original_size as int);
                crate::retention::lemma_sum_step(i as int, compressed as int, sz as int);
            }
            original = original + row.original_size as i128;
            compressed = compressed + sz as i128;
            oldest = match oldest {
                None => Some(row.started_at),
                Some(m) => Some(
                    if row.started_at < m {
                        row.started_at
                    } else {
                        m
                    },
                ),
            };
            newest = match newest {
                None => Some(row.started_at),
                Some(m) => Some(
                    if row.started_at > m {
                        row.started_at
                    } else {
                        m
                    },
                ),
            };
            i = i + 1;
        }
        let clamp = |x: i128| -> (r: i64)
            ensures
                r as int == crate::retention::clamp64(x as int),
            {
                if x > i64::MAX as i128 {
                    i64::MAX
                } else if x < i64::MIN as i128 {
                    i64::MIN
                } else {
                    x as i64
                }
            };
        let total_count: i64 = if n as u64 > i64::MAX as u64 {
            i64::MAX
        } else {
            n as i64
        };
        StorageStats {
            total_count,
            total_original_size: clamp(original),
            total_compressed_size: clamp(compressed),
            oldest_snapshot: oldest,
            newest_snapshot: newest,
        }
    }
}

} // verus!
