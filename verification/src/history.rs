//! The run history: every run's record, written once at start and once at
//! its terminal outcome, with the query surface over it.

use vstd::prelude::*;

use crate::listing::{sort_newest_first, sorted_desc};
use crate::models::{Execution, ExecutionStats, ExecutionStatus};

verus! {

broadcast use vstd::seq::axiom_seq_index_decreases, vstd::seq::axiom_seq_subrange_decreases, vstd::std_specs::vec::axiom_vec_decreases_to_view, vstd::std_specs::vec::axiom_spec_len, vstd::seq_lib::group_to_multiset_ensures;

/// The table of run records, one per run id.
#[derive(Debug)]
pub struct ExecutionHistory {
    pub records: Vec<Execution>,
}

/// The index of the first record with the given run id; -1 when absent.
pub open spec fn rec_idx(s: Seq<Execution>, id: Seq<char>) -> int
    decreases s.len(),
{
    if s.len() == 0 {
        -1
    } else if s[0].id@ == id {
        0
    } else {
        let r = rec_idx(s.subrange(1, s.len() as int), id);
        if r < 0 {
            -1
        } else {
            r + 1
        }
    }
}

/// `rec_idx` finds a record carrying the id, or there is none.
pub proof fn lemma_rec_idx(s: Seq<Execution>, id: Seq<char>)
    ensures
        rec_idx(s, id) >= 0 ==> rec_idx(s, id) < s.len() && s[rec_idx(s, id)].id@ == id,
        rec_idx(s, id) < 0 ==> forall|j: int| 0 <= j < s.len() ==> s[j].id@ != id,
    decreases s.len(),
{
    if s.len() > 0 && s[0].id@ != id {
        let tail = s.subrange(1, s.len() as int);
        lemma_rec_idx(tail, id);
        assert forall|j: int| 1 <= j < s.len() implies s[j].id@ == tail[j - 1].id@ by {
            assert(tail[j - 1] == s[j]);
        }
    }
}

/// `rec_idx` returns the first match.
proof fn lemma_rec_idx_first(s: Seq<Execution>, id: Seq<char>, k: int)
    requires
        0 <= k < s.len(),
        s[k].id@ == id,
        forall|j: int| 0 <= j < k ==> (#[trigger] s[j].id@) != id,
    ensures
        rec_idx(s, id) == k,
    decreases k,
{
    if k > 0 {
        let tail = s.subrange(1, s.len() as int);
        assert forall|j: int| 0 <= j < k - 1 implies (#[trigger] tail[j].id@) != id by {
            assert(tail[j] == s[j + 1]);
        }
        assert(tail[k - 1] == s[k]);
        lemma_rec_idx_first(tail, id, k - 1);
    }
}

/// Whether a record matches the optional workflow filter.
pub open spec fn rec_matches(r: Execution, wfv: Option<Seq<char>>) -> bool {
    match wfv {
        Some(w) => r.workflow_id@ == w,
        None => true,
    }
}

/// The matching records among the first `k`, as (start time, position)
/// candidates in catalogue order.
pub open spec fn rec_cands(records: Seq<Execution>, wfv: Option<Seq<char>>, k: int) -> Seq<(
    i64,
    usize,
)>
    decreases k,
{
    if k <= 0 {
        Seq::empty()
    } else {
        rec_cands(records, wfv, k - 1) + (if rec_matches(records[k - 1], wfv) {
            seq![(records[k - 1].started_at, (k - 1) as usize)]
        } else {
            Seq::empty()
        })
    }
}

/// Every candidate names a matching record at its position.
proof fn lemma_rec_cands(records: Seq<Execution>, wfv: Option<Seq<char>>, k: int)
    requires
        k <= records.len(),
        records.len() <= usize::MAX,
    ensures
        forall|p: int|
            0 <= p < rec_cands(records, wfv, k).len() ==> ({
                let c = #[trigger] rec_cands(records, wfv, k)[p];
                &&& (c.1 as int) < records.len()
                &&& records[c.1 as int].started_at == c.0
                &&& rec_matches(records[c.1 as int], wfv)
            }),
    decreases k,
{
    if k > 0 {
        lemma_rec_cands(records, wfv, k - 1);
        let prev = rec_cands(records, wfv, k - 1);
        let cur = rec_cands(records, wfv, k);
        assert forall|p: int| 0 <= p < cur.len() implies ({
            let c = #[trigger] cur[p];
            &&& (c.1 as int) < records.len()
            &&& records[c.1 as int].started_at == c.0
            &&& rec_matches(records[c.1 as int], wfv)
        }) by {
            if p < prev.len() {
                assert(cur[p] == prev[p]);
            } else {
                assert(cur[p] == (records[k - 1].started_at, (k - 1) as usize));
            }
        }
    }
}

/// How many of the first `k` records carry the given status.
pub open spec fn count_status(s: Seq<Execution>, st: ExecutionStatus, k: int) -> nat
    decreases k,
{
    if k <= 0 {
        0
    } else {
        count_status(s, st, k - 1) + (if s[k - 1].status == st {
            1nat
        } else {
            0nat
        })
    }
}

impl ExecutionHistory {
    /// The table's well-formedness: one record per run id.
    pub open spec fn wf(self) -> bool {
        forall|a: int, b: int|
            0 <= a < b < self.records@.len() ==> (#[trigger] self.records@[a].id@) != (
            #[trigger] self.records@[b].id@)
    }

    /// An empty history.
    pub fn new() -> (h: ExecutionHistory)
        ensures
            h.records@.len() == 0,
            h.wf(),
    {
        ExecutionHistory { records: Vec::new() }
    }

    /// Writes one run's record, overwriting any prior record for the same
    /// run id.
    #[verifier::loop_isolation(false)]
    pub fn save_execution(&mut self, record: Execution)
        requires
            old(self).wf(),
        ensures
            final(self).wf(),
            rec_idx(final(self).records@, record.id@) >= 0,
            final(self).records@[rec_idx(final(self).records@, record.id@)] == record,
            forall|j: int|
                0 <= j < final(self).records@.len() && (#[trigger] final(self).records@[j].id@)
                    != record.id@ ==> exists|k: int|
                    0 <= k < old(self).records@.len() && old(self).records@[k]
                        == final(self).records@[j],
    {
        let n = self.records.len();
        let mut i: usize = 0;
        while i < n
            invariant
                i <= n,
                n == self.records@.len(),
                self.records@ == old(self).records@,
                forall|j: int| 0 <= j < i ==> (#[trigger] self.records@[j].id@) != record.id@,
            decreases n - i,
        {
            if self.records[i].id.eq(&record.id) {
                let ghost rid = record.id@;
                self.records.set(i, record);
                proof {
                    lemma_rec_idx_first(self.records@, rid, i as int);
                    assert forall|j: int|
                        0 <= j < self.records@.len() && (#[trigger] self.records@[j].id@)
                            != rid implies exists|k: int|
                        0 <= k < old(self).records@.len() && old(self).records@[k]
                            == self.records@[j] by {
                        assert(self.records@[j] == old(self).records@[j]);
                    }
                }
                return ;
            }
            i = i + 1;
        }
        let ghost rid = record.id@;
        self.records.push(record);
        proof {
            lemma_rec_idx_first(self.records@, rid, n as int);
            assert forall|j: int|
                0 <= j < self.records@.len() && (#[trigger] self.records@[j].id@)
                    != rid implies exists|k: int|
                0 <= k < old(self).records@.len() && old(self).records@[k] == self.records@[j] by {
                assert(self.records@[j] == old(self).records@[j]);
            }
        }
    }

    /// One run's record, when it exists.
    #[verifier::loop_isolation(false)]
    pub fn get_execution(&self, id: &String) -> (r: Option<&Execution>)
        ensures
            rec_idx(self.records@, id@) >= 0 ==> (r matches Some(e) && *e
                == self.records@[rec_idx(self.records@, id@)]),
            rec_idx(self.records@, id@) < 0 ==> r is None,
    {
        let n = self.records.len();
        let mut i: usize = 0;
        while i < n
            invariant
                i <= n,
                n == self.records@.len(),
                forall|j: int| 0 <= j < i ==> (#[trigger] self.records@[j].id@) != id@,
            decreases n - i,
        {
            if self.records[i].id.eq(id) {
                proof {
                    lemma_rec_idx_first(self.records@, id@, i as int);
                }
                return Some(&self.records[i]);
            }
            i = i + 1;
        }
        proof {
            lemma_rec_idx(self.records@, id@);
            if rec_idx(self.records@, id@) >= 0 {
                assert(self.records@[rec_idx(self.records@, id@)].id@ == id@);
            }
        }
        None
    }

    /// The ids of the records for one workflow (or all of them), the most
    /// recently started first, ties in catalogue order, at most `limit`.
    #[verifier::loop_isolation(false)]
    pub fn list_executions(&self, workflow_id: Option<&String>, limit: usize) -> (ids: Vec<String>)
        ensures
            ({
                let wfv = match workflow_id {
                    Some(w) => Some(w@),
                    None => None::<Seq<char>>,
                };
                let cands = rec_cands(self.records@, wfv, self.records@.len() as int);
                exists|ord: Seq<(i64, usize)>|
                    #[trigger] sorted_desc(ord) && ord.to_multiset() == cands.to_multiset()
                        && ids@.len() == (if limit as int <= ord.len() {
                        limit as int
                    } else {
                        ord.len() as int
                    }) && (forall|j: int|
                        0 <= j < ids@.len() ==> ((ord[j].1 as int) < self.records@.len() && (
                        #[trigger] ids@[j])@ == self.records@[ord[j].1 as int].id@
                            && self.records@[ord[j].1 as int].started_at == ord[j].0 && rec_matches(
                            self.records@[ord[j].1 as int],
                            wfv,
                        )))
            }),
    {
        let ghost wfv: Option<Seq<char>> = match workflow_id {
            Some(w) => Some(w@),
            None => None,
        };
        let n = self.records.len();
        let mut cands: Vec<(i64, usize)> = Vec::new();
        let mut i: usize = 0;
        while i < n
            invariant
                i <= n,
                n == self.records@.len(),
                cands@ == rec_cands(self.records@, wfv, i as int),
            decreases n - i,
        {
            let keep = match workflow_id {
                Some(w) => self.records[i].workflow_id.eq(w),
                None => true,
            };
            if keep {
                cands.push((self.records[i].started_at, i));
            }
            proof {
                assert(cands@ =~= rec_cands(self.records@, wfv, i + 1));
            }
            i = i + 1;
        }
        let sorted = sort_newest_first(cands);
        proof {
            assert(self.records@.len() <= usize::MAX);
            lemma_rec_cands(self.records@, wfv, n as int);
            assert forall|j: int| 0 <= j < sorted@.len() implies ((#[trigger] sorted@[j]).1 as int)
                < self.records@.len() && self.records@[sorted@[j].1 as int].started_at
                == sorted@[j].0 && rec_matches(self.records@[sorted@[j].1 as int], wfv) by {
                assert(sorted@.contains(sorted@[j]));
                let full = rec_cands(self.records@, wfv, n as int);
                assert(full.to_multiset().count(sorted@[j]) > 0);
                assert(full.contains(sorted@[j]));
                let p = choose|p: int| 0 <= p < full.len() && full[p] == sorted@[j];
            }
        }
        let take = if limit <= sorted.len() {
            limit
        } else {
            sorted.len()
        };
        let mut ids: Vec<String> = Vec::new();
        let mut j: usize = 0;
        while j < take
            invariant
                j <= take,
                ids@.len() == j,
                forall|q: int|
                    0 <= q < j ==> (#[trigger] ids@[q])@ == self.records@[sorted@[q].1 as int].id@,
            decreases take - j,
        {
            let idx = sorted[j].1;
            ids.push(self.records[idx].id.clone());
            j = j + 1;
        }
        proof {
            let ghost ord = sorted@;
            assert(sorted_desc(ord));
        }
        ids
    }

    /// Aggregate counts: the records by terminal status, and the in-flight
    /// count as the registry reports it.
    #[verifier::loop_isolation(false)]
    pub fn execution_stats(&self, running: usize) -> (s: ExecutionStats)
        ensures
            s.total as int == crate::retention::clamp64(self.records@.len() as int),
            s.completed as int == crate::retention::clamp64(
                count_status(
                    self.records@,
                    ExecutionStatus::Completed,
                    self.records@.len() as int,
                ) as int,
            ),
            s.failed as int == crate::retention::clamp64(
                count_status(
                    self.records@,
                    ExecutionStatus::Failed,
                    self.records@.len() as int,
                ) as int,
            ),
            s.running as int == crate::retention::clamp64(running as int),
    {
        let n = self.records.len();
        let mut completed: u64 = 0;
        let mut failed: u64 = 0;
        let mut i: usize = 0;
        while i < n
            invariant
                i <= n,
                n == self.records@.len(),
                completed as nat == count_status(self.records@, ExecutionStatus::Completed, i as int),
                failed as nat == count_status(self.records@, ExecutionStatus::Failed, i as int),
                completed <= i,
                failed <= i,
            decreases n - i,
        {
            match self.records[i].status {
                ExecutionStatus::Completed => {
                    completed = completed + 1;
                },
                ExecutionStatus::Failed => {
                    failed = failed + 1;
                },
                _ => {
                },
            }
            i = i + 1;
        }
        let total: i64 = if n as u64 > i64::MAX as u64 {
            i64::MAX
        } else {
            n as i64
        };
        let completed64: i64 = if completed > i64::MAX as u64 {
            i64::MAX
        } else {
            completed as i64
        };
        let failed64: i64 = if failed > i64::MAX as u64 {
            i64::MAX
        } else {
            failed as i64
        };
        let running64: i64 = if running as u64 > i64::MAX as u64 {
            i64::MAX
        } else {
            running as i64
        };
        ExecutionStats { total, completed: completed64, failed: failed64, running: running64 }
    }
}

} // verus!
