//! The retention engine: four independent criteria select snapshots for
//! deletion over one catalogue; the union is deleted unless the pass is a
//! dry run, and each selected row's stored size is counted exactly once.

use vstd::prelude::*;

use crate::models::{CleanupOptions, CleanupResult, ExecutionStatus};
use crate::store::{SnapshotStore, StoredSnapshot};

verus! {

broadcast use vstd::seq::axiom_seq_index_decreases, vstd::seq::axiom_seq_subrange_decreases, vstd::std_specs::vec::axiom_vec_decreases_to_view, vstd::std_specs::vec::axiom_spec_len;

/// The four retention criteria, stripped of the dry-run switch: cleanup's
/// outcome depends on these alone.
pub open spec fn criteria_of(o: CleanupOptions) -> (Option<i64>, Option<i64>, Option<i64>, Option<
    bool,
>) {
    (o.max_age_days, o.max_count, o.max_total_size_mb, o.failed_only)
}

/// The stored size of a row: the compressed size when present, else the
/// original size.
pub open spec fn size_of(r: StoredSnapshot) -> int {
    match r.compressed_size {
        Some(c) => c as int,
        None => r.original_size as int,
    }
}

/// Row `k` counts as more recent than row `j`: it started strictly later,
/// or at the same instant but earlier in the catalogue. This is a strict
/// total order, so "the N most recent" is a definite set even among ties.
pub open spec fn is_newer(rows: Seq<StoredSnapshot>, k: int, j: int) -> bool {
    rows[k].started_at > rows[j].started_at || (rows[k].started_at == rows[j].started_at && k < j)
}

/// How many of the first `k` rows are more recent than row `j`.
pub open spec fn count_newer(rows: Seq<StoredSnapshot>, j: int, k: int) -> nat
    decreases k,
{
    if k <= 0 {
        0
    } else {
        count_newer(rows, j, k - 1) + (if is_newer(rows, k - 1, j) {
            1nat
        } else {
            0nat
        })
    }
}

/// The total stored size of the rows among the first `k` that are more
/// recent than row `j`.
pub open spec fn newer_size(rows: Seq<StoredSnapshot>, j: int, k: int) -> int
    decreases k,
{
    if k <= 0 {
        0
    } else {
        newer_size(rows, j, k - 1) + (if is_newer(rows, k - 1, j) {
            size_of(rows[k - 1])
        } else {
            0
        })
    }
}

/// The total stored size of the first `k` rows.
pub open spec fn total_size(rows: Seq<StoredSnapshot>, k: int) -> int
    decreases k,
{
    if k <= 0 {
        0
    } else {
        total_size(rows, k - 1) + size_of(rows[k - 1])
    }
}

/// Whether row `j` is selected for deletion: it is older than the age
/// limit, or more than the count limit of rows are newer, or the catalogue
/// is over the size budget and dropping it and everything older is needed
/// to come under budget, or it failed and only failures are kept.
pub open spec fn selected(
    rows: Seq<StoredSnapshot>,
    crit: (Option<i64>, Option<i64>, Option<i64>, Option<bool>),
    now: int,
    j: int,
) -> bool {
    let n = rows.len() as int;
    ||| (crit.0 matches Some(days) && rows[j].started_at < now - days * 86400000)
    ||| (crit.1 matches Some(keep) && count_newer(rows, j, n) >= keep)
    ||| (crit.2 matches Some(mb) && total_size(rows, n) > mb * 1024 * 1024 && newer_size(rows, j, n)
        + size_of(rows[j]) > mb * 1024 * 1024)
    ||| (crit.3 == Some(true) && rows[j].status is Failed)
}

/// The ids of the selected rows among the first `k`, in catalogue order.
pub open spec fn selected_ids(
    rows: Seq<StoredSnapshot>,
    crit: (Option<i64>, Option<i64>, Option<i64>, Option<bool>),
    now: int,
    k: int,
) -> Seq<Seq<char>>
    decreases k,
{
    if k <= 0 {
        Seq::empty()
    } else {
        selected_ids(rows, crit, now, k - 1) + (if selected(rows, crit, now, k - 1) {
            seq![rows[k - 1].execution_id@]
        } else {
            Seq::empty()
        })
    }
}

/// The total stored size of the selected rows among the first `k`: what a
/// deletion pass frees, each row counted once.
pub open spec fn selected_size(
    rows: Seq<StoredSnapshot>,
    crit: (Option<i64>, Option<i64>, Option<i64>, Option<bool>),
    now: int,
    k: int,
) -> int
    decreases k,
{
    if k <= 0 {
        0
    } else {
        selected_size(rows, crit, now, k - 1) + (if selected(rows, crit, now, k - 1) {
            size_of(rows[k - 1])
        } else {
            0
        })
    }
}

/// The rows that survive from position `k` on: the unselected ones, in
/// catalogue order.
pub open spec fn kept_rows(
    rows: Seq<StoredSnapshot>,
    crit: (Option<i64>, Option<i64>, Option<i64>, Option<bool>),
    now: int,
    k: int,
) -> Seq<StoredSnapshot>
    decreases rows.len() - k,
{
    if k < 0 || k >= rows.len() {
        Seq::empty()
    } else {
        (if selected(rows, crit, now, k) {
            Seq::empty()
        } else {
            seq![rows[k]]
        }) + kept_rows(rows, crit, now, k + 1)
    }
}

/// An integer clamped into the signed 64-bit range.
pub open spec fn clamp64(x: int) -> int {
    if x > i64::MAX as int {
        i64::MAX as int
    } else if x < i64::MIN as int {
        i64::MIN as int
    } else {
        x
    }
}

/// With a keep-count of zero, every row is selected.
pub proof fn lemma_zero_count_selects_all(
    rows: Seq<StoredSnapshot>,
    crit: (Option<i64>, Option<i64>, Option<i64>, Option<bool>),
    now: int,
)
    requires
        crit.1 == Some(0i64),
    ensures
        forall|j: int| 0 <= j < rows.len() ==> selected(rows, crit, now, j),
        selected_ids(rows, crit, now, rows.len() as int).len() == rows.len(),
{
    lemma_all_selected_len(rows, crit, now, rows.len() as int);
}

/// When every row is selected, the id list has one entry per row.
proof fn lemma_all_selected_len(
    rows: Seq<StoredSnapshot>,
    crit: (Option<i64>, Option<i64>, Option<i64>, Option<bool>),
    now: int,
    k: int,
)
    requires
        0 <= k <= rows.len(),
        forall|j: int| 0 <= j < rows.len() ==> selected(rows, crit, now, j),
    ensures
        selected_ids(rows, crit, now, k).len() == k,
    decreases k,
{
    if k > 0 {
        lemma_all_selected_len(rows, crit, now, k - 1);
    }
}

/// A dry run and a real run over the same catalogue report the same
/// deletion plan: the plan depends only on the four criteria, never on the
/// dry-run switch.
pub proof fn lemma_dry_run_same_plan(
    rows: Seq<StoredSnapshot>,
    o1: CleanupOptions,
    o2: CleanupOptions,
    now: int,
)
    requires
        criteria_of(o1) == criteria_of(o2),
    ensures
        selected_ids(rows, criteria_of(o1), now, rows.len() as int) == selected_ids(
            rows,
            criteria_of(o2),
            now,
            rows.len() as int,
        ),
        selected_size(rows, criteria_of(o1), now, rows.len() as int) == selected_size(
            rows,
            criteria_of(o2),
            now,
            rows.len() as int,
        ),
{
}

/// One row's stored size, clamped into range.
fn row_size(r: &StoredSnapshot) -> (s: i64)
    ensures
        s as int == size_of(*r),
{
    match r.compressed_size {
        Some(c) => c,
        None => r.original_size,
    }
}

/// The surviving rows come from the catalogue, in order, so uniqueness of
/// run ids carries over.
proof fn lemma_kept_wf(
    rows: Seq<StoredSnapshot>,
    crit: (Option<i64>, Option<i64>, Option<i64>, Option<bool>),
    now: int,
    k: int,
)
    requires
        forall|a: int, b: int|
            0 <= a < b < rows.len() ==> (#[trigger] rows[a].execution_id@) != (
            #[trigger] rows[b].execution_id@),
    ensures
        forall|p: int|
            0 <= p < kept_rows(rows, crit, now, k).len() ==> exists|j: int|
                k <= j < rows.len() && #[trigger] kept_rows(rows, crit, now, k)[p] == rows[j],
        forall|p: int, q: int|
            0 <= p < q < kept_rows(rows, crit, now, k).len() ==> (#[trigger] kept_rows(
                rows,
                crit,
                now,
                k,
            )[p].execution_id@) != (#[trigger] kept_rows(rows, crit, now, k)[q].execution_id@),
    decreases rows.len() - k,
{
    if 0 <= k < rows.len() {
        lemma_kept_wf(rows, crit, now, k + 1);
        let cur = kept_rows(rows, crit, now, k);
        let tail = kept_rows(rows, crit, now, k + 1);
        if selected(rows, crit, now, k) {
            assert(cur =~= tail);
        } else {
            assert(cur =~= seq![rows[k]] + tail);
            assert forall|p: int| 0 <= p < cur.len() implies exists|j: int|
                k <= j < rows.len() && #[trigger] cur[p] == rows[j] by {
                if p == 0 {
                    assert(cur[0] == rows[k]);
                } else {
                    assert(cur[p] == tail[p - 1]);
                    let j = choose|j: int|
                        k + 1 <= j < rows.len() && #[trigger] tail[p - 1] == rows[j];
                }
            }
            assert forall|p: int, q: int|
                0 <= p < q < cur.len() implies (#[trigger] cur[p].execution_id@) != (
            #[trigger] cur[q].execution_id@) by {
                if p == 0 {
                    assert(cur[q] == tail[q - 1]);
                    let j = choose|j: int|
                        k + 1 <= j < rows.len() && #[trigger] tail[q - 1] == rows[j];
                    assert(rows[k].execution_id@ != rows[j].execution_id@);
                } else {
                    assert(cur[p] == tail[p - 1]);
                    assert(cur[q] == tail[q - 1]);
                }
            }
        }
    }
}

/// Applies the four retention criteria to the store's catalogue: computes
/// the deletion plan, deletes the selected snapshots unless the pass is a
/// dry run, and reports the ids and the bytes freed, each id once.
#[verifier::loop_isolation(false)]
#[verifier::rlimit(100)]
pub fn cleanup_snapshots(store: &mut SnapshotStore, options: &CleanupOptions, now_ms: i64) -> (r:
    CleanupResult)
    requires
        old(store).wf(),
    ensures
        final(store).wf(),
        ({
            let rows = old(store).rows@;
            let crit = criteria_of(*options);
            let n = rows.len() as int;
            &&& crate::resolve::segs_view(r.deleted_ids@) == selected_ids(rows, crit, now_ms as int, n)
            &&& r.freed_bytes as int == clamp64(selected_size(rows, crit, now_ms as int, n))
            &&& r.deleted_count as int == clamp64(selected_ids(rows, crit, now_ms as int, n).len() as int)
            &&& (options.dry_run == Some(true) ==> final(store).rows@ == rows)
            &&& (options.dry_run != Some(true) ==> final(store).rows@ == kept_rows(
                rows,
                crit,
                now_ms as int,
                0,
            ))
        }),
{
    let ghost rows0 = store.rows@;
    let ghost crit = criteria_of(*options);
    let n = store.rows.len();

    // evaluate the criteria per row
    let mut marked: Vec<bool> = Vec::new();
    let mut j: usize = 0;
    while j < n
        invariant
            j <= n,
            n == rows0.len(),
            store.rows@ == rows0,
            marked@.len() == j,
            forall|x: int| 0 <= x < j ==> marked@[x] == selected(rows0, crit, now_ms as int, x),
        decreases n - j,
    {
        let row_started = store.rows[j].started_at;
        // age criterion
        let by_age: bool = match options.max_age_days {
            Some(days) => {
                let cutoff: i128 = now_ms as i128 - days as i128 * 86400000i128;
                (row_started as i128) < cutoff
            },
            None => false,
        };
        // count criterion
        let by_count: bool = match options.max_count {
            Some(keep) => {
                let mut c: u64 = 0;
                let mut k: usize = 0;
                while k < n
                    invariant
                        k <= n,
                        n == rows0.len(),
                        store.rows@ == rows0,
                        c as nat == count_newer(rows0, j as int, k as int),
                        c <= k,
                    decreases n - k,
                {
                    if store.rows[k].started_at > row_started || (store.rows[k].started_at
                        == row_started && k < j) {
                        c = c + 1;
                    }
                    k = k + 1;
                }
                if keep >= 0 {
                    c >= keep as u64
                } else {
                    true
                }
            },
            None => false,
        };
        // size criterion
        let by_size: bool = match options.max_total_size_mb {
            Some(mb) => {
                let budget: i128 = mb as i128 * 1024 * 1024;
                let mut total: i128 = 0;
                let mut newer: i128 = 0;
                let mut k: usize = 0;
                while k < n
                    invariant
                        k <= n,
                        n == rows0.len(),
                        store.rows@ == rows0,
                        total as int == total_size(rows0, k as int),
                        newer as int == newer_size(rows0, j as int, k as int),
                        -(k as int) * (i64::MAX as int + 1) <= total <= (k as int) * (
                        i64::MAX as int),
                        -(k as int) * (i64::MAX as int + 1) <= newer <= (k as int) * (
                        i64::MAX as int),
                    decreases n - k,
                {
                    let sz = row_size(&store.rows[k]);
                    proof {
                        lemma_sum_step(k as int, total as int, sz as int);
                        lemma_sum_step(k as int, newer as int, sz as int);
                    }
                    total = total + sz as i128;
                    if store.rows[k].started_at > row_started || (store.rows[k].started_at
                        == row_started && k < j) {
                        newer = newer + sz as i128;
                    }
                    k = k + 1;
                }
                let own = row_size(&store.rows[j]);
                total > budget && newer + own as i128 > budget
            },
            None => false,
        };
        // failed-only criterion
        let by_failed: bool = match options.failed_only {
            Some(true) => matches!(store.rows[j].status, ExecutionStatus::Failed),
            _ => false,
        };
        marked.push(by_age || by_count || by_size || by_failed);
        j = j + 1;
    }

    // collect the plan
    let mut deleted_ids: Vec<String> = Vec::new();
    let mut freed: i128 = 0;
    let mut k: usize = 0;
    while k < n
        invariant
            k <= n,
            n == rows0.len(),
            store.rows@ == rows0,
            marked@.len() == n,
            forall|x: int| 0 <= x < n ==> marked@[x] == selected(rows0, crit, now_ms as int, x),
            crate::resolve::segs_view(deleted_ids@) == selected_ids(rows0, crit, now_ms as int, k as int),
            freed as int == selected_size(rows0, crit, now_ms as int, k as int),
            deleted_ids@.len() <= k,
            -(k as int) * (i64::MAX as int + 1) <= freed <= (k as int) * (i64::MAX as int),
        decreases n - k,
    {
        if marked[k] {
            deleted_ids.push(store.rows[k].execution_id.clone());
            let sz = row_size(&store.rows[k]);
            proof {
                lemma_sum_step(k as int, freed as int, sz as int);
            }
            freed = freed + sz as i128;
        }
        proof {
            assert(crate::resolve::segs_view(deleted_ids@) =~= selected_ids(
                rows0,
                crit,
                now_ms as int,
                k + 1,
            ));
        }
        k = k + 1;
    }

    // apply the plan
    let dry_run = match options.dry_run {
        Some(true) => true,
        _ => false,
    };
    if !dry_run {
        proof {
            assert(store.rows@ =~= rows0.subrange(0, n as int) + kept_rows(
                rows0,
                crit,
                now_ms as int,
                n as int,
            ));
        }
        let mut k2: usize = n;
        while k2 > 0
            invariant
                k2 <= n,
                n == rows0.len(),
                marked@.len() == n,
                forall|x: int| 0 <= x < n ==> marked@[x] == selected(rows0, crit, now_ms as int, x),
                store.rows@ == rows0.subrange(0, k2 as int) + kept_rows(
                    rows0,
                    crit,
                    now_ms as int,
                    k2 as int,
                ),
            decreases k2,
        {
            if marked[k2 - 1] {
                self_remove(store, k2 - 1);
                proof {
                    assert(store.rows@ =~= rows0.subrange(0, k2 - 1) + kept_rows(
                        rows0,
                        crit,
                        now_ms as int,
                        k2 - 1,
                    ));
                }
            } else {
                proof {
                    assert(store.rows@ =~= rows0.subrange(0, k2 - 1) + kept_rows(
                        rows0,
                        crit,
                        now_ms as int,
                        k2 - 1,
                    ));
                }
            }
            k2 = k2 - 1;
        }
        proof {
            assert(store.rows@ =~= kept_rows(rows0, crit, now_ms as int, 0));
            lemma_kept_wf(rows0, crit, now_ms as int, 0);
        }
    }

    let freed_bytes: i64 = if freed > i64::MAX as i128 {
        i64::MAX
    } else if freed < i64::MIN as i128 {
        i64::MIN
    } else {
        freed as i64
    };
    let count: i64 = if deleted_ids.len() as u64 > i64::MAX as u64 {
        i64::MAX
    } else {
        deleted_ids.len() as i64
    };
    CleanupResult { deleted_count: count, freed_bytes, deleted_ids }
}

/// Removes one row in place.
fn self_remove(store: &mut SnapshotStore, i: usize)
    requires
        i < old(store).rows@.len(),
    ensures
        final(store).rows@ == old(store).rows@.remove(i as int),
{
    store.rows.remove(i);
}

/// The accumulated size stays within the loop bounds.
pub proof fn lemma_sum_step(k: int, acc: int, sz: int)
    requires
        k >= 0,
        -(k * (i64::MAX as int + 1)) <= acc <= k * (i64::MAX as int),
        i64::MIN as int <= sz <= i64::MAX as int,
    ensures
        -((k + 1) * (i64::MAX as int + 1)) <= acc + sz <= (k + 1) * (i64::MAX as int),
{
    assert((k + 1) * (i64::MAX as int) == k * (i64::MAX as int) + i64::MAX as int) by (nonlinear_arith);
    assert((k + 1) * (i64::MAX as int + 1) == k * (i64::MAX as int + 1) + (i64::MAX as int
        + 1)) by (nonlinear_arith);
}

} // verus!
