//! The run registry: the table of in-flight runs, each with its own
//! cancellation switch. Cancelling twice changes nothing beyond the first
//! call.

use vstd::prelude::*;

verus! {

/// The in-memory state of one in-flight run.
#[derive(Debug)]
pub struct ExecutionContext {
    pub id: String,
    pub workflow_id: String,
    pub cancelled: bool,
    pub started_at: i64,
}

/// The table of in-flight runs.
#[derive(Debug)]
pub struct ExecutionManager {
    pub running: Vec<ExecutionContext>,
}

/// The index of the first context with the given run id; -1 when absent.
pub open spec fn ctx_idx(s: Seq<ExecutionContext>, id: Seq<char>) -> int
    decreases s.len(),
{
    if s.len() == 0 {
        -1
    } else if s[0].id@ == id {
        0
    } else {
        let r = ctx_idx(s.subrange(1, s.len() as int), id);
        if r < 0 {
            -1
        } else {
            r + 1
        }
    }
}

/// `ctx_idx` finds a context carrying the id, or there is none.
pub proof fn lemma_ctx_idx(s: Seq<ExecutionContext>, id: Seq<char>)
    ensures
        ctx_idx(s, id) >= 0 ==> ctx_idx(s, id) < s.len() && s[ctx_idx(s, id)].id@ == id,
        ctx_idx(s, id) < 0 ==> forall|j: int| 0 <= j < s.len() ==> s[j].id@ != id,
    decreases s.len(),
{
    if s.len() > 0 && s[0].id@ != id {
        let tail = s.subrange(1, s.len() as int);
        lemma_ctx_idx(tail, id);
        assert forall|j: int| 1 <= j < s.len() implies s[j].id@ == tail[j - 1].id@ by {
            assert(tail[j - 1] == s[j]);
        }
    }
}

/// One context after a cancellation aimed at `id`.
pub open spec fn cancel_one(c: ExecutionContext, id: Seq<char>) -> ExecutionContext {
    if c.id@ == id {
        ExecutionContext { cancelled: true, ..c }
    } else {
        c
    }
}

/// The whole table after a cancellation aimed at `id`.
pub open spec fn cancel_spec(s: Seq<ExecutionContext>, id: Seq<char>) -> Seq<ExecutionContext> {
    Seq::new(s.len(), |i: int| cancel_one(s[i], id))
}

/// Cancelling a run twice is the same as cancelling it once, and a
/// cancellation aimed at one run touches no other entry.
pub proof fn lemma_cancel_idempotent(s: Seq<ExecutionContext>, id: Seq<char>)
    ensures
        cancel_spec(cancel_spec(s, id), id) == cancel_spec(s, id),
        forall|i: int|
            0 <= i < s.len() && s[i].id@ != id ==> cancel_spec(s, id)[i] == #[trigger] s[i],
{
    assert(cancel_spec(cancel_spec(s, id), id) =~= cancel_spec(s, id));
}

impl ExecutionManager {
    /// The table's well-formedness: one context per run id.
    pub open spec fn wf(self) -> bool {
        forall|a: int, b: int|
            0 <= a < b < self.running@.len() ==> (#[trigger] self.running@[a].id@) != (
            #[trigger] self.running@[b].id@)
    }

    /// An empty table.
    pub fn new() -> (m: ExecutionManager)
        ensures
            m.running@.len() == 0,
            m.wf(),
    {
        ExecutionManager { running: Vec::new() }
    }

    /// Registers a run: a fresh context with its switch unset; registering
    /// an id again overwrites the old context.
    #[verifier::loop_isolation(false)]
    pub fn register(&mut self, id: String, workflow_id: String, now_ms: i64)
        requires
            old(self).wf(),
        ensures
            final(self).wf(),
            ctx_idx(final(self).running@, id@) >= 0,
            ({
                let c = final(self).running@[ctx_idx(final(self).running@, id@)];
                c.id@ == id@ && c.workflow_id@ == workflow_id@ && !c.cancelled && c.started_at
                    == now_ms
            }),
            forall|j: int|
                0 <= j < final(self).running@.len() && (#[trigger] final(self).running@[j].id@)
                    != id@ ==> exists|k: int|
                    0 <= k < old(self).running@.len() && old(self).running@[k]
                        == final(self).running@[j],
    {
        let fresh = ExecutionContext { id: id.clone(), workflow_id, cancelled: false, started_at: now_ms };
        let n = self.running.len();
        let mut i: usize = 0;
        while i < n
            invariant
                i <= n,
                n == self.running@.len(),
                self.running@ == old(self).running@,
                forall|j: int| 0 <= j < i ==> (#[trigger] self.running@[j].id@) != id@,
            decreases n - i,
        {
            if self.running[i].id.eq(&id) {
                self.running.set(i, fresh);
                proof {
                    lemma_ctx_idx_first(self.running@, id@, i as int);
                    assert forall|j: int|
                        0 <= j < self.running@.len() && (#[trigger] self.running@[j].id@)
                            != id@ implies exists|k: int|
                        0 <= k < old(self).running@.len() && old(self).running@[k]
                            == self.running@[j] by {
                        assert(self.running@[j] == old(self).running@[j]);
                    }
                }
                return ;
            }
            i = i + 1;
        }
        self.running.push(fresh);
        proof {
            lemma_ctx_idx_first(self.running@, id@, n as int);
            assert forall|j: int|
                0 <= j < self.running@.len() && (#[trigger] self.running@[j].id@)
                    != id@ implies exists|k: int|
                0 <= k < old(self).running@.len() && old(self).running@[k] == self.running@[j] by {
                assert(self.running@[j] == old(self).running@[j]);
            }
        }
    }

    /// Flips the cancellation switch of the run, if it is in flight, and
    /// says whether it was. A second call changes nothing more.
    #[verifier::loop_isolation(false)]
    pub fn cancel(&mut self, id: &String) -> (found: bool)
        ensures
            old(self).wf() ==> final(self).wf(),
            final(self).running@ == cancel_spec(old(self).running@, id@),
            found == (ctx_idx(old(self).running@, id@) >= 0),
    {
        proof {
            lemma_ctx_idx(self.running@, id@);
        }
        let n = self.running.len();
        let mut i: usize = 0;
        let mut found = false;
        while i < n
            invariant
                i <= n,
                n == old(self).running@.len(),
                self.running@.len() == n,
                forall|j: int|
                    0 <= j < i ==> self.running@[j] == cancel_one(
                        #[trigger] old(self).running@[j],
                        id@,
                    ),
                forall|j: int| i <= j < n ==> self.running@[j] == #[trigger] old(self).running@[j],
                found == (exists|j: int| 0 <= j < i && (#[trigger] old(self).running@[j].id@) == id@),
            decreases n - i,
        {
            if self.running[i].id.eq(id) {
                let c = &self.running[i];
                let updated = ExecutionContext {
                    id: c.id.clone(),
                    workflow_id: c.workflow_id.clone(),
                    cancelled: true,
                    started_at: c.started_at,
                };
                proof {
                    assert(updated == cancel_one(old(self).running@[i as int], id@));
                }
                self.running.set(i, updated);
                found = true;
            }
            i = i + 1;
        }
        proof {
            assert(self.running@ =~= cancel_spec(old(self).running@, id@));
            if found {
                let j = choose|j: int|
                    0 <= j < n && (#[trigger] old(self).running@[j].id@) == id@;
                if ctx_idx(old(self).running@, id@) < 0 {
                    lemma_ctx_idx(old(self).running@, id@);
                }
            } else {
                if ctx_idx(old(self).running@, id@) >= 0 {
                    lemma_ctx_idx(old(self).running@, id@);
                }
            }
        }
        found
    }

    /// Drops the run's entry, handing it back when it was there.
    #[verifier::loop_isolation(false)]
    pub fn remove(&mut self, id: &String) -> (r: Option<ExecutionContext>)
        ensures
            old(self).wf() ==> final(self).wf(),
            ctx_idx(old(self).running@, id@) < 0 ==> final(self).running@ == old(self).running@
                && r is None,
            ctx_idx(old(self).running@, id@) >= 0 ==> (r matches Some(c) && c == old(
                self,
            ).running@[ctx_idx(old(self).running@, id@)] && final(self).running@ == old(
                self,
            ).running@.remove(ctx_idx(old(self).running@, id@))),
    {
        let n = self.running.len();
        let mut i: usize = 0;
        while i < n
            invariant
                i <= n,
                n == self.running@.len(),
                self.running@ == old(self).running@,
                forall|j: int| 0 <= j < i ==> (#[trigger] self.running@[j].id@) != id@,
            decreases n - i,
        {
            if self.running[i].id.eq(id) {
                proof {
                    lemma_ctx_idx_first(self.running@, id@, i as int);
                }
                let c = self.running.remove(i);
                return Some(c);
            }
            i = i + 1;
        }
        proof {
            lemma_ctx_idx(self.running@, id@);
            if ctx_idx(self.running@, id@) >= 0 {
                assert(self.running@[ctx_idx(self.running@, id@)].id@ == id@);
            }
        }
        None
    }

    /// The run's context, when it is in flight.
    #[verifier::loop_isolation(false)]
    pub fn get(&self, id: &String) -> (r: Option<&ExecutionContext>)
        ensures
            ctx_idx(self.running@, id@) >= 0 ==> (r matches Some(c) && *c
                == self.running@[ctx_idx(self.running@, id@)]),
            ctx_idx(self.running@, id@) < 0 ==> r is None,
    {
        let n = self.running.len();
        let mut i: usize = 0;
        while i < n
            invariant
                i <= n,
                n == self.running@.len(),
                forall|j: int| 0 <= j < i ==> (#[trigger] self.running@[j].id@) != id@,
            decreases n - i,
        {
            if self.running[i].id.eq(id) {
                proof {
                    lemma_ctx_idx_first(self.running@, id@, i as int);
                }
                return Some(&self.running[i]);
            }
            i = i + 1;
        }
        proof {
            lemma_ctx_idx(self.running@, id@);
            if ctx_idx(self.running@, id@) >= 0 {
                assert(self.running@[ctx_idx(self.running@, id@)].id@ == id@);
            }
        }
        None
    }

    /// The ids of every in-flight run, in registration order.
    #[verifier::loop_isolation(false)]
    pub fn list_running(&self) -> (ids: Vec<String>)
        ensures
            ids@.len() == self.running@.len(),
            forall|j: int| 0 <= j < ids@.len() ==> (#[trigger] ids@[j])@ == self.running@[j].id@,
    {
        let n = self.running.len();
        let mut ids: Vec<String> = Vec::new();
        let mut i: usize = 0;
        while i < n
            invariant
                i <= n,
                n == self.running@.len(),
                ids@.len() == i,
                forall|j: int| 0 <= j < i ==> (#[trigger] ids@[j])@ == self.running@[j].id@,
            decreases n - i,
        {
            ids.push(self.running[i].id.clone());
            i = i + 1;
        }
        ids
    }

    /// How many runs are in flight.
    pub fn count(&self) -> (n: usize)
        ensures
            n == self.running@.len(),
    {
        self.running.len()
    }
}

/// `ctx_idx` returns the first match.
proof fn lemma_ctx_idx_first(s: Seq<ExecutionContext>, id: Seq<char>, k: int)
    requires
        0 <= k < s.len(),
        s[k].id@ == id,
        forall|j: int| 0 <= j < k ==> (#[trigger] s[j].id@) != id,
    ensures
        ctx_idx(s, id) == k,
    decreases k,
{
    if k > 0 {
        let tail = s.subrange(1, s.len() as int);
        assert forall|j: int| 0 <= j < k - 1 implies (#[trigger] tail[j].id@) != id by {
            assert(tail[j] == s[j + 1]);
        }
        assert(tail[k - 1] == s[k]);
        lemma_ctx_idx_first(tail, id, k - 1);
    }
}

} // verus!
