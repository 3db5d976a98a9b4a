//! The cooperative single-core executor.
//!
//! The executor owns its tasks, a FIFO ready queue of woken task
//! identifiers, and the scancode queue that the keyboard interrupt handler
//! feeds. Waking marks a task woken and enqueues it once; draining the ready
//! queue polls each woken task exactly once, removes it the moment it
//! completes, and records its result. When the queue is empty the kernel may
//! halt the processor until the next interrupt; nothing is polled in between.

use vstd::prelude::*;
use crate::task::{PollOutcome, ScancodeQueue, TaskModel, TaskState, poll_task, spec_poll,
    task_model};

verus! {

/// One task owned by the executor.
#[derive(Debug)]
pub struct TaskEntry {
    pub id: u64,
    pub state: TaskState,
    /// Set between a wake and the poll it causes; a woken task sits in the
    /// ready queue exactly once, so repeated wakes collapse into one poll.
    pub woken: bool,
    /// How many times the task has been polled (saturating).
    pub polls: u64,
}

/// Mathematical view of one task entry.
pub struct EntryModel {
    pub state: TaskModel,
    pub woken: bool,
    pub polls: u64,
}

pub open spec fn entry_model(t: TaskEntry) -> EntryModel {
    EntryModel { state: task_model(t.state), woken: t.woken, polls: t.polls }
}

/// The executor's task table as a map from identifier to task model.
pub open spec fn tasks_map(s: Seq<TaskEntry>) -> Map<u64, EntryModel>
    decreases s.len(),
{
    if s.len() == 0 {
        Map::empty()
    } else {
        tasks_map(s.drop_last()).insert(s.last().id, entry_model(s.last()))
    }
}

pub open spec fn unique_ids(s: Seq<TaskEntry>) -> bool {
    forall|a: int, b: int|
        #![trigger s[a].id, s[b].id]
        0 <= a < b < s.len() ==> s[a].id != s[b].id
}

proof fn lemma_tasks_map_contains(s: Seq<TaskEntry>, id: u64)
    ensures
        tasks_map(s).contains_key(id) <==> exists|k: int|
            0 <= k < s.len() && (#[trigger] s[k]).id == id,
    decreases s.len(),
{
    if s.len() > 0 {
        lemma_tasks_map_contains(s.drop_last(), id);
        if s.last().id == id {
            assert(s[s.len() - 1].id == id);
        } else if tasks_map(s).contains_key(id) {
            let k = choose|k: int|
                0 <= k < s.drop_last().len() && (#[trigger] s.drop_last()[k]).id == id;
            assert(s[k].id == id);
        } else if exists|k: int| 0 <= k < s.len() && (#[trigger] s[k]).id == id {
            let k = choose|k: int| 0 <= k < s.len() && (#[trigger] s[k]).id == id;
            assert(k < s.len() - 1);
            assert(s.drop_last()[k].id == id);
        }
    }
}

proof fn lemma_tasks_map_index(s: Seq<TaskEntry>, k: int)
    requires
        unique_ids(s),
        0 <= k < s.len(),
    ensures
        tasks_map(s).contains_key(s[k].id),
        tasks_map(s)[s[k].id] == entry_model(s[k]),
    decreases s.len(),
{
    lemma_tasks_map_contains(s, s[k].id);
    if k < s.len() - 1 {
        assert(unique_ids(s.drop_last())) by {
            assert(forall|a: int| 0 <= a < s.len() - 1 ==> s.drop_last()[a] == s[a]);
        }
        lemma_tasks_map_index(s.drop_last(), k);
        assert(s.last().id != s[k].id);
    }
}

proof fn lemma_tasks_map_remove(s: Seq<TaskEntry>, k: int)
    requires
        unique_ids(s),
        0 <= k < s.len(),
    ensures
        tasks_map(s.remove(k)) == tasks_map(s).remove(s[k].id),
    decreases s.len(),
{
    let id = s[k].id;
    assert(unique_ids(s.drop_last())) by {
        assert(forall|a: int| 0 <= a < s.len() - 1 ==> s.drop_last()[a] == s[a]);
    }
    if k == s.len() - 1 {
        assert(s.remove(k) =~= s.drop_last());
        lemma_tasks_map_contains(s.drop_last(), id);
        assert(!tasks_map(s.drop_last()).contains_key(id)) by {
            if exists|j: int| 0 <= j < s.drop_last().len() && (#[trigger] s.drop_last()[j]).id == id {
                let j = choose|j: int|
                    0 <= j < s.drop_last().len() && (#[trigger] s.drop_last()[j]).id == id;
                assert(s[j].id == s[k].id && j < k);
                assert(false);
            }
        }
        assert(tasks_map(s).remove(id) =~= tasks_map(s.drop_last()));
    } else {
        let s2 = s.remove(k);
        assert(s2.last() == s.last());
        assert(s2.drop_last() =~= s.drop_last().remove(k));
        lemma_tasks_map_remove(s.drop_last(), k);
        assert(s.last().id != id);
        assert(tasks_map(s2) == tasks_map(s.drop_last()).remove(id).insert(
            s.last().id, entry_model(s.last())));
        assert(tasks_map(s).remove(id) =~= tasks_map(s.drop_last()).remove(id).insert(
            s.last().id, entry_model(s.last())));
    }
}

/// Effect of one wake on the task table and ready queue: a live, not yet
/// woken task is marked woken and enqueued once; any other wake (a stale
/// identifier of a completed task, or a task already woken) changes nothing.
pub open spec fn spec_wake(
    tasks: Map<u64, EntryModel>,
    queue: Seq<u64>,
    id: u64,
) -> (Map<u64, EntryModel>, Seq<u64>) {
    if tasks.contains_key(id) && !tasks[id].woken {
        (
            tasks.insert(id, EntryModel { woken: true, ..tasks[id] }),
            queue.push(id),
        )
    } else {
        (tasks, queue)
    }
}

/// LAW: waking is idempotent. A second wake of the same task before it is
/// next polled changes neither the task table nor the ready queue, so any
/// number of wakes between two polls enqueue the task exactly once and cause
/// exactly one re-poll.
pub proof fn lemma_wake_idempotent(tasks: Map<u64, EntryModel>, queue: Seq<u64>, id: u64)
    ensures
        ({
            let (t1, q1) = spec_wake(tasks, queue, id);
            spec_wake(t1, q1, id) == (t1, q1)
        }),
{
}

/// LAW: one wake of a live, unwoken task that is not yet queued puts it into
/// the ready queue exactly once: at the back, and nowhere else.
pub proof fn lemma_single_wake_single_entry(
    tasks: Map<u64, EntryModel>,
    queue: Seq<u64>,
    id: u64,
)
    requires
        tasks.contains_key(id),
        !tasks[id].woken,
        forall|qi: int| 0 <= qi < queue.len() ==> queue[qi] != id,
    ensures
        ({
            let (t1, q1) = spec_wake(tasks, queue, id);
            &&& q1.len() == queue.len() + 1
            &&& q1.last() == id
            &&& forall|qi: int| 0 <= qi < q1.len() - 1 ==> q1[qi] != id
        }),
{
}

/// LAW: in a well-formed executor the ready queue never holds a task twice,
/// so one drain of the queue polls any task at most once. Together with
/// `lemma_wake_idempotent` this bounds the polls a task gets to one per wake;
/// and `step`'s contract removes a task from the table, recording its result,
/// the moment a poll returns completion.
pub proof fn lemma_queue_holds_each_task_once(e: Executor, qi: int, qj: int)
    requires
        e.wf(),
        0 <= qi < qj < e.queue@.len(),
    ensures
        e.queue@[qi] != e.queue@[qj],
{
}

/// Saturating increment of a poll counter.
pub open spec fn sat_inc(p: u64) -> u64 {
    if p < u64::MAX {
        (p + 1) as u64
    } else {
        p
    }
}

/// A completed task and its result, in completion order.
#[derive(Clone, Copy, PartialEq, Eq, Structural, Debug)]
pub struct CompletedTask {
    pub id: u64,
    pub value: u64,
}

/// The cooperative executor.
pub struct Executor {
    pub tasks: Vec<TaskEntry>,
    pub queue: Vec<u64>,
    pub next_id: u64,
    pub scancodes: ScancodeQueue,
    pub completed: Vec<CompletedTask>,
}

impl Executor {
    /// The task table, keyed by identifier.
    pub open spec fn task_view(&self) -> Map<u64, EntryModel> {
        tasks_map(self.tasks@)
    }

    pub open spec fn wf(&self) -> bool {
        &&& unique_ids(self.tasks@)
        &&& forall|k: int| 0 <= k < self.tasks@.len()
            ==> (#[trigger] self.tasks@[k]).id < self.next_id
        &&& forall|qi: int| 0 <= qi < self.queue@.len() ==> {
            &&& self.task_view().contains_key(#[trigger] self.queue@[qi])
            &&& self.task_view()[self.queue@[qi]].woken
        }
        &&& forall|qi: int, qj: int|
            #![trigger self.queue@[qi], self.queue@[qj]]
            0 <= qi < qj < self.queue@.len() ==> self.queue@[qi] != self.queue@[qj]
        &&& forall|k: int| 0 <= k < self.tasks@.len()
            ==> ((#[trigger] self.tasks@[k]).woken ==> self.queue@.contains(self.tasks@[k].id))
    }

    /// A fresh executor with no tasks, an empty ready queue, and a scancode
    /// queue of the given capacity.
    pub fn new(scancode_capacity: usize) -> (r: Executor)
        ensures
            r.wf(),
            r.task_view() == Map::<u64, EntryModel>::empty(),
            r.queue@ == Seq::<u64>::empty(),
            r.next_id == 0,
            r.completed@ == Seq::<CompletedTask>::empty(),
            r.scancodes.items@ == Seq::<u8>::empty(),
            r.scancodes.capacity == scancode_capacity,
            r.scancodes.dropped == 0,
            r.scancodes.waker is None,
    {
        Executor {
            tasks: Vec::new(),
            queue: Vec::new(),
            next_id: 0,
            scancodes: ScancodeQueue::new(scancode_capacity),
            completed: Vec::new(),
        }
    }

    /// Registers a new task under a fresh identifier and queues it for its
    /// first poll.
    pub fn spawn(&mut self, state: TaskState) -> (id: u64)
        requires
            old(self).wf(),
            old(self).next_id < u64::MAX,
        ensures
            final(self).wf(),
            id == old(self).next_id,
            final(self).next_id == old(self).next_id + 1,
            !old(self).task_view().contains_key(id),
            final(self).task_view() == old(self).task_view().insert(
                id,
                EntryModel { state: task_model(state), woken: true, polls: 0 },
            ),
            final(self).queue@ == old(self).queue@.push(id),
            final(self).scancodes == old(self).scancodes,
            final(self).completed@ == old(self).completed@,
    {
        let id = self.next_id;
        self.next_id = self.next_id + 1;
        let entry = TaskEntry { id, state, woken: true, polls: 0 };
        proof {
            lemma_tasks_map_contains(self.tasks@, id);
        }
        self.tasks.push(entry);
        self.queue.push(id);
        proof {
            assert(self.tasks@.drop_last() =~= old(self).tasks@);
            assert(self.tasks@.last().id == id);
            assert forall|qi: int| 0 <= qi < self.queue@.len()
                implies self.task_view().contains_key(#[trigger] self.queue@[qi])
                    && self.task_view()[self.queue@[qi]].woken by {
                if qi < self.queue@.len() - 1 {
                    assert(old(self).task_view().contains_key(self.queue@[qi]));
                }
            }
            assert forall|k: int| 0 <= k < self.tasks@.len()
                && (#[trigger] self.tasks@[k]).woken
                implies self.queue@.contains(self.tasks@[k].id) by {
                if k < self.tasks@.len() - 1 {
                    assert(old(self).queue@.contains(old(self).tasks@[k].id));
                    let qi = choose|qi: int|
                        0 <= qi < old(self).queue@.len() && old(self).queue@[qi] == old(self).tasks@[k].id;
                    assert(self.queue@[qi] == self.tasks@[k].id);
                } else {
                    assert(self.queue@[self.queue@.len() - 1] == id);
                }
            }
        }
        id
    }

    /// Wakes the task with the given identifier: safe to call from interrupt
    /// context at any time. A wake of an unknown (already completed)
    /// identifier is silently ignored; a wake of an already woken task
    /// changes nothing, so wakes between polls collapse into one.
    pub fn wake_task(&mut self, id: u64)
        requires
            old(self).wf(),
        ensures
            final(self).wf(),
            ({
                let (t1, q1) = spec_wake(old(self).task_view(), old(self).queue@, id);
                final(self).task_view() == t1 && final(self).queue@ == q1
            }),
            final(self).next_id == old(self).next_id,
            final(self).scancodes == old(self).scancodes,
            final(self).completed@ == old(self).completed@,
    {
        proof {
            lemma_tasks_map_contains(self.tasks@, id);
        }
        let n = self.tasks.len();
        let mut k: usize = 0;
        while k < n
            invariant
                0 <= k <= n,
                n == self.tasks@.len(),
                self == old(self),
                self.wf(),
                forall|j: int| 0 <= j < k ==> (#[trigger] self.tasks@[j]).id != id,
            decreases n - k,
        {
            if self.tasks[k].id == id {
                self.mark_woken(k);
                return;
            }
            k = k + 1;
        }
        proof {
            assert(!self.task_view().contains_key(id));
        }
    }

    /// Marks the task at position `k` woken and enqueues it, unless it is
    /// woken (and hence queued) already.
    #[verifier::rlimit(100)]
    fn mark_woken(&mut self, k: usize)
        requires
            old(self).wf(),
            k < old(self).tasks@.len(),
        ensures
            final(self).wf(),
            ({
                let id = old(self).tasks@[k as int].id;
                let (t1, q1) = spec_wake(old(self).task_view(), old(self).queue@, id);
                final(self).task_view() == t1 && final(self).queue@ == q1
            }),
            final(self).next_id == old(self).next_id,
            final(self).scancodes == old(self).scancodes,
            final(self).completed@ == old(self).completed@,
    {
        let id = self.tasks[k].id;
        proof {
            lemma_tasks_map_index(self.tasks@, k as int);
        }
        if self.tasks[k].woken {
            return;
        }
        let ghost s0 = self.tasks@;
        let mut entry = self.tasks.remove(k);
        entry.woken = true;
        self.tasks.push(entry);
        self.queue.push(id);
        {
            {
                proof {
                    lemma_tasks_map_remove(s0, k as int);
                    assert(self.tasks@.drop_last() =~= s0.remove(k as int));
                    assert(self.tasks@.last().id == id);
                    assert(self.task_view() =~= tasks_map(s0).insert(
                        id, EntryModel { woken: true, ..tasks_map(s0)[id] }));
                    // Well-formedness of the new state.
                    assert(unique_ids(self.tasks@)) by {
                        assert(forall|a: int| 0 <= a < s0.len() - 1 && a < k
                            ==> self.tasks@[a] == s0[a]);
                        assert(forall|a: int| k <= a < s0.len() - 1
                            ==> self.tasks@[a] == s0[a + 1]);
                        assert forall|a: int, b: int| 0 <= a < b < self.tasks@.len()
                            implies (#[trigger] self.tasks@[a].id)
                                != (#[trigger] self.tasks@[b].id) by {
                            if b == self.tasks@.len() - 1 {
                                if a < k {
                                    assert(self.tasks@[a].id == s0[a].id);
                                } else {
                                    assert(self.tasks@[a].id == s0[a + 1].id);
                                }
                                assert(self.tasks@[b].id == s0[k as int].id);
                            }
                        }
                    }
                    assert forall|qi: int| 0 <= qi < self.queue@.len()
                        implies self.task_view().contains_key(#[trigger] self.queue@[qi])
                            && self.task_view()[self.queue@[qi]].woken by {
                        if qi < self.queue@.len() - 1 {
                            assert(old(self).task_view().contains_key(self.queue@[qi]));
                            assert(old(self).task_view()[self.queue@[qi]].woken);
                        }
                    }
                    assert forall|qi: int, qj: int| 0 <= qi < qj < self.queue@.len()
                        implies (#[trigger] self.queue@[qi]) != (#[trigger] self.queue@[qj]) by {
                        if qj == self.queue@.len() - 1 {
                            assert(self.queue@[qj] == id);
                            assert(old(self).queue@[qi] == self.queue@[qi]);
                            if self.queue@[qi] == id {
                                assert(old(self).task_view()[id].woken);
                                assert(false);
                            }
                        }
                    }
                    assert forall|j: int| 0 <= j < self.tasks@.len()
                        && (#[trigger] self.tasks@[j]).woken
                        implies self.queue@.contains(self.tasks@[j].id) by {
                        let tid = self.tasks@[j].id;
                        if j == self.tasks@.len() - 1 {
                            assert(self.queue@[self.queue@.len() - 1] == id);
                        } else {
                            let oj = if j < k { j } else { j + 1 };
                            assert(s0[oj].woken && s0[oj].id == tid);
                            let qi = choose|qi: int|
                                0 <= qi < old(self).queue@.len() && old(self).queue@[qi] == tid;
                            assert(self.queue@[qi] == tid);
                        }
                    }
                }
            }
        }
    }

    /// Index of the task with the given identifier, if it is still owned.
    fn find_task(&self, id: u64) -> (r: Option<usize>)
        requires
            unique_ids(self.tasks@),
        ensures
            match r {
                Some(k) => k < self.tasks@.len() && self.tasks@[k as int].id == id,
                None => !tasks_map(self.tasks@).contains_key(id),
            },
    {
        let n = self.tasks.len();
        let mut k: usize = 0;
        while k < n
            invariant
                0 <= k <= n,
                n == self.tasks@.len(),
                forall|j: int| 0 <= j < k ==> (#[trigger] self.tasks@[j]).id != id,
            decreases n - k,
        {
            if self.tasks[k].id == id {
                return Some(k);
            }
            k = k + 1;
        }
        proof {
            lemma_tasks_map_contains(self.tasks@, id);
        }
        None
    }

    /// Pops the front of the ready queue and polls that task once: the only
    /// place a task runs. A task that completes is removed from the table on
    /// the spot and its result recorded; a task that suspends is kept,
    /// unwoken, until its next wake. Returns whether anything was ready.
    #[verifier::rlimit(100)]
    pub fn step(&mut self) -> (progress: bool)
        requires
            old(self).wf(),
        ensures
            final(self).wf(),
            final(self).next_id == old(self).next_id,
            final(self).scancodes.capacity == old(self).scancodes.capacity,
            final(self).scancodes.dropped == old(self).scancodes.dropped,
            old(self).queue@.len() == 0 ==> {
                &&& !progress
                &&& *final(self) == *old(self)
            },
            old(self).queue@.len() > 0 ==> ({
                let id = old(self).queue@[0];
                let e = old(self).task_view()[id];
                let (o, m2) = spec_poll(e.state, old(self).scancodes.items@);
                &&& progress
                &&& final(self).queue@ == old(self).queue@.drop_first()
                &&& (o matches PollOutcome::Completed(value) ==> {
                    &&& final(self).task_view() == old(self).task_view().remove(id)
                    &&& final(self).completed@ == old(self).completed@.push(
                        CompletedTask { id, value })
                })
                &&& (o is Pending ==> {
                    &&& final(self).task_view() == old(self).task_view().insert(
                        id,
                        EntryModel { state: m2, woken: false, polls: sat_inc(e.polls) },
                    )
                    &&& final(self).completed@ == old(self).completed@
                })
                &&& (e.state is Keyboard ==> final(self).scancodes.items@ == Seq::<u8>::empty()
                    && final(self).scancodes.waker == Some(id))
                &&& (!(e.state is Keyboard) ==> final(self).scancodes == old(self).scancodes)
            }),
    {
        if self.queue.len() == 0 {
            return false;
        }
        let id = self.queue.remove(0);
        let found = self.find_task(id);
        let k = match found {
            Some(k) => k,
            None => {
                proof {
                    assert(old(self).task_view().contains_key(id));
                    assert(false);
                }
                return true;
            },
        };
        let ghost s0 = self.tasks@;
        proof {
            lemma_tasks_map_index(s0, k as int);
            lemma_tasks_map_remove(s0, k as int);
        }
        let mut entry = self.tasks.remove(k);
        entry.woken = false;
        entry.polls = if entry.polls < u64::MAX { entry.polls + 1 } else { entry.polls };
        let outcome = poll_task(&mut entry.state, id, &mut self.scancodes);
        proof {
            assert(unique_ids(self.tasks@)) by {
                assert(forall|a: int| 0 <= a < k ==> self.tasks@[a] == s0[a]);
                assert(forall|a: int| k <= a < self.tasks@.len() ==> self.tasks@[a] == s0[a + 1]);
            }
            assert forall|qi: int| 0 <= qi < self.queue@.len()
                implies #[trigger] self.queue@[qi] != id by {
                assert(old(self).queue@[qi + 1] != old(self).queue@[0]);
            }
        }
        match outcome {
            PollOutcome::Completed(value) => {
                self.completed.push(CompletedTask { id, value });
                proof {
                    Self::lemma_step_wf(*self, *old(self), s0, k as int, id);
                }
                true
            },
            PollOutcome::Pending => {
                self.tasks.push(entry);
                proof {
                    assert(self.tasks@.drop_last() =~= s0.remove(k as int));
                    assert(self.task_view() =~= tasks_map(s0).insert(
                        id, entry_model(self.tasks@.last())));
                    assert(self.task_view() == tasks_map(s0).insert(
                        id,
                        EntryModel {
                            state: spec_poll(entry_model(s0[k as int]).state,
                                old(self).scancodes.items@).1,
                            woken: false,
                            polls: sat_inc(s0[k as int].polls),
                        },
                    ));
                    Self::lemma_step_wf_pending(*self, *old(self), s0, k as int, id);
                }
                true
            },
        }
    }

    /// Well-formedness after a completed task is dropped from the table.
    proof fn lemma_step_wf(
        cur: Self,
        prev: Self,
        s0: Seq<TaskEntry>,
        k: int,
        id: u64,
    )
        requires
            prev.wf(),
            prev.tasks@ == s0,
            prev.queue@.len() > 0,
            prev.queue@[0] == id,
            0 <= k < s0.len(),
            s0[k].id == id,
            cur.tasks@ == s0.remove(k),
            cur.queue@ == prev.queue@.drop_first(),
            cur.next_id == prev.next_id,
        ensures
            cur.wf(),
    {
        lemma_tasks_map_remove(s0, k);
        assert(unique_ids(cur.tasks@)) by {
            assert(forall|a: int| 0 <= a < k ==> cur.tasks@[a] == s0[a]);
            assert(forall|a: int| k <= a < cur.tasks@.len()
                ==> cur.tasks@[a] == s0[a + 1]);
        }
        assert forall|qi: int| 0 <= qi < cur.queue@.len()
            implies tasks_map(cur.tasks@).contains_key(
                #[trigger] cur.queue@[qi])
                && tasks_map(cur.tasks@)[cur.queue@[qi]].woken by {
            assert(cur.queue@[qi] == prev.queue@[qi + 1]);
            assert(prev.queue@[qi + 1] != prev.queue@[0]);
        }
        assert forall|j: int| 0 <= j < cur.tasks@.len()
            && (#[trigger] cur.tasks@[j]).woken
            implies cur.queue@.contains(cur.tasks@[j].id) by {
            let oj = if j < k { j } else { j + 1 };
            let tid = s0[oj].id;
            assert(s0[oj].woken);
            assert(prev.queue@.contains(tid));
            let qi = choose|qi: int| 0 <= qi < prev.queue@.len() && prev.queue@[qi] == tid;
            assert(tid != id);
            assert(qi >= 1);
            assert(cur.queue@[qi - 1] == tid);
        }
    }

    /// Well-formedness after a suspended task is put back, unwoken.
    proof fn lemma_step_wf_pending(
        cur: Self,
        prev: Self,
        s0: Seq<TaskEntry>,
        k: int,
        id: u64,
    )
        requires
            prev.wf(),
            prev.tasks@ == s0,
            prev.queue@.len() > 0,
            prev.queue@[0] == id,
            0 <= k < s0.len(),
            s0[k].id == id,
            cur.tasks@.len() == s0.len(),
            cur.tasks@.drop_last() == s0.remove(k),
            cur.tasks@.last().id == id,
            !cur.tasks@.last().woken,
            cur.queue@ == prev.queue@.drop_first(),
            cur.next_id == prev.next_id,
        ensures
            cur.wf(),
    {
        lemma_tasks_map_remove(s0, k);
        s0.remove_ensures(k);
        assert forall|a: int| 0 <= a < k implies cur.tasks@[a] == s0[a] by {
            assert(s0.remove(k)[a] == s0[a]);
            assert(cur.tasks@.drop_last()[a] == cur.tasks@[a]);
        }
        assert forall|a: int| k <= a < s0.len() - 1 implies cur.tasks@[a] == s0[a + 1] by {
            assert(s0.remove(k)[a] == s0[a + 1]);
            assert(cur.tasks@.drop_last()[a] == cur.tasks@[a]);
        }
        assert forall|a: int, b: int| 0 <= a < b < cur.tasks@.len()
            implies (#[trigger] cur.tasks@[a].id) != (#[trigger] cur.tasks@[b].id) by {
            let oa = if a < k { a } else { a + 1 };
            if b == cur.tasks@.len() - 1 {
                assert(cur.tasks@[a].id == s0[oa].id);
                assert(cur.tasks@[b].id == s0[k].id);
                assert(s0[oa].id != s0[k].id);
            } else {
                let ob = if b < k { b } else { b + 1 };
                assert(cur.tasks@[a].id == s0[oa].id);
                assert(cur.tasks@[b].id == s0[ob].id);
                assert(s0[oa].id != s0[ob].id);
            }
        }
        assert(unique_ids(cur.tasks@));
        assert forall|j: int| 0 <= j < cur.tasks@.len()
            implies (#[trigger] cur.tasks@[j]).id < cur.next_id by {
            let oj = if j < k { j } else if j < cur.tasks@.len() - 1 { j + 1 } else { k };
            assert(cur.tasks@[j].id == s0[oj].id);
        }
        assert forall|qi: int, qj: int| 0 <= qi < qj < cur.queue@.len()
            implies (#[trigger] cur.queue@[qi]) != (#[trigger] cur.queue@[qj]) by {
            assert(cur.queue@[qi] == prev.queue@[qi + 1]);
            assert(cur.queue@[qj] == prev.queue@[qj + 1]);
        }
        assert(tasks_map(cur.tasks@) == tasks_map(s0.remove(k)).insert(
            id, entry_model(cur.tasks@.last())));
        assert forall|qi: int| 0 <= qi < cur.queue@.len()
            implies tasks_map(cur.tasks@).contains_key(
                #[trigger] cur.queue@[qi])
                && tasks_map(cur.tasks@)[cur.queue@[qi]].woken by {
            assert(cur.queue@[qi] == prev.queue@[qi + 1]);
            assert(prev.queue@[qi + 1] != prev.queue@[0]);
            assert(tasks_map(s0).contains_key(cur.queue@[qi]));
        }
        assert forall|j: int| 0 <= j < cur.tasks@.len()
            && (#[trigger] cur.tasks@[j]).woken
            implies cur.queue@.contains(cur.tasks@[j].id) by {
            assert(j < cur.tasks@.len() - 1);
            let oj = if j < k { j } else { j + 1 };
            let tid = s0[oj].id;
            assert(s0[oj].woken);
            assert(prev.queue@.contains(tid));
            let qi = choose|qi: int| 0 <= qi < prev.queue@.len() && prev.queue@[qi] == tid;
            assert(tid != id);
            assert(qi >= 1);
            assert(cur.queue@[qi - 1] == tid);
        }
    }

    /// Drains the ready queue: polls every woken task once, in wake order,
    /// until nothing is ready. Afterwards the kernel may halt the processor;
    /// the next interrupt wakes it and refills the queue.
    pub fn run_ready_tasks(&mut self)
        requires
            old(self).wf(),
        ensures
            final(self).wf(),
            final(self).queue@.len() == 0,
            final(self).next_id == old(self).next_id,
            final(self).scancodes.capacity == old(self).scancodes.capacity,
            final(self).scancodes.dropped == old(self).scancodes.dropped,
            old(self).completed@.is_prefix_of(final(self).completed@),
    {
        while self.queue.len() > 0
            invariant
                self.wf(),
                self.next_id == old(self).next_id,
                self.scancodes.capacity == old(self).scancodes.capacity,
                self.scancodes.dropped == old(self).scancodes.dropped,
                old(self).completed@.is_prefix_of(self.completed@),
            decreases self.queue@.len(),
        {
            let ghost before = self.completed@;
            let _made_progress = self.step();
            proof {
                assert(before.is_prefix_of(self.completed@)) by {
                    assert(self.completed@.take(before.len() as int) =~= before);
                }
                assert(old(self).completed@.is_prefix_of(self.completed@)) by {
                    assert(self.completed@.take(old(self).completed@.len() as int)
                        =~= old(self).completed@);
                }
            }
        }
    }

    /// The keyboard interrupt handler's entry point: stages one scancode
    /// (dropping it, counted, if the queue is full) and wakes the task whose
    /// waker is registered with the queue, if any.
    pub fn add_scancode(&mut self, scancode: u8)
        requires
            old(self).wf(),
        ensures
            final(self).wf(),
            final(self).scancodes.capacity == old(self).scancodes.capacity,
            final(self).scancodes.waker == old(self).scancodes.waker,
            old(self).scancodes.items@.len() < old(self).scancodes.capacity ==> {
                &&& final(self).scancodes.items@ == old(self).scancodes.items@.push(scancode)
                &&& final(self).scancodes.dropped == old(self).scancodes.dropped
            },
            old(self).scancodes.items@.len() >= old(self).scancodes.capacity ==> {
                &&& final(self).scancodes.items@ == old(self).scancodes.items@
                &&& final(self).scancodes.dropped == if old(self).scancodes.dropped < u64::MAX {
                    old(self).scancodes.dropped + 1
                } else {
                    old(self).scancodes.dropped as int
                }
            },
            ({
                let woken = match old(self).scancodes.waker {
                    Some(wid) => spec_wake(old(self).task_view(), old(self).queue@, wid),
                    None => (old(self).task_view(), old(self).queue@),
                };
                final(self).task_view() == woken.0 && final(self).queue@ == woken.1
            }),
            final(self).next_id == old(self).next_id,
            final(self).completed@ == old(self).completed@,
    {
        self.scancodes.push(scancode);
        let waker = self.scancodes.waker;
        match waker {
            Some(wid) => self.wake_task(wid),
            None => {},
        }
    }
}

} // verus!
