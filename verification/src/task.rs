//! Cooperative tasks and the interrupt-fed scancode queue.
//!
//! A task is an explicit state machine with a single `poll` step that either
//! completes with a value or suspends, leaving its waker registered with
//! whatever will produce its input. The scancode queue is the staging buffer
//! between the keyboard interrupt handler and the keyboard task: its
//! producer side never blocks, dropping (and counting) events on overflow.

use vstd::prelude::*;

verus! {

/// What one poll of a task yields.
#[derive(Clone, Copy, PartialEq, Eq, Structural, Debug)]
pub enum PollOutcome {
    Pending,
    Completed(u64),
}

/// The state machine of one cooperative task.
#[derive(Debug)]
pub enum TaskState {
    /// Completes with its value the first time it is polled.
    Ready { value: u64 },
    /// Suspends on its first poll, waiting for one external wake; completes
    /// with its value on the poll after that.
    AwaitWake { value: u64, polled: bool },
    /// Drains the scancode queue into its buffer on every poll and suspends
    /// again, its waker registered with the queue; never completes.
    Keyboard { received: Vec<u8> },
}

/// Mathematical view of a task state.
pub enum TaskModel {
    Ready { value: u64 },
    AwaitWake { value: u64, polled: bool },
    Keyboard { received: Seq<u8> },
}

pub open spec fn task_model(state: TaskState) -> TaskModel {
    match state {
        TaskState::Ready { value } => TaskModel::Ready { value },
        TaskState::AwaitWake { value, polled } => TaskModel::AwaitWake { value, polled },
        TaskState::Keyboard { received } => TaskModel::Keyboard { received: received@ },
    }
}

/// Outcome and successor state of polling a task whose input queue currently
/// holds `items`.
pub open spec fn spec_poll(m: TaskModel, items: Seq<u8>) -> (PollOutcome, TaskModel) {
    match m {
        TaskModel::Ready { value } => (PollOutcome::Completed(value), m),
        TaskModel::AwaitWake { value, polled } => if polled {
            (PollOutcome::Completed(value), m)
        } else {
            (PollOutcome::Pending, TaskModel::AwaitWake { value, polled: true })
        },
        TaskModel::Keyboard { received } => (
            PollOutcome::Pending,
            TaskModel::Keyboard { received: received + items },
        ),
    }
}

/// The bounded staging queue filled by the keyboard interrupt handler and
/// drained by the keyboard task.
pub struct ScancodeQueue {
    pub items: Vec<u8>,
    pub capacity: usize,
    /// How many events were dropped because the queue was full (saturating).
    pub dropped: u64,
    /// The task to wake when a new event arrives.
    pub waker: Option<u64>,
}

impl ScancodeQueue {
    pub fn new(capacity: usize) -> (r: ScancodeQueue)
        ensures
            r.items@ == Seq::<u8>::empty(),
            r.capacity == capacity,
            r.dropped == 0,
            r.waker is None,
    {
        ScancodeQueue { items: Vec::new(), capacity, dropped: 0, waker: None }
    }

    /// Producer side, safe for interrupt context: never blocks and never
    /// fails. A new event is appended if the queue has room; otherwise it is
    /// dropped and the drop counter advances (saturating), so overflow stays
    /// observable without ever faulting the handler.
    pub fn push(&mut self, scancode: u8)
        ensures
            final(self).capacity == old(self).capacity,
            final(self).waker == old(self).waker,
            old(self).items@.len() < old(self).capacity ==> {
                &&& final(self).items@ == old(self).items@.push(scancode)
                &&& final(self).dropped == old(self).dropped
            },
            old(self).items@.len() >= old(self).capacity ==> {
                &&& final(self).items@ == old(self).items@
                &&& final(self).dropped == if old(self).dropped < u64::MAX {
                    old(self).dropped + 1
                } else {
                    old(self).dropped as int
                }
            },
    {
        if self.items.len() < self.capacity {
            self.items.push(scancode);
        } else {
            if self.dropped < u64::MAX {
                self.dropped = self.dropped + 1;
            }
        }
    }
}

/// Polls one task: runs its state machine one step against the scancode
/// queue. A keyboard task drains the queue and leaves its waker registered
/// there; every other task leaves the queue untouched.
pub fn poll_task(state: &mut TaskState, id: u64, scancodes: &mut ScancodeQueue) -> (r: PollOutcome)
    ensures
        ({
            let (o, m2) = spec_poll(task_model(*old(state)), old(scancodes).items@);
            &&& r == o
            &&& task_model(*final(state)) == m2
        }),
        task_model(*old(state)) is Keyboard ==> {
            &&& final(scancodes).items@ == Seq::<u8>::empty()
            &&& final(scancodes).waker == Some(id)
            &&& final(scancodes).capacity == old(scancodes).capacity
            &&& final(scancodes).dropped == old(scancodes).dropped
        },
        !(task_model(*old(state)) is Keyboard) ==> *final(scancodes) == *old(scancodes),
{
    match state {
        TaskState::Ready { value } => PollOutcome::Completed(*value),
        TaskState::AwaitWake { value, polled } => {
            if *polled {
                PollOutcome::Completed(*value)
            } else {
                *polled = true;
                PollOutcome::Pending
            }
        },
        TaskState::Keyboard { received } => {
            let ghost recv0 = received@;
            let ghost items0 = scancodes.items@;
            while scancodes.items.len() > 0
                invariant
                    received@ + scancodes.items@ == recv0 + items0,
                    scancodes.capacity == old(scancodes).capacity,
                    scancodes.dropped == old(scancodes).dropped,
                    scancodes.waker == old(scancodes).waker,
                decreases scancodes.items@.len(),
            {
                let sc = scancodes.items.remove(0);
                received.push(sc);
                proof {
                    assert(received@ + scancodes.items@ =~= recv0 + items0);
                }
            }
            scancodes.waker = Some(id);
            proof {
                assert(scancodes.items@ =~= Seq::<u8>::empty());
                assert(received@ =~= received@ + scancodes.items@);
                assert(received@ == recv0 + items0);
            }
            PollOutcome::Pending
        },
    }
}

} // verus!
