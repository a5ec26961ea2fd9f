//! The storage service's task protocol: every disk operation that could
//! block the event-loop thread becomes a task in a bounded queue, the
//! background worker moves it through its states, and completions are
//! drained back in bounded batches. The state machine is verified here;
//! performing the actual disk work belongs to the unverified runner that
//! drives it.

use vstd::prelude::*;

use crate::stream::StreamError;

verus! {

/// Where segment data lives.
pub enum StorageType {
    File,
    Object,
}

/// What a background task does.
pub enum TaskKind {
    /// Open, extend and map a new segment file.
    Create,
    /// Fault a byte range in.
    Read,
    /// Flush a mapped region.
    Sync,
    /// Drain everything and stop the worker.
    Shutdown,
}

/// Where a task stands.
#[derive(PartialEq, Eq, Structural)]
pub enum TaskState {
    Queued,
    InProgress,
    Completed,
    Failed,
}

/// One background task: what to do and how far it has come.
pub struct Task {
    pub kind: TaskKind,
    pub state: TaskState,
}

/// The verified core of the background storage service: a bounded queue
/// of submitted tasks, the one task in progress, and completed tasks
/// waiting to be drained. Submission past the backlog limit fails with
/// `WouldBlock` instead of growing without bound; draining is capped per
/// call so it never monopolises the event loop; shutdown refuses new work.
pub struct StorageService {
    pub backlog_limit: usize,
    pub queue: Vec<Task>,
    pub current: Option<Task>,
    pub completed: Vec<Task>,
    pub shutting_down: bool,
}

impl StorageService {
    /// Tasks per `poll` call, so draining never monopolises the caller.
    pub open spec fn drain_cap() -> int {
        1024
    }

    /// Every queued task is `Queued`, the current one `InProgress`, and
    /// every drained one `Completed` or `Failed`.
    pub open spec fn wf(&self) -> bool {
        &&& forall|i: int|
            0 <= i < self.queue@.len() ==> (#[trigger] self.queue@[i]).state == TaskState::Queued
        &&& self.current matches Some(t) ==> t.state == TaskState::InProgress
        &&& forall|i: int|
            0 <= i < self.completed@.len() ==> ((#[trigger] self.completed@[i]).state
                == TaskState::Completed || self.completed@[i].state == TaskState::Failed)
        &&& self.queue@.len() <= self.backlog_limit
    }

    /// A stopped service with an empty backlog.
    pub fn start(backlog_limit: usize) -> (r: StorageService)
        ensures
            r.wf(),
            r.backlog_limit == backlog_limit,
            r.queue@.len() == 0,
            r.completed@.len() == 0,
            r.current is None,
            !r.shutting_down,
    {
        StorageService {
            backlog_limit,
            queue: Vec::new(),
            current: None,
            completed: Vec::new(),
            shutting_down: false,
        }
    }

    /// Submit a task. A full backlog pushes back with `WouldBlock`; a
    /// service that is shutting down refuses with `NotExists`. Accepted
    /// tasks join the queue in submission order.
    pub fn submit(&mut self, kind: TaskKind) -> (r: Result<(), StreamError>)
        requires
            old(self).wf(),
        ensures
            final(self).wf(),
            old(self).shutting_down ==> (r == Err::<(), _>(StreamError::NotExists)
                && *final(self) == *old(self)),
            !old(self).shutting_down && old(self).queue@.len() >= old(self).backlog_limit ==> (r
                == Err::<(), _>(StreamError::WouldBlock) && *final(self) == *old(self)),
            !old(self).shutting_down && old(self).queue@.len() < old(self).backlog_limit ==> (r
                is Ok && final(self).queue@.len() == old(self).queue@.len() + 1
                && final(self).queue@.last().kind == kind
                && final(self).queue@.take(old(self).queue@.len() as int) == old(self).queue@),
    {
        if self.shutting_down {
            return Err(StreamError::NotExists);
        }
        if self.queue.len() >= self.backlog_limit {
            return Err(StreamError::WouldBlock);
        }
        let ghost before = self.queue@;
        self.queue.push(Task { kind, state: TaskState::Queued });
        proof {
            assert(self.queue@.take(before.len() as int) =~= before);
        }
        Ok(())
    }

    /// The background worker takes the oldest queued task, in submission
    /// order, and marks it in progress. Nothing to do when one is already
    /// running or the queue is empty.
    pub fn take_next(&mut self) -> (r: bool)
        requires
            old(self).wf(),
            old(self).current is None,
        ensures
            final(self).wf(),
            r == (old(self).queue@.len() > 0),
            r ==> (final(self).queue@ == old(self).queue@.skip(1)
                && (final(self).current matches Some(t) && t.kind == old(self).queue@[0].kind)),
            !r ==> *final(self) == *old(self),
    {
        if self.queue.len() == 0 {
            return false;
        }
        let t = self.queue.remove(0);
        self.current = Some(Task { kind: t.kind, state: TaskState::InProgress });
        proof {
            assert(self.queue@ =~= old(self).queue@.skip(1));
        }
        true
    }

    /// The worker reports the running task done or failed; it joins the
    /// completed batch for the event loop to drain.
    pub fn finish_current(&mut self, ok: bool)
        requires
            old(self).wf(),
            old(self).current is Some,
        ensures
            final(self).wf(),
            final(self).current is None,
            final(self).completed@.len() == old(self).completed@.len() + 1,
            final(self).completed@.last().state == (if ok {
                TaskState::Completed
            } else {
                TaskState::Failed
            }),
            final(self).queue@ == old(self).queue@,
    {
        let kind = match &self.current {
            Some(t) => match t.kind {
                TaskKind::Create => TaskKind::Create,
                TaskKind::Read => TaskKind::Read,
                TaskKind::Sync => TaskKind::Sync,
                TaskKind::Shutdown => TaskKind::Shutdown,
            },
            None => TaskKind::Sync,
        };
        self.current = None;
        self.completed.push(
            Task {
                kind,
                state: if ok {
                    TaskState::Completed
                } else {
                    TaskState::Failed
                },
            },
        );
    }

    /// Drain completed tasks, oldest first, at most a fixed batch per
    /// call; returns how many were handed back.
    pub fn poll(&mut self) -> (r: Vec<Task>)
        requires
            old(self).wf(),
        ensures
            final(self).wf(),
            r@.len() <= Self::drain_cap(),
            r@.len() == if old(self).completed@.len() <= Self::drain_cap() {
                old(self).completed@.len() as int
            } else {
                Self::drain_cap()
            },
            r@ == old(self).completed@.take(r@.len() as int),
            final(self).completed@ == old(self).completed@.skip(r@.len() as int),
            final(self).queue@ == old(self).queue@,
            final(self).current == old(self).current,
    {
        let mut out: Vec<Task> = Vec::new();
        let mut n: usize = 0;
        let ghost before = self.completed@;
        while n < 1024 && self.completed.len() > 0
            invariant
                self.wf(),
                n <= 1024,
                n == out@.len(),
                before =~= out@ + self.completed@,
                out@ =~= before.take(n as int),
                self.queue@ == old(self).queue@,
                self.current == old(self).current,
                self.backlog_limit == old(self).backlog_limit,
                self.shutting_down == old(self).shutting_down,
            decreases 1024 - n,
        {
            let t = self.completed.remove(0);
            out.push(t);
            proof {
                assert(before =~= out@ + self.completed@);
                assert(out@ =~= before.take(n + 1));
            }
            n = n + 1;
        }
        proof {
            assert(self.completed@ =~= before.skip(n as int));
        }
        out
    }

    /// Begin shutdown: no new work is accepted; the worker must drain the
    /// queue and flush before it stops.
    pub fn shutdown(&mut self)
        requires
            old(self).wf(),
        ensures
            final(self).wf(),
            final(self).shutting_down,
            final(self).queue@ == old(self).queue@,
            final(self).completed@ == old(self).completed@,
            final(self).current == old(self).current,
    {
        self.shutting_down = true;
    }
}

/// Moves sealed segments into archival storage once they become
/// immutable; a future tier whose protocol stays outside this crate.
pub struct ArchiveService {}

} // verus!
