//! The batched durability subsystem.
//!
//! A [`FSyncManager`] owns a three-state lifecycle: it starts uninitialised
//! with a thread cap, moves to running when the first batch is requested,
//! and ends shut down, after which no further batch can be issued. A
//! [`FSyncBatch`] counts durability operations: each enqueue raises the
//! outstanding count by one, each acknowledgement lowers it by one, and
//! waiting succeeds exactly when every enqueued operation has been
//! acknowledged.
//!
//! For the in-memory backing, durability is a no-op and completes
//! synchronously. A threaded host runtime drives the same state machine
//! from outside the verified core: [`initial_spawn_budget`],
//! [`initial_spawn_status`] and [`should_spawn`] decide when a worker pool
//! under observed queue pressure may grow.

use vstd::prelude::*;
use crate::memory::MemoryFile;

verus! {

/// The host's I/O error type, carried through unread so that durability
/// failures reported by an on-disk runtime stay lossless.
#[verifier::external_type_specification]
#[verifier::external_body]
pub struct ExIoError(std::io::Error);

/// An error of the durability subsystem.
#[derive(Debug)]
pub enum FSyncError {
    /// The manager was shut down; no new batch can be issued.
    Shutdown,
    /// A worker thread could not be joined.
    ThreadJoin,
    /// A worker left the subsystem's shared state inconsistent.
    InternalInconsistency,
    /// A durability call failed with a host I/O error.
    Io(std::io::Error),
}

impl FSyncError {
    /// Whether this is the shutdown-kind error.
    pub fn is_shutdown(&self) -> (r: bool)
        ensures
            r == (self is Shutdown),
    {
        match self {
            FSyncError::Shutdown => true,
            _ => false,
        }
    }
}

/// The lifecycle of the worker pool.
pub enum ThreadState {
    /// No worker exists yet; the cap on worker threads is recorded.
    Uninitialized { maximum_threads: usize },
    /// The pool has been started by the first batch.
    Running,
    /// The pool is terminally shut down.
    Shutdown,
}

/// The process-wide durability manager: a lazily started worker pool.
///
/// Transitions are `Uninitialized -> Running` (on the first batch) and
/// `Running -> Shutdown` or `Uninitialized -> Shutdown` (on an explicit
/// shutdown); `Shutdown` is terminal.
pub struct FSyncManager {
    state: ThreadState,
}

impl FSyncManager {
    /// The current lifecycle state.
    pub closed spec fn thread_state(&self) -> ThreadState {
        self.state
    }

    /// A fresh manager that will start at most `maximum_threads` workers.
    pub fn new(maximum_threads: usize) -> (r: Self)
        ensures
            r.thread_state() == (ThreadState::Uninitialized { maximum_threads }),
    {
        FSyncManager { state: ThreadState::Uninitialized { maximum_threads } }
    }

    /// Bring the subsystem to its terminal state. After this call no new
    /// batch can be issued.
    pub fn shutdown(&mut self) -> (r: Result<(), FSyncError>)
        ensures
            r.is_ok(),
            final(self).thread_state() is Shutdown,
    {
        self.state = ThreadState::Shutdown;
        Ok(())
    }

    /// A fresh, empty batch bound to this manager. The first batch moves the
    /// manager from uninitialised to running; a shut-down manager rejects
    /// the request with the shutdown-kind error.
    pub fn new_batch(&mut self) -> (r: Result<FSyncBatch, FSyncError>)
        ensures
            match r {
                Ok(batch) => {
                    &&& !(old(self).thread_state() is Shutdown)
                    &&& final(self).thread_state() is Running
                    &&& batch.inv()
                    &&& batch.queued() == 0
                    &&& batch.completed() == 0
                    &&& batch.pending() == 0
                },
                Err(e) => {
                    &&& old(self).thread_state() is Shutdown
                    &&& final(self).thread_state() is Shutdown
                    &&& e is Shutdown
                },
            },
    {
        match self.state {
            ThreadState::Shutdown => Err(FSyncError::Shutdown),
            _ => {
                self.state = ThreadState::Running;
                Ok(FSyncBatch { outstanding: 0, queued: Ghost(0), completed: Ghost(0) })
            },
        }
    }
}

impl Default for FSyncManager {
    /// A manager with the fallback thread cap. An embedder that knows the
    /// host's available parallelism passes it to [`FSyncManager::new`]
    /// instead.
    fn default() -> (r: Self)
        ensures
            r.thread_state() == (ThreadState::Uninitialized { maximum_threads: 4usize }),
    {
        FSyncManager::new(4)
    }
}

/// The spawn budget the first worker inherits: one below the cap, since the
/// first worker itself counts against it.
pub fn initial_spawn_budget(maximum_threads: usize) -> (r: usize)
    ensures
        r == if maximum_threads > 0 {
            maximum_threads - 1
        } else {
            0
        },
{
    if maximum_threads > 0 {
        maximum_threads - 1
    } else {
        0
    }
}

/// The spawn budget a newly spawned sibling inherits: one below the
/// spawning worker's budget, since the sibling itself takes a slot. This is
/// what keeps the pool bounded by the original cap.
pub fn child_spawn_budget(threads_to_spawn: usize) -> (r: usize)
    ensures
        r == if threads_to_spawn > 0 {
            threads_to_spawn - 1
        } else {
            0
        },
{
    if threads_to_spawn > 0 {
        threads_to_spawn - 1
    } else {
        0
    }
}

/// A worker's licence to grow the pool: it may spawn one sibling, and only
/// while budget remains.
pub enum SpawnStatus {
    /// Budget remains and this worker has not spawned yet.
    CanSpawn,
    /// This worker has used its one spawn slot.
    Spawned,
    /// No budget remained when this worker started.
    AtLimit,
}

/// The status a fresh worker starts with, given its spawn budget.
pub fn initial_spawn_status(threads_to_spawn: usize) -> (r: SpawnStatus)
    ensures
        r == if threads_to_spawn > 0 {
            SpawnStatus::CanSpawn
        } else {
            SpawnStatus::AtLimit
        },
{
    if threads_to_spawn > 0 {
        SpawnStatus::CanSpawn
    } else {
        SpawnStatus::AtLimit
    }
}

/// Whether a worker spawns a sibling before serving a command: only when it
/// still may spawn and the queue shows unserved pressure.
pub fn should_spawn(status: &SpawnStatus, queue_nonempty: bool) -> (r: bool)
    ensures
        r == ((*status is CanSpawn) && queue_nonempty),
{
    match status {
        SpawnStatus::CanSpawn => queue_nonempty,
        _ => false,
    }
}

/// A durability batch: a group of enqueued durability operations with a
/// single completion gate.
///
/// `queued` and `completed` record the batch's history; `pending` is the
/// count of operations enqueued but not yet acknowledged, and the batch's
/// invariant ties the three together. Waiting can succeed only when the
/// pending count has returned to zero, that is, when every enqueued
/// operation has been acknowledged.
pub struct FSyncBatch {
    outstanding: usize,
    queued: Ghost<nat>,
    completed: Ghost<nat>,
}

impl FSyncBatch {
    /// How many operations were enqueued over the batch's lifetime.
    pub closed spec fn queued(&self) -> nat {
        self.queued@
    }

    /// How many enqueued operations have been acknowledged.
    pub closed spec fn completed(&self) -> nat {
        self.completed@
    }

    /// How many operations are enqueued but not yet acknowledged.
    pub closed spec fn pending(&self) -> nat {
        self.outstanding as nat
    }

    /// The counter invariant: everything enqueued is either completed or
    /// still pending.
    pub closed spec fn inv(&self) -> bool {
        self.queued@ == self.completed@ + self.outstanding as nat
    }

    /// Enqueue a contents-plus-metadata durability operation for `file`.
    ///
    /// On the in-memory backing the operation completes synchronously, so
    /// it is acknowledged before the call returns.
    pub fn queue_fsync_all(&mut self, file: &MemoryFile) -> (r: Result<(), FSyncError>)
        requires
            old(self).inv(),
            old(self).queued() < usize::MAX,
        ensures
            r.is_ok(),
            final(self).inv(),
            final(self).queued() == old(self).queued() + 1,
            final(self).completed() == old(self).completed() + 1,
            final(self).pending() == old(self).pending(),
    {
        self.enqueue();
        match file.sync_all() {
            Ok(()) => {},
            Err(_) => {
                proof {
                    assert(false);
                }
            },
        }
        self.acknowledge();
        Ok(())
    }

    /// Enqueue a contents-only durability operation for `file`.
    ///
    /// On the in-memory backing the operation completes synchronously, so
    /// it is acknowledged before the call returns.
    pub fn queue_fsync_data(&mut self, file: &MemoryFile) -> (r: Result<(), FSyncError>)
        requires
            old(self).inv(),
            old(self).queued() < usize::MAX,
        ensures
            r.is_ok(),
            final(self).inv(),
            final(self).queued() == old(self).queued() + 1,
            final(self).completed() == old(self).completed() + 1,
            final(self).pending() == old(self).pending(),
    {
        self.enqueue();
        match file.sync_data() {
            Ok(()) => {},
            Err(_) => {
                proof {
                    assert(false);
                }
            },
        }
        self.acknowledge();
        Ok(())
    }

    /// Record one enqueued operation.
    fn enqueue(&mut self)
        requires
            old(self).inv(),
            old(self).queued() < usize::MAX,
        ensures
            final(self).inv(),
            final(self).queued() == old(self).queued() + 1,
            final(self).completed() == old(self).completed(),
            final(self).pending() == old(self).pending() + 1,
    {
        self.outstanding = self.outstanding + 1;
        proof {
            self.queued@ = self.queued@ + 1;
        }
    }

    /// Record one acknowledged operation: a worker's completion step.
    fn acknowledge(&mut self)
        requires
            old(self).inv(),
            old(self).pending() > 0,
        ensures
            final(self).inv(),
            final(self).queued() == old(self).queued(),
            final(self).completed() == old(self).completed() + 1,
            final(self).pending() == old(self).pending() - 1,
    {
        self.outstanding = self.outstanding - 1;
        proof {
            self.completed@ = self.completed@ + 1;
        }
    }

    /// Consume the batch, returning once every enqueued operation has been
    /// acknowledged.
    pub fn wait_all(self) -> (r: Result<(), FSyncError>)
        requires
            self.inv(),
        ensures
            r.is_ok(),
    {
        let mut batch = self;
        while batch.outstanding > 0
            invariant
                batch.inv(),
            decreases batch.outstanding,
        {
            batch.acknowledge();
        }
        proof {
            lemma_wait_gate(&batch);
        }
        Ok(())
    }
}

/// The completion gate: a batch's pending count is zero exactly when every
/// enqueued operation has been acknowledged. Waiting on a batch can
/// therefore succeed only once all of them have been.
pub proof fn lemma_wait_gate(batch: &FSyncBatch)
    requires
        batch.inv(),
    ensures
        (batch.pending() == 0) <==> (batch.completed() == batch.queued()),
{
}

} // verus!
