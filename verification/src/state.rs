//! The synchronisation state of one process: its thread slots, its
//! mutex, semaphore and condition-variable slots, the two resource tables
//! and the deadlock-detection switch.
use vstd::prelude::*;
use crate::table::{ResourceTable, TableView, lemma_col_sum_push_row, rows_view};

verus! {

/// The kind of a mutex: a spinning one or one that blocks its waiters.
#[derive(Clone, Copy, Debug, PartialEq, Eq)]
pub enum MutexKind {
    Spin,
    Blocking,
}

/// The synchronisation bookkeeping of one process.
///
/// `tasks[t]` tells whether thread slot `t` holds a live thread.
/// `mutex_list`, `semaphore_list` and `condvar_list` hold one slot per id;
/// an empty slot can be reused by the next create. A semaphore slot keeps
/// the number of units the semaphore was created with.
pub struct SyncState {
    pub tasks: Vec<bool>,
    pub mutex_list: Vec<Option<MutexKind>>,
    pub mutexes: ResourceTable,
    pub semaphore_list: Vec<Option<usize>>,
    pub semaphores: ResourceTable,
    pub condvar_list: Vec<bool>,
    pub deadlock_detect: bool,
}

/// The mathematical content of a [`SyncState`].
#[verifier::ext_equal]
pub struct SyncView {
    pub tasks: Seq<bool>,
    pub mutex_list: Seq<Option<MutexKind>>,
    pub mutexes: TableView,
    pub semaphore_list: Seq<Option<usize>>,
    pub semaphores: TableView,
    pub condvar_list: Seq<bool>,
    pub deadlock_detect: bool,
}

impl View for SyncState {
    type V = SyncView;

    open spec fn view(&self) -> SyncView {
        SyncView {
            tasks: self.tasks@,
            mutex_list: self.mutex_list@,
            mutexes: self.mutexes@,
            semaphore_list: self.semaphore_list@,
            semaphores: self.semaphores@,
            condvar_list: self.condvar_list@,
            deadlock_detect: self.deadlock_detect,
        }
    }
}

impl SyncView {
    /// Both tables fit the thread slots, and each has one column per slot
    /// of its list.
    pub open spec fn wf(self) -> bool {
        &&& self.mutexes.wf(self.tasks)
        &&& self.mutex_list.len() == self.mutexes.width()
        &&& self.semaphores.wf(self.tasks)
        &&& self.semaphore_list.len() == self.semaphores.width()
    }

    /// Thread slot `tid` holds a live thread.
    pub open spec fn live(self, tid: int) -> bool {
        0 <= tid < self.tasks.len() && self.tasks[tid]
    }

    pub open spec fn with_mutexes(self, t: TableView) -> SyncView {
        SyncView {
            tasks: self.tasks,
            mutex_list: self.mutex_list,
            mutexes: t,
            semaphore_list: self.semaphore_list,
            semaphores: self.semaphores,
            condvar_list: self.condvar_list,
            deadlock_detect: self.deadlock_detect,
        }
    }

    pub open spec fn with_semaphores(self, t: TableView) -> SyncView {
        SyncView {
            tasks: self.tasks,
            mutex_list: self.mutex_list,
            mutexes: self.mutexes,
            semaphore_list: self.semaphore_list,
            semaphores: t,
            condvar_list: self.condvar_list,
            deadlock_detect: self.deadlock_detect,
        }
    }
}

/// A table with one more thread slot, whose rows hold nothing and wait for
/// nothing.
pub open spec fn table_with_task(t: TableView) -> TableView {
    TableView {
        available: t.available,
        allocation: t.allocation.push(Some(Seq::new(t.available.len(), |j: int| 0usize))),
        request: t.request.push(Some(Seq::new(t.available.len(), |j: int| 0usize))),
    }
}

/// A row of `width` zeros.
fn zero_row(width: usize) -> (row: Vec<usize>)
    ensures
        row@ == Seq::new(width as nat, |j: int| 0usize),
{
    let mut row: Vec<usize> = Vec::new();
    for j in 0..width
        invariant
            row@ == Seq::new(j as nat, |k: int| 0usize),
    {
        row.push(0);
        assert(row@ =~= Seq::new((j + 1) as nat, |k: int| 0usize));
    }
    row
}

impl ResourceTable {
    /// Adds a thread slot with empty rows.
    fn add_task_row(&mut self, Ghost(tasks): Ghost<Seq<bool>>)
        requires
            old(self)@.wf(tasks),
        ensures
            final(self)@ == table_with_task(old(self)@),
            final(self)@.wf(tasks.push(true)),
    {
        let width = self.available.len();
        self.allocation.push(Some(zero_row(width)));
        self.request.push(Some(zero_row(width)));
        assert(rows_view(self.allocation@) =~= table_with_task(old(self)@).allocation);
        assert(rows_view(self.request@) =~= table_with_task(old(self)@).request);
        let ghost t = self@;
        let ghost n = old(self)@.height();
        assert forall|j: int| 0 <= j < t.width() implies #[trigger] t.held(j) <= usize::MAX by {
            lemma_col_sum_push_row(old(self)@.allocation, Some(Seq::new(t.available.len(), |k: int| 0usize)), j, n);
            assert(old(self)@.held(j) <= usize::MAX);
        }
        assert forall|i: int| 0 <= i < t.allocation.len() && (#[trigger] t.allocation[i]).is_some() implies t.allocation[i].unwrap().len() == t.width() by {
            if i < n {
                assert(old(self)@.allocation[i] == t.allocation[i]);
            }
        }
        assert forall|i: int| 0 <= i < t.request.len() && (#[trigger] t.request[i]).is_some() implies t.request[i].unwrap().len() == t.width() by {
            if i < n {
                assert(old(self)@.request[i] == t.request[i]);
            }
        }
        assert forall|i: int| 0 <= i < tasks.len() + 1 && #[trigger] tasks.push(true)[i] implies t.allocation[i].is_some()
            && t.request[i].is_some() by {
            if i < n {
                assert(tasks[i]);
            }
        }
    }
}

impl SyncState {
    /// A process with no threads, no mutexes, semaphores or condition
    /// variables, and deadlock detection switched off.
    pub fn new() -> (s: SyncState)
        ensures
            s@.wf(),
            s@.tasks == Seq::<bool>::empty(),
            s@.mutex_list == Seq::<Option<MutexKind>>::empty(),
            s@.semaphore_list == Seq::<Option<usize>>::empty(),
            s@.condvar_list == Seq::<bool>::empty(),
            s@.mutexes.available == Seq::<usize>::empty(),
            s@.semaphores.available == Seq::<usize>::empty(),
            !s@.deadlock_detect,
    {
        let s = SyncState {
            tasks: Vec::new(),
            mutex_list: Vec::new(),
            mutexes: ResourceTable { available: Vec::new(), allocation: Vec::new(), request: Vec::new() },
            semaphore_list: Vec::new(),
            semaphores: ResourceTable { available: Vec::new(), allocation: Vec::new(), request: Vec::new() },
            condvar_list: Vec::new(),
            deadlock_detect: false,
        };
        assert(s@.mutexes.allocation =~= Seq::<Option<Seq<usize>>>::empty());
        assert(s@.mutexes.request =~= Seq::<Option<Seq<usize>>>::empty());
        assert(s@.semaphores.allocation =~= Seq::<Option<Seq<usize>>>::empty());
        assert(s@.semaphores.request =~= Seq::<Option<Seq<usize>>>::empty());
        s
    }

    /// Registers a new live thread in the next slot, holding nothing and
    /// waiting for nothing; returns its slot.
    pub fn add_task(&mut self) -> (tid: usize)
        requires
            old(self)@.wf(),
        ensures
            tid == old(self)@.tasks.len(),
            final(self)@ == (SyncView {
                tasks: old(self)@.tasks.push(true),
                mutexes: table_with_task(old(self)@.mutexes),
                semaphores: table_with_task(old(self)@.semaphores),
                ..old(self)@
            }),
            final(self)@.wf(),
    {
        let tid = self.tasks.len();
        self.mutexes.add_task_row(Ghost(self.tasks@));
        self.semaphores.add_task_row(Ghost(self.tasks@));
        self.tasks.push(true);
        tid
    }
}

} // verus!
