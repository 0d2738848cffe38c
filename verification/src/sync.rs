use vstd::prelude::*;
use crate::banker::{deadlock_detect, deadlocked, detect_ready, rows_view};
use crate::outcome::{KernelAction, SyscallOutcome};

verus! {

/// What a lock or semaphore request returns when granting it would leave
/// the process deadlocked.
pub const DEADLOCK_ERROR: isize = -0xdead;

/// The kind of a process mutex.
#[derive(Debug, Clone, Copy, PartialEq, Eq)]
pub enum MutexKind {
    /// Waits by yielding the processor until the mutex is free.
    Spin,
    /// Waits in the mutex's queue, blocked, until it is handed the mutex.
    Blocking,
}

/// Whether requests are checked for deadlock before they are granted.
pub struct DeadlockDetectEnable {
    pub enable: bool,
}

impl DeadlockDetectEnable {
    /// Detection starts switched off.
    pub fn new() -> (detector: Self)
        ensures
            !detector.enable,
    {
        Self { enable: false }
    }
}

/// The synchronisation objects of a process and the resource bookkeeping
/// that the deadlock check reads.
///
/// Each mutex and semaphore slot has a column in the bookkeeping, at the
/// position where it was created: `available[k]` is the free amount of
/// resource `k`, `allocation[t][k]` what thread `t` holds of it and
/// `need[t][k]` what thread `t` waits for.
pub struct SyncTables {
    /// `Some(kind)` where a mutex stands, `None` for a free slot.
    pub mutex_list: Vec<Option<MutexKind>>,
    /// `Some(count)` where a semaphore created with `count` resources
    /// stands, `None` for a free slot.
    pub semaphore_list: Vec<Option<usize>>,
    /// `true` where a condition variable stands.
    pub condvar_list: Vec<bool>,
    pub available: Vec<usize>,
    pub allocation: Vec<Vec<usize>>,
    pub need: Vec<Vec<usize>>,
}

/// The resource bookkeeping as mathematical values.
#[verifier::ext_equal]
pub struct Tables {
    pub available: Seq<usize>,
    pub allocation: Seq<Seq<usize>>,
    pub need: Seq<Seq<usize>>,
}

impl Tables {
    /// No order lets every thread run to the end.
    pub open spec fn is_deadlocked(self) -> bool {
        deadlocked(self.available, self.allocation, self.need)
    }

    /// The deadlock check can run on these tables.
    pub open spec fn checkable(self) -> bool {
        detect_ready(self.available, self.allocation, self.need)
    }

    /// Every row is as wide as the resource vector.
    pub open spec fn rectangular(self) -> bool {
        &&& forall|t: int|
            0 <= t < self.allocation.len() ==> #[trigger] self.allocation[t].len()
                == self.available.len()
        &&& forall|t: int|
            0 <= t < self.need.len() ==> #[trigger] self.need[t].len() == self.available.len()
    }

    /// These tables with another need matrix.
    pub open spec fn with_need(self, need: Seq<Seq<usize>>) -> Tables {
        Tables { need, ..self }
    }

    /// These tables with another allocation matrix.
    pub open spec fn with_allocation(self, allocation: Seq<Seq<usize>>) -> Tables {
        Tables { allocation, ..self }
    }

    /// These tables with another resource vector.
    pub open spec fn with_available(self, available: Seq<usize>) -> Tables {
        Tables { available, ..self }
    }

    /// Entry `(t, k)` exists in the allocation matrix and `k` in the
    /// resource vector.
    pub open spec fn has_allocation_entry(self, t: int, k: int) -> bool {
        &&& 0 <= k < self.available.len()
        &&& 0 <= t < self.allocation.len()
        &&& k < self.allocation[t].len()
    }

    /// Entry `(t, k)` exists in the three tables.
    pub open spec fn has_entry(self, t: int, k: int) -> bool {
        &&& 0 <= k < self.available.len()
        &&& 0 <= t < self.allocation.len()
        &&& 0 <= t < self.need.len()
        &&& k < self.allocation[t].len()
        &&& k < self.need[t].len()
    }
}

impl SyncTables {
    /// The bookkeeping of these tables.
    pub open spec fn tables(self) -> Tables {
        Tables {
            available: self.available@,
            allocation: rows_view(self.allocation@),
            need: rows_view(self.need@),
        }
    }

    /// The shape that the system calls keep: every slot has its column,
    /// each thread has a need row and an allocation row, and every row is as
    /// wide as the resource vector.
    pub open spec fn wf(self) -> bool {
        &&& self.mutex_list.len() <= self.available.len()
        &&& self.semaphore_list.len() <= self.available.len()
        &&& self.need.len() == self.allocation.len()
        &&& self.tables().rectangular()
    }
}

// ---------------------------------------------------------------------------
// The transitions, as mathematical functions.
// ---------------------------------------------------------------------------

/// `rows` with entry `(t, k)` set to `v`.
pub open spec fn set_entry(rows: Seq<Seq<usize>>, t: int, k: int, v: int) -> Seq<Seq<usize>> {
    rows.update(t, rows[t].update(k, v as usize))
}

/// `rows` with column `k` of every row set to `v`.
pub open spec fn set_column(rows: Seq<Seq<usize>>, k: int, v: usize) -> Seq<Seq<usize>> {
    Seq::new(rows.len(), |t: int| rows[t].update(k, v))
}

/// `rows` with `v` appended to every row.
pub open spec fn push_column(rows: Seq<Seq<usize>>, v: usize) -> Seq<Seq<usize>> {
    Seq::new(rows.len(), |t: int| rows[t].push(v))
}

/// A new resource in the existing column `k`: `count` free, nobody holds or
/// needs it.
pub open spec fn reuse_column(tab: Tables, k: int, count: usize) -> Tables {
    Tables {
        available: tab.available.update(k, count),
        allocation: set_column(tab.allocation, k, 0),
        need: set_column(tab.need, k, 0),
    }
}

/// A new resource in a new last column: `count` free, nobody holds or needs
/// it.
pub open spec fn append_column(tab: Tables, count: usize) -> Tables {
    Tables {
        available: tab.available.push(count),
        allocation: push_column(tab.allocation, 0),
        need: push_column(tab.need, 0),
    }
}

/// `i` is the lowest free slot of `list`.
pub open spec fn is_first_free<T>(list: Seq<Option<T>>, i: int) -> bool {
    &&& 0 <= i < list.len()
    &&& list[i] is None
    &&& forall|j: int| 0 <= j < i ==> #[trigger] list[j] is Some
}

/// The lowest free slot of `list`, if it has one.
pub open spec fn first_free<T>(list: Seq<Option<T>>) -> Option<int> {
    if exists|i: int| is_first_free(list, i) {
        Some(choose|i: int| is_first_free(list, i))
    } else {
        None
    }
}

/// `i` is the lowest unused slot of `list`.
pub open spec fn is_first_unused(list: Seq<bool>, i: int) -> bool {
    &&& 0 <= i < list.len()
    &&& !list[i]
    &&& forall|j: int| 0 <= j < i ==> #[trigger] list[j]
}

/// The lowest unused slot of `list`, if it has one.
pub open spec fn first_unused(list: Seq<bool>) -> Option<int> {
    if exists|i: int| is_first_unused(list, i) {
        Some(choose|i: int| is_first_unused(list, i))
    } else {
        None
    }
}

/// The bookkeeping once thread `tid` asks for mutex `m`: if the mutex is
/// taken the thread now needs it, else the thread holds it and it is no
/// longer free. Without a current thread nothing is recorded.
pub open spec fn lock_request(tab: Tables, m: int, tid: Option<usize>, taken: bool) -> Tables {
    match tid {
        None => tab,
        Some(t) => if taken {
            Tables { need: set_entry(tab.need, t as int, m, 1), ..tab }
        } else {
            Tables {
                available: tab.available.update(m, 0),
                allocation: set_entry(tab.allocation, t as int, m, 1),
                ..tab
            }
        },
    }
}

/// The bookkeeping once thread `tid` releases mutex `m`: it neither needs
/// nor holds it, and the mutex is free.
pub open spec fn unlock_release(tab: Tables, m: int, tid: Option<usize>) -> Tables {
    match tid {
        None => tab,
        Some(t) => Tables {
            available: tab.available.update(m, 1),
            allocation: set_entry(tab.allocation, t as int, m, 0),
            need: set_entry(tab.need, t as int, m, 0),
        },
    }
}

/// The bookkeeping once thread `tid` asks for one resource of semaphore
/// `s` whose count is `count`: with resources left, the thread holds one
/// more, one fewer is free and an outstanding need of it drops by one;
/// otherwise the thread needs one more.
pub open spec fn down_request(tab: Tables, s: int, tid: Option<usize>, count: isize) -> Tables {
    match tid {
        None => tab,
        Some(t) => if count > 0 {
            Tables {
                available: tab.available.update(s, (tab.available[s] - 1) as usize),
                allocation: set_entry(tab.allocation, t as int, s, tab.allocation[t as int][s] + 1),
                need: if tab.need[t as int][s] > 0 {
                    set_entry(tab.need, t as int, s, tab.need[t as int][s] - 1)
                } else {
                    tab.need
                },
            }
        } else {
            Tables { need: set_entry(tab.need, t as int, s, tab.need[t as int][s] + 1), ..tab }
        },
    }
}

/// The bookkeeping once thread `tid` gives back one resource of semaphore
/// `s`: it holds one fewer and one more is free.
pub open spec fn up_release(tab: Tables, s: int, tid: Option<usize>) -> Tables {
    match tid {
        None => tab,
        Some(t) => Tables {
            available: tab.available.update(s, (tab.available[s] + 1) as usize),
            allocation: set_entry(tab.allocation, t as int, s, tab.allocation[t as int][s] - 1),
            ..tab
        },
    }
}

/// Grant `request` (and do `action`), unless detection is on and the
/// request would leave the process deadlocked; then keep `tab` and refuse.
pub open spec fn decide(tab: Tables, request: Tables, enable: bool, action: KernelAction) -> (
    Tables,
    SyscallOutcome,
) {
    if enable && request.is_deadlocked() {
        (tab, SyscallOutcome { ret: DEADLOCK_ERROR, action: KernelAction::Return })
    } else {
        (request, SyscallOutcome { ret: 0, action })
    }
}

// ---------------------------------------------------------------------------
// Executable helpers.
// ---------------------------------------------------------------------------

/// The lowest free slot of `list`.
fn find_free<T>(list: &Vec<Option<T>>) -> (slot: Option<usize>)
    ensures
        match slot {
            Some(i) => first_free(list@) == Some(i as int),
            None => first_free(list@) is None,
        },
{
    let mut i: usize = 0;
    while i < list.len()
        invariant
            i <= list.len(),
            forall|j: int| 0 <= j < i ==> #[trigger] list@[j] is Some,
        decreases list.len() - i,
    {
        if list[i].is_none() {
            assert(is_first_free(list@, i as int));
            assert forall|a: int, b: int|
                is_first_free(list@, a) && is_first_free(list@, b) implies a == b by {
                if a < b {
                    assert(list@[a] is Some);
                } else if b < a {
                    assert(list@[b] is Some);
                }
            }
            return Some(i);
        }
        i = i + 1;
    }
    assert(!exists|k: int| is_first_free(list@, k)) by {
        assert forall|k: int| !is_first_free(list@, k) by {
            if 0 <= k < list@.len() {
                assert(list@[k] is Some);
            }
        }
    }
    None
}

/// The lowest unused slot of `list`.
fn find_unused(list: &Vec<bool>) -> (slot: Option<usize>)
    ensures
        match slot {
            Some(i) => first_unused(list@) == Some(i as int),
            None => first_unused(list@) is None,
        },
{
    let mut i: usize = 0;
    while i < list.len()
        invariant
            i <= list.len(),
            forall|j: int| 0 <= j < i ==> #[trigger] list@[j],
        decreases list.len() - i,
    {
        if !list[i] {
            assert(is_first_unused(list@, i as int));
            assert forall|a: int, b: int|
                is_first_unused(list@, a) && is_first_unused(list@, b) implies a == b by {
                if a < b {
                    assert(list@[a]);
                } else if b < a {
                    assert(list@[b]);
                }
            }
            return Some(i);
        }
        i = i + 1;
    }
    assert(!exists|k: int| is_first_unused(list@, k)) by {
        assert forall|k: int| !is_first_unused(list@, k) by {
            if 0 <= k < list@.len() {
                assert(list@[k]);
            }
        }
    }
    None
}

/// Sets column `k` of every row to `v`.
fn fill_column(rows: &mut Vec<Vec<usize>>, k: usize, v: usize)
    requires
        forall|t: int| 0 <= t < old(rows).len() ==> k < #[trigger] old(rows)@[t].len(),
    ensures
        rows_view(final(rows)@) == set_column(rows_view(old(rows)@), k as int, v),
{
    let mut t: usize = 0;
    while t < rows.len()
        invariant
            t <= rows.len(),
            rows.len() == old(rows).len(),
            forall|j: int| 0 <= j < old(rows).len() ==> k < #[trigger] old(rows)@[j].len(),
            forall|j: int| 0 <= j < t ==> #[trigger] rows@[j]@ == old(rows)@[j]@.update(k as int, v),
            forall|j: int| t <= j < rows.len() ==> #[trigger] rows@[j] == old(rows)@[j],
        decreases old(rows).len() - t,
    {
        rows[t].set(k, v);
        t = t + 1;
    }
    assert(rows_view(rows@) =~= set_column(rows_view(old(rows)@), k as int, v));
}

/// Appends `v` to every row.
fn extend_rows(rows: &mut Vec<Vec<usize>>, v: usize)
    ensures
        rows_view(final(rows)@) == push_column(rows_view(old(rows)@), v),
{
    let mut t: usize = 0;
    while t < rows.len()
        invariant
            t <= rows.len(),
            rows.len() == old(rows).len(),
            forall|j: int| 0 <= j < t ==> #[trigger] rows@[j]@ == old(rows)@[j]@.push(v),
            forall|j: int| t <= j < rows.len() ==> #[trigger] rows@[j] == old(rows)@[j],
        decreases old(rows).len() - t,
    {
        rows[t].push(v);
        t = t + 1;
    }
    assert(rows_view(rows@) =~= push_column(rows_view(old(rows)@), v));
}

impl SyncTables {
    /// Gives column `k` to a new resource with `count` free.
    fn reuse_column(&mut self, k: usize, count: usize)
        requires
            column_fits(old(self).tables(), k as int),
        ensures
            final(self).tables() == reuse_column(old(self).tables(), k as int, count),
            final(self).mutex_list == old(self).mutex_list,
            final(self).semaphore_list == old(self).semaphore_list,
            final(self).condvar_list == old(self).condvar_list,
    {
        proof {
            let tab = old(self).tables();
            assert forall|t: int| 0 <= t < old(self).allocation.len() implies k
                < #[trigger] old(self).allocation@[t].len() by {
                assert(tab.allocation[t] == old(self).allocation@[t]@);
            }
            assert forall|t: int| 0 <= t < old(self).need.len() implies k
                < #[trigger] old(self).need@[t].len() by {
                assert(tab.need[t] == old(self).need@[t]@);
            }
        }
        self.available.set(k, count);
        fill_column(&mut self.allocation, k, 0);
        fill_column(&mut self.need, k, 0);
    }

    /// Gives a new last column to a new resource with `count` free.
    fn append_column(&mut self, count: usize)
        ensures
            final(self).tables() == append_column(old(self).tables(), count),
            final(self).mutex_list == old(self).mutex_list,
            final(self).semaphore_list == old(self).semaphore_list,
            final(self).condvar_list == old(self).condvar_list,
    {
        self.available.push(count);
        extend_rows(&mut self.allocation, 0);
        extend_rows(&mut self.need, 0);
    }
}

/// Column `k` exists in the resource vector and in every row.
pub open spec fn column_fits(tab: Tables, k: int) -> bool {
    &&& 0 <= k < tab.available.len()
    &&& forall|t: int| 0 <= t < tab.allocation.len() ==> k < #[trigger] tab.allocation[t].len()
    &&& forall|t: int| 0 <= t < tab.need.len() ==> k < #[trigger] tab.need[t].len()
}

/// The kind of mutex that `sys_mutex_create` makes.
pub open spec fn mutex_kind(blocking: bool) -> MutexKind {
    if blocking {
        MutexKind::Blocking
    } else {
        MutexKind::Spin
    }
}

// ---------------------------------------------------------------------------
// The system calls.
// ---------------------------------------------------------------------------

/// Creates a mutex (blocking or spinning) in the lowest free slot, or in a
/// new last slot when none is free, and returns its id. Its resource column
/// starts with one free unit that nobody holds or needs.
pub fn sys_mutex_create(process: &mut SyncTables, blocking: bool) -> (id: isize)
    requires
        first_free(old(process).mutex_list@) matches Some(k) ==> column_fits(old(process).tables(), k),
    ensures
        final(process).semaphore_list == old(process).semaphore_list,
        final(process).condvar_list == old(process).condvar_list,
        match first_free(old(process).mutex_list@) {
            Some(k) => {
                &&& id == k as isize
                &&& final(process).mutex_list@ == old(process).mutex_list@.update(k, Some(mutex_kind(blocking)))
                &&& final(process).tables() == reuse_column(old(process).tables(), k, 1)
            },
            None => {
                &&& id == old(process).mutex_list.len() as isize
                &&& final(process).mutex_list@ == old(process).mutex_list@.push(Some(mutex_kind(blocking)))
                &&& final(process).tables() == append_column(old(process).tables(), 1)
            },
        },
        old(process).wf() ==> final(process).wf(),
{
    let mutex = if !blocking {
        Some(MutexKind::Spin)
    } else {
        Some(MutexKind::Blocking)
    };
    match find_free(&process.mutex_list) {
        Some(id) => {
            process.mutex_list.set(id, mutex);
            process.reuse_column(id, 1);
            proof { lemma_reuse_keeps_wf(*old(process), *process, id as int); }
            id as isize
        },
        None => {
            process.mutex_list.push(mutex);
            process.append_column(1);
            proof { lemma_append_keeps_wf(*old(process), *process); }
            (process.mutex_list.len() - 1) as isize
        },
    }
}

/// Creates a semaphore with `res_count` resources in the lowest free slot,
/// or in a new last slot when none is free, and returns its id. Its
/// resource column starts with `res_count` free units that nobody holds or
/// needs.
pub fn sys_semaphore_create(process: &mut SyncTables, res_count: usize) -> (id: isize)
    requires
        first_free(old(process).semaphore_list@) matches Some(k) ==> column_fits(old(process).tables(), k),
    ensures
        final(process).mutex_list == old(process).mutex_list,
        final(process).condvar_list == old(process).condvar_list,
        match first_free(old(process).semaphore_list@) {
            Some(k) => {
                &&& id == k as isize
                &&& final(process).semaphore_list@ == old(process).semaphore_list@.update(k, Some(res_count))
                &&& final(process).tables() == reuse_column(old(process).tables(), k, res_count)
            },
            None => {
                &&& id == old(process).semaphore_list.len() as isize
                &&& final(process).semaphore_list@ == old(process).semaphore_list@.push(Some(res_count))
                &&& final(process).tables() == append_column(old(process).tables(), res_count)
            },
        },
        old(process).wf() ==> final(process).wf(),
{
    let id = match find_free(&process.semaphore_list) {
        Some(id) => {
            process.reuse_column(id, res_count);
            process.semaphore_list.set(id, Some(res_count));
            proof { lemma_reuse_keeps_wf(*old(process), *process, id as int); }
            id
        },
        None => {
            process.semaphore_list.push(Some(res_count));
            process.append_column(res_count);
            proof { lemma_append_keeps_wf(*old(process), *process); }
            process.semaphore_list.len() - 1
        },
    };
    id as isize
}

/// Creates a condition variable in the lowest unused slot, or in a new last
/// slot when none is unused, and returns its id.
pub fn sys_condvar_create(process: &mut SyncTables) -> (id: isize)
    ensures
        final(process).mutex_list == old(process).mutex_list,
        final(process).semaphore_list == old(process).semaphore_list,
        final(process).available == old(process).available,
        final(process).allocation == old(process).allocation,
        final(process).need == old(process).need,
        match first_unused(old(process).condvar_list@) {
            Some(k) => id == k as isize && final(process).condvar_list@ == old(process).condvar_list@.update(k, true),
            None => id == old(process).condvar_list.len() as isize && final(process).condvar_list@
                == old(process).condvar_list@.push(true),
        },
{
    let id = match find_unused(&process.condvar_list) {
        Some(id) => {
            process.condvar_list.set(id, true);
            id
        },
        None => {
            process.condvar_list.push(true);
            process.condvar_list.len() - 1
        },
    };
    id as isize
}

/// In the shape that the system calls keep, creating a mutex or a
/// semaphore is always admitted: the lowest free slot of either list has a
/// column in the resource vector and in every row. (The creations keep the
/// shape, as their own contracts state.)
pub proof fn law_wf_admits_create(process: SyncTables)
    requires
        process.wf(),
    ensures
        first_free(process.mutex_list@) matches Some(k) ==> column_fits(process.tables(), k),
        first_free(process.semaphore_list@) matches Some(k) ==> column_fits(process.tables(), k),
{
    if first_free(process.mutex_list@) is Some {
        let k = choose|i: int| is_first_free(process.mutex_list@, i);
        assert(is_first_free(process.mutex_list@, k));
    }
    if first_free(process.semaphore_list@) is Some {
        let k = choose|i: int| is_first_free(process.semaphore_list@, i);
        assert(is_first_free(process.semaphore_list@, k));
    }
}

/// Reusing a column keeps the shape.
proof fn lemma_reuse_keeps_wf(before: SyncTables, after: SyncTables, k: int)
    requires
        after.mutex_list.len() == before.mutex_list.len(),
        after.semaphore_list.len() == before.semaphore_list.len(),
        after.tables() == reuse_column(before.tables(), k, after.available@[k]),
        0 <= k < before.available.len(),
    ensures
        before.wf() ==> after.wf(),
{
    if before.wf() {
        let tb = before.tables();
        let ta = after.tables();
        assert(ta.need.len() == after.need.len() && ta.allocation.len() == after.allocation.len());
        assert(tb.need.len() == before.need.len() && tb.allocation.len() == before.allocation.len());
        assert forall|t: int| 0 <= t < ta.allocation.len() implies #[trigger] ta.allocation[t].len()
            == ta.available.len() by {
            assert(ta.allocation[t] == tb.allocation[t].update(k, 0));
            assert(tb.allocation[t].len() == tb.available.len());
        }
        assert forall|t: int| 0 <= t < ta.need.len() implies #[trigger] ta.need[t].len()
            == ta.available.len() by {
            assert(ta.need[t] == tb.need[t].update(k, 0));
            assert(tb.need[t].len() == tb.available.len());
        }
    }
}

/// Appending a column keeps the shape when at most one slot was added.
proof fn lemma_append_keeps_wf(before: SyncTables, after: SyncTables)
    requires
        after.mutex_list.len() <= before.mutex_list.len() + 1,
        after.semaphore_list.len() <= before.semaphore_list.len() + 1,
        after.tables() == append_column(before.tables(), after.available@.last()),
        after.available.len() > 0,
    ensures
        before.wf() ==> after.wf(),
{
    if before.wf() {
        let tb = before.tables();
        let ta = after.tables();
        assert(ta.need.len() == after.need.len() && ta.allocation.len() == after.allocation.len());
        assert(tb.need.len() == before.need.len() && tb.allocation.len() == before.allocation.len());
        assert forall|t: int| 0 <= t < ta.allocation.len() implies #[trigger] ta.allocation[t].len()
            == ta.available.len() by {
            assert(ta.allocation[t] == tb.allocation[t].push(0));
            assert(tb.allocation[t].len() == tb.available.len());
        }
        assert forall|t: int| 0 <= t < ta.need.len() implies #[trigger] ta.need[t].len()
            == ta.available.len() by {
            assert(ta.need[t] == tb.need[t].push(0));
            assert(tb.need[t].len() == tb.available.len());
        }
    }
}

/// Setting entry `(t, k)` back to what it was undoes setting it.
proof fn lemma_set_entry_restore(rows: Seq<Seq<usize>>, t: int, k: int, v: int)
    requires
        0 <= t < rows.len(),
        0 <= k < rows[t].len(),
    ensures
        set_entry(set_entry(rows, t, k, v), t, k, rows[t][k] as int) =~~= rows,
{
    assert(set_entry(rows, t, k, v)[t].update(k, rows[t][k]) =~= rows[t]);
}

/// Setting an entry keeps every row's width.
proof fn lemma_set_entry_widths(rows: Seq<Seq<usize>>, t: int, k: int, v: int)
    requires
        0 <= t < rows.len(),
        0 <= k < rows[t].len(),
    ensures
        set_entry(rows, t, k, v).len() == rows.len(),
        forall|r: int| 0 <= r < rows.len() ==> #[trigger] set_entry(rows, t, k, v)[r].len() == rows[r].len(),
{
}

/// Sets entry `(t, k)` of a matrix.
fn write_entry(rows: &mut Vec<Vec<usize>>, t: usize, k: usize, v: usize)
    requires
        t < old(rows).len(),
        k < old(rows)@[t as int].len(),
    ensures
        rows_view(final(rows)@) =~~= set_entry(rows_view(old(rows)@), t as int, k as int, v as int),
{
    rows[t].set(k, v);
    assert(rows_view(rows@) =~~= set_entry(rows_view(old(rows)@), t as int, k as int, v as int));
}

impl SyncTables {
    /// Sets `need[t][k]`.
    fn set_need(&mut self, t: usize, k: usize, v: usize)
        requires
            old(self).tables().has_entry(t as int, k as int),
        ensures
            final(self).tables() =~~= old(self).tables().with_need(
                set_entry(old(self).tables().need, t as int, k as int, v as int),
            ),
            final(self).mutex_list == old(self).mutex_list,
            final(self).semaphore_list == old(self).semaphore_list,
            final(self).condvar_list == old(self).condvar_list,
            old(self).wf() ==> final(self).wf(),
    {
        assert(old(self).tables().need[t as int] == old(self).need@[t as int]@);
        write_entry(&mut self.need, t, k, v);
        proof {
            lemma_set_entry_widths(old(self).tables().need, t as int, k as int, v as int);
        }
    }

    /// Sets `allocation[t][k]`.
    fn set_allocation(&mut self, t: usize, k: usize, v: usize)
        requires
            old(self).tables().has_allocation_entry(t as int, k as int),
        ensures
            final(self).tables() =~~= old(self).tables().with_allocation(
                set_entry(old(self).tables().allocation, t as int, k as int, v as int),
            ),
            final(self).tables().has_allocation_entry(t as int, k as int),
            old(self).tables().has_entry(t as int, k as int) ==> final(self).tables().has_entry(
                t as int,
                k as int,
            ),
            final(self).mutex_list == old(self).mutex_list,
            final(self).semaphore_list == old(self).semaphore_list,
            final(self).condvar_list == old(self).condvar_list,
            old(self).wf() ==> final(self).wf(),
    {
        assert(old(self).tables().allocation[t as int] == old(self).allocation@[t as int]@);
        write_entry(&mut self.allocation, t, k, v);
        proof {
            lemma_set_entry_widths(old(self).tables().allocation, t as int, k as int, v as int);
            assert(self.tables().need == old(self).tables().need);
            assert(self.available@ == old(self).available@);
        }
    }

    /// Sets `available[k]`.
    fn set_available(&mut self, k: usize, v: usize)
        requires
            k < old(self).available.len(),
        ensures
            final(self).tables() =~~= old(self).tables().with_available(
                old(self).tables().available.update(k as int, v),
            ),
            final(self).mutex_list == old(self).mutex_list,
            final(self).semaphore_list == old(self).semaphore_list,
            final(self).condvar_list == old(self).condvar_list,
            old(self).wf() ==> final(self).wf(),
    {
        self.available.set(k, v);
        proof {
            assert(self.tables().allocation == old(self).tables().allocation);
            assert(self.tables().need == old(self).tables().need);
            assert(self.available.len() == old(self).available.len());
        }
    }
}

/// Thread `t` has entry `k` in the tables of `process`, read through the
/// executable vectors.
proof fn lemma_entry_bridge(process: SyncTables, t: int, k: int)
    requires
        process.tables().has_entry(t, k),
    ensures
        t < process.need.len(),
        t < process.allocation.len(),
        k < process.need@[t].len(),
        k < process.allocation@[t].len(),
        k < process.available.len(),
        process.need@[t]@[k] == process.tables().need[t][k],
        process.allocation@[t]@[k] == process.tables().allocation[t][k],
        process.available@[k] == process.tables().available[k],
{
    assert(process.tables().need[t] == process.need@[t]@);
    assert(process.tables().allocation[t] == process.allocation@[t]@);
}

/// Puts entry `(t, k)` of the three tables back to the saved values.
fn restore_entry(
    process: &mut SyncTables,
    t: usize,
    k: usize,
    allocation_reset: usize,
    need_reset: usize,
    available_reset: usize,
)
    requires
        old(process).tables().has_entry(t as int, k as int),
    ensures
        final(process).tables().available == old(process).tables().available.update(k as int, available_reset),
        final(process).tables().allocation =~~= set_entry(old(process).tables().allocation, t as int, k as int, allocation_reset as int),
        final(process).tables().need =~~= set_entry(old(process).tables().need, t as int, k as int, need_reset as int),
        final(process).mutex_list == old(process).mutex_list,
        final(process).semaphore_list == old(process).semaphore_list,
        final(process).condvar_list == old(process).condvar_list,
        old(process).wf() ==> final(process).wf(),
{
    process.set_allocation(t, k, allocation_reset);
    process.set_need(t, k, need_reset);
    process.set_available(k, available_reset);
}

/// Runs the deadlock check on the tables of `process`.
fn tables_deadlocked(process: &SyncTables) -> (deadlock: bool)
    requires
        process.tables().checkable(),
    ensures
        deadlock == process.tables().is_deadlocked(),
{
    deadlock_detect(&process.available, process.allocation.as_slice(), process.need.as_slice())
}

/// Asks for mutex `mutex_id` on behalf of the current thread `tid`
/// (`None` when there is no current thread), `mutex_taken` telling whether
/// another thread holds it. The request is recorded in the bookkeeping;
/// when detection is on and the recorded state is deadlocked, the record
/// is undone and `DEADLOCK_ERROR` returned; otherwise the result is 0 and
/// the kernel goes on to take the mutex.
pub fn sys_mutex_lock(
    process: &mut SyncTables,
    detector: &DeadlockDetectEnable,
    mutex_id: usize,
    tid: Option<usize>,
    mutex_taken: bool,
) -> (out: SyscallOutcome)
    requires
        mutex_id < old(process).mutex_list.len(),
        old(process).mutex_list@[mutex_id as int] is Some,
        tid matches Some(t) ==> old(process).tables().has_entry(t as int, mutex_id as int),
        detector.enable ==> lock_request(old(process).tables(), mutex_id as int, tid, mutex_taken).checkable(),
    ensures
        final(process).mutex_list == old(process).mutex_list,
        final(process).semaphore_list == old(process).semaphore_list,
        final(process).condvar_list == old(process).condvar_list,
        (final(process).tables(), out) == decide(
            old(process).tables(),
            lock_request(old(process).tables(), mutex_id as int, tid, mutex_taken),
            detector.enable,
            KernelAction::MutexLock(mutex_id),
        ),
        old(process).wf() ==> final(process).wf(),
{
    let ghost tab0 = process.tables();
    let mut need_reset: usize = 0;
    let mut allocation_reset: usize = 0;
    let mut available_reset: usize = 0;
    if let Some(t) = tid {
        proof { lemma_entry_bridge(*process, t as int, mutex_id as int); }
        need_reset = process.need[t][mutex_id];
        allocation_reset = process.allocation[t][mutex_id];
        available_reset = process.available[mutex_id];
        if mutex_taken {
            process.set_need(t, mutex_id, 1);
        } else {
            process.set_allocation(t, mutex_id, 1);
            process.set_available(mutex_id, 0);
        }
    }
    assert(process.tables() =~~= lock_request(tab0, mutex_id as int, tid, mutex_taken));
    if detector.enable && tables_deadlocked(process) {
        if let Some(t) = tid {
            restore_entry(process, t, mutex_id, allocation_reset, need_reset, available_reset);
            proof {
                lemma_set_entry_restore(tab0.allocation, t as int, mutex_id as int, 1);
                lemma_set_entry_restore(tab0.need, t as int, mutex_id as int, 1);
                assert(process.tables() =~~= tab0);
            }
        }
        return SyscallOutcome { ret: DEADLOCK_ERROR, action: KernelAction::Return };
    }
    SyscallOutcome { ret: 0, action: KernelAction::MutexLock(mutex_id) }
}

/// Releases mutex `mutex_id` on behalf of the current thread `tid`: the
/// thread neither needs nor holds it any more and it is free again; the
/// kernel goes on to unlock the mutex.
pub fn sys_mutex_unlock(process: &mut SyncTables, mutex_id: usize, tid: Option<usize>) -> (out: SyscallOutcome)
    requires
        mutex_id < old(process).mutex_list.len(),
        old(process).mutex_list@[mutex_id as int] is Some,
        tid matches Some(t) ==> old(process).tables().has_entry(t as int, mutex_id as int),
    ensures
        final(process).mutex_list == old(process).mutex_list,
        final(process).semaphore_list == old(process).semaphore_list,
        final(process).condvar_list == old(process).condvar_list,
        final(process).tables() == unlock_release(old(process).tables(), mutex_id as int, tid),
        out == (SyscallOutcome { ret: 0, action: KernelAction::MutexUnlock(mutex_id) }),
        old(process).wf() ==> final(process).wf(),
{
    let ghost tab0 = process.tables();
    if let Some(t) = tid {
        process.set_need(t, mutex_id, 0);
        process.set_allocation(t, mutex_id, 0);
        process.set_available(mutex_id, 1);
    }
    assert(process.tables() =~~= unlock_release(tab0, mutex_id as int, tid));
    SyscallOutcome { ret: 0, action: KernelAction::MutexUnlock(mutex_id) }
}

/// Gives back one resource of semaphore `sem_id` on behalf of the current
/// thread `tid`: it holds one fewer and one more is free; the kernel goes
/// on to raise the semaphore.
pub fn sys_semaphore_up(process: &mut SyncTables, sem_id: usize, tid: Option<usize>) -> (out: SyscallOutcome)
    requires
        sem_id < old(process).semaphore_list.len(),
        old(process).semaphore_list@[sem_id as int] is Some,
        tid matches Some(t) ==> {
            &&& old(process).tables().has_allocation_entry(t as int, sem_id as int)
            &&& old(process).tables().allocation[t as int][sem_id as int] >= 1
            &&& old(process).tables().available[sem_id as int] < usize::MAX
        },
    ensures
        final(process).mutex_list == old(process).mutex_list,
        final(process).semaphore_list == old(process).semaphore_list,
        final(process).condvar_list == old(process).condvar_list,
        final(process).tables() == up_release(old(process).tables(), sem_id as int, tid),
        out == (SyscallOutcome { ret: 0, action: KernelAction::SemaphoreUp(sem_id) }),
        old(process).wf() ==> final(process).wf(),
{
    let ghost tab0 = process.tables();
    if let Some(t) = tid {
        proof {
            assert(process.tables().allocation[t as int] == process.allocation@[t as int]@);
        }
        let held = process.allocation[t][sem_id];
        process.set_allocation(t, sem_id, held - 1);
        let free = process.available[sem_id];
        process.set_available(sem_id, free + 1);
    }
    assert(process.tables() =~~= up_release(tab0, sem_id as int, tid));
    SyscallOutcome { ret: 0, action: KernelAction::SemaphoreUp(sem_id) }
}

/// Asks for one resource of semaphore `sem_id` on behalf of the current
/// thread `tid`, `sem_count` being the semaphore's count. The request is
/// recorded in the bookkeeping; when detection is on and the recorded state
/// is deadlocked, the record is undone and `DEADLOCK_ERROR` returned;
/// otherwise the result is 0 and the kernel goes on to lower the semaphore.
pub fn sys_semaphore_down(
    process: &mut SyncTables,
    detector: &DeadlockDetectEnable,
    sem_id: usize,
    tid: Option<usize>,
    sem_count: isize,
) -> (out: SyscallOutcome)
    requires
        sem_id < old(process).semaphore_list.len(),
        old(process).semaphore_list@[sem_id as int] is Some,
        tid matches Some(t) ==> {
            &&& old(process).tables().has_entry(t as int, sem_id as int)
            &&& sem_count > 0 ==> old(process).tables().available[sem_id as int] >= 1
            &&& sem_count > 0 ==> old(process).tables().allocation[t as int][sem_id as int] < usize::MAX
            &&& sem_count <= 0 ==> old(process).tables().need[t as int][sem_id as int] < usize::MAX
        },
        detector.enable ==> down_request(old(process).tables(), sem_id as int, tid, sem_count).checkable(),
    ensures
        final(process).mutex_list == old(process).mutex_list,
        final(process).semaphore_list == old(process).semaphore_list,
        final(process).condvar_list == old(process).condvar_list,
        (final(process).tables(), out) == decide(
            old(process).tables(),
            down_request(old(process).tables(), sem_id as int, tid, sem_count),
            detector.enable,
            KernelAction::SemaphoreDown(sem_id),
        ),
        old(process).wf() ==> final(process).wf(),
{
    let ghost tab0 = process.tables();
    let mut need_reset: usize = 0;
    let mut allocation_reset: usize = 0;
    let mut available_reset: usize = 0;
    if let Some(t) = tid {
        proof { lemma_entry_bridge(*process, t as int, sem_id as int); }
        need_reset = process.need[t][sem_id];
        allocation_reset = process.allocation[t][sem_id];
        available_reset = process.available[sem_id];
        if sem_count > 0 {
            process.set_available(sem_id, available_reset - 1);
            process.set_allocation(t, sem_id, allocation_reset + 1);
            if need_reset > 0 {
                process.set_need(t, sem_id, need_reset - 1);
            }
        } else {
            process.set_need(t, sem_id, need_reset + 1);
        }
    }
    assert(process.tables() =~~= down_request(tab0, sem_id as int, tid, sem_count));
    if detector.enable && tables_deadlocked(process) {
        if let Some(t) = tid {
            restore_entry(process, t, sem_id, allocation_reset, need_reset, available_reset);
            proof {
                let a1 = if sem_count > 0 { allocation_reset + 1 } else { allocation_reset as int };
                let n1 = if sem_count > 0 {
                    if need_reset > 0 { need_reset - 1 } else { need_reset as int }
                } else {
                    need_reset + 1
                };
                lemma_set_entry_restore(tab0.allocation, t as int, sem_id as int, a1);
                lemma_set_entry_restore(tab0.need, t as int, sem_id as int, n1);
                assert(set_entry(tab0.allocation, t as int, sem_id as int, allocation_reset as int) =~~= tab0.allocation);
                assert(set_entry(tab0.need, t as int, sem_id as int, need_reset as int) =~~= tab0.need);
                assert(process.tables() =~~= tab0);
            }
        }
        return SyscallOutcome { ret: DEADLOCK_ERROR, action: KernelAction::Return };
    }
    SyscallOutcome { ret: 0, action: KernelAction::SemaphoreDown(sem_id) }
}

/// Signals condition variable `condvar_id`: the kernel goes on to wake one
/// of its waiters.
pub fn sys_condvar_signal(process: &SyncTables, condvar_id: usize) -> (out: SyscallOutcome)
    requires
        condvar_id < process.condvar_list.len(),
        process.condvar_list@[condvar_id as int],
    ensures
        out == (SyscallOutcome { ret: 0, action: KernelAction::CondvarSignal(condvar_id) }),
{
    SyscallOutcome { ret: 0, action: KernelAction::CondvarSignal(condvar_id) }
}

/// Waits on condition variable `condvar_id` with mutex `mutex_id`: the
/// kernel goes on to release the mutex, wait and retake it.
pub fn sys_condvar_wait(process: &SyncTables, condvar_id: usize, mutex_id: usize) -> (out: SyscallOutcome)
    requires
        condvar_id < process.condvar_list.len(),
        process.condvar_list@[condvar_id as int],
        mutex_id < process.mutex_list.len(),
        process.mutex_list@[mutex_id as int] is Some,
    ensures
        out == (SyscallOutcome { ret: 0, action: KernelAction::CondvarWait(condvar_id, mutex_id) }),
{
    SyscallOutcome { ret: 0, action: KernelAction::CondvarWait(condvar_id, mutex_id) }
}

/// Sleeps for `ms` milliseconds from `now_ms`: the kernel goes on to arm a
/// timer that expires at `now_ms + ms` and block the current task.
pub fn sys_sleep(ms: usize, now_ms: usize) -> (out: SyscallOutcome)
    requires
        now_ms + ms <= usize::MAX,
    ensures
        out == (SyscallOutcome { ret: 0, action: KernelAction::SleepUntil((now_ms + ms) as usize) }),
{
    let expire_ms = now_ms + ms;
    SyscallOutcome { ret: 0, action: KernelAction::SleepUntil(expire_ms) }
}

/// Switches deadlock detection on (`enabled == 1`) or off (`enabled == 0`);
/// any other value leaves it as it is. Returns 0.
pub fn sys_enable_deadlock_detect(detector: &mut DeadlockDetectEnable, enabled: usize) -> (ret: isize)
    ensures
        ret == 0,
        final(detector).enable == if enabled == 1 {
            true
        } else if enabled == 0 {
            false
        } else {
            old(detector).enable
        },
{
    match enabled {
        1 => detector.enable = true,
        0 => detector.enable = false,
        _ => (),
    }
    0
}

// ---------------------------------------------------------------------------
// Laws of the bookkeeping.
// ---------------------------------------------------------------------------

/// A request refused for deadlock leaves the bookkeeping exactly as it was
/// before the request.
pub proof fn law_refused_request_changes_nothing(
    tab: Tables,
    request: Tables,
    enable: bool,
    action: KernelAction,
)
    ensures
        decide(tab, request, enable, action).1.ret == DEADLOCK_ERROR ==> decide(
            tab,
            request,
            enable,
            action,
        ).0 == tab,
        decide(tab, request, enable, action).1.ret == DEADLOCK_ERROR ==> decide(
            tab,
            request,
            enable,
            action,
        ).1.action == KernelAction::Return,
{
}

/// With detection on, a granted request never leaves the process
/// deadlocked, and a refused one was one that would have.
pub proof fn law_detection_keeps_safe(tab: Tables, request: Tables, action: KernelAction)
    ensures
        decide(tab, request, true, action).1.ret == 0 ==> !decide(tab, request, true, action).0.is_deadlocked(),
        decide(tab, request, true, action).1.ret == DEADLOCK_ERROR <==> request.is_deadlocked(),
{
}

/// With detection off every request is granted and recorded.
pub proof fn law_detection_off_grants(tab: Tables, request: Tables, action: KernelAction)
    ensures
        decide(tab, request, false, action) == (request, SyscallOutcome { ret: 0, action }),
{
}

/// Taking a free mutex and releasing it again returns the bookkeeping to
/// where it was, when the thread neither needed nor held it before.
pub proof fn law_unlock_undoes_lock(tab: Tables, m: int, t: usize)
    requires
        tab.has_entry(t as int, m),
        tab.need[t as int][m] == 0,
        tab.allocation[t as int][m] == 0,
        tab.available[m] == 1,
    ensures
        unlock_release(lock_request(tab, m, Some(t), false), m, Some(t)) == tab,
{
    let after = unlock_release(lock_request(tab, m, Some(t), false), m, Some(t));
    assert(after.available =~= tab.available);
    assert(after.allocation[t as int] =~= tab.allocation[t as int]);
    assert(after.allocation =~= tab.allocation);
    assert(after.need[t as int] =~= tab.need[t as int]);
    assert(after.need =~= tab.need);
}

/// A granted request to take a free mutex, followed by its release,
/// returns the bookkeeping to where it was, when the thread neither needed
/// nor held it before.
pub proof fn law_unlock_undoes_granted_lock(tab: Tables, m: int, t: usize, enable: bool)
    requires
        tab.has_entry(t as int, m),
        tab.need[t as int][m] == 0,
        tab.allocation[t as int][m] == 0,
        tab.available[m] == 1,
    ensures
        ({
            let (locked, out) = decide(
                tab,
                lock_request(tab, m, Some(t), false),
                enable,
                KernelAction::MutexLock(m as usize),
            );
            out.ret == 0 ==> unlock_release(locked, m, Some(t)) == tab
        }),
{
    law_unlock_undoes_lock(tab, m, t);
}

/// A granted request for a semaphore resource that is there, followed by
/// giving it back, returns the bookkeeping to where it was, when the thread
/// did not wait for it before.
pub proof fn law_up_undoes_granted_down(tab: Tables, s: int, t: usize, count: isize, enable: bool)
    requires
        tab.has_entry(t as int, s),
        count > 0,
        tab.available[s] >= 1,
        tab.allocation[t as int][s] < usize::MAX,
        tab.need[t as int][s] == 0,
    ensures
        ({
            let (taken, out) = decide(
                tab,
                down_request(tab, s, Some(t), count),
                enable,
                KernelAction::SemaphoreDown(s as usize),
            );
            out.ret == 0 ==> up_release(taken, s, Some(t)) == tab
        }),
{
    law_up_undoes_down(tab, s, t, count);
}

/// Taking a semaphore resource that is there and giving it back returns the
/// bookkeeping to where it was, when the thread did not wait for it before.
pub proof fn law_up_undoes_down(tab: Tables, s: int, t: usize, count: isize)
    requires
        tab.has_entry(t as int, s),
        count > 0,
        tab.available[s] >= 1,
        tab.allocation[t as int][s] < usize::MAX,
        tab.need[t as int][s] == 0,
    ensures
        up_release(down_request(tab, s, Some(t), count), s, Some(t)) == tab,
{
    let after = up_release(down_request(tab, s, Some(t), count), s, Some(t));
    assert(after.available =~= tab.available);
    assert(after.allocation[t as int] =~= tab.allocation[t as int]);
    assert(after.allocation =~= tab.allocation);
    assert(after.need =~= tab.need);
}

/// A resource created in a column starts with `count` free units that no
/// thread holds or needs, and every other column is untouched.
pub proof fn law_new_resource_is_idle(tab: Tables, k: int, count: usize)
    requires
        column_fits(tab, k),
    ensures
        reuse_column(tab, k, count).available[k] == count,
        forall|t: int|
            0 <= t < tab.allocation.len() ==> #[trigger] reuse_column(tab, k, count).allocation[t][k] == 0,
        forall|t: int| 0 <= t < tab.need.len() ==> #[trigger] reuse_column(tab, k, count).need[t][k] == 0,
        forall|t: int, j: int|
            0 <= t < tab.allocation.len() && 0 <= j < tab.allocation[t].len() && j != k
                ==> #[trigger] reuse_column(tab, k, count).allocation[t][j] == tab.allocation[t][j],
        forall|t: int, j: int|
            0 <= t < tab.need.len() && 0 <= j < tab.need[t].len() && j != k
                ==> #[trigger] reuse_column(tab, k, count).need[t][j] == tab.need[t][j],
        append_column(tab, count).available.last() == count,
        forall|t: int|
            0 <= t < tab.allocation.len() ==> #[trigger] append_column(tab, count).allocation[t].last() == 0,
        forall|t: int| 0 <= t < tab.need.len() ==> #[trigger] append_column(tab, count).need[t].last() == 0,
{
}

/// `after` differs from `before` at most in entry `(t, k)` of the two
/// matrices and entry `k` of the resource vector: every shape and every
/// other entry is the same.
pub open spec fn only_entry_changes(before: Tables, after: Tables, t: int, k: int) -> bool {
    &&& after.available.len() == before.available.len()
    &&& after.allocation.len() == before.allocation.len()
    &&& after.need.len() == before.need.len()
    &&& forall|j: int| 0 <= j < before.available.len() && j != k ==> #[trigger] after.available[j] == before.available[j]
    &&& forall|u: int|
        0 <= u < before.allocation.len() ==> #[trigger] after.allocation[u].len() == before.allocation[u].len()
    &&& forall|u: int| 0 <= u < before.need.len() ==> #[trigger] after.need[u].len() == before.need[u].len()
    &&& forall|u: int, j: int|
        0 <= u < before.allocation.len() && 0 <= j < before.allocation[u].len() && (u != t || j != k)
            ==> #[trigger] after.allocation[u][j] == before.allocation[u][j]
    &&& forall|u: int, j: int|
        0 <= u < before.need.len() && 0 <= j < before.need[u].len() && (u != t || j != k)
            ==> #[trigger] after.need[u][j] == before.need[u][j]
}

/// Asking for a mutex: a thread that finds it taken now needs exactly one
/// unit of it and nothing else changes; a thread that finds it free now
/// holds exactly one unit, none is free, and nothing else changes. Without
/// a current thread nothing changes.
pub proof fn law_lock_request_entries(tab: Tables, m: int, t: usize, taken: bool)
    requires
        tab.has_entry(t as int, m),
    ensures
        only_entry_changes(tab, lock_request(tab, m, Some(t), taken), t as int, m),
        taken ==> lock_request(tab, m, Some(t), taken).need[t as int][m] == 1,
        taken ==> lock_request(tab, m, Some(t), taken).allocation[t as int][m] == tab.allocation[t as int][m],
        taken ==> lock_request(tab, m, Some(t), taken).available[m] == tab.available[m],
        !taken ==> lock_request(tab, m, Some(t), taken).allocation[t as int][m] == 1,
        !taken ==> lock_request(tab, m, Some(t), taken).available[m] == 0,
        !taken ==> lock_request(tab, m, Some(t), taken).need[t as int][m] == tab.need[t as int][m],
        lock_request(tab, m, None, taken) == tab,
{
}

/// Releasing a mutex: whatever the thread held or needed of it before, it
/// now neither holds nor needs it, one unit is free, and nothing else
/// changes. Without a current thread nothing changes.
pub proof fn law_unlock_release_entries(tab: Tables, m: int, t: usize)
    requires
        tab.has_entry(t as int, m),
    ensures
        only_entry_changes(tab, unlock_release(tab, m, Some(t)), t as int, m),
        unlock_release(tab, m, Some(t)).need[t as int][m] == 0,
        unlock_release(tab, m, Some(t)).allocation[t as int][m] == 0,
        unlock_release(tab, m, Some(t)).available[m] == 1,
        unlock_release(tab, m, None) == tab,
{
}

/// Asking for a semaphore unit: with units left the thread holds one more,
/// one fewer is free, and its outstanding need drops by one unless it was
/// zero; with none left the thread needs exactly one more and the rest of
/// the entry stays. Nothing else changes; without a current thread nothing
/// changes.
pub proof fn law_down_request_entries(tab: Tables, s: int, t: usize, count: isize)
    requires
        tab.has_entry(t as int, s),
        count > 0 ==> tab.available[s] >= 1,
        count > 0 ==> tab.allocation[t as int][s] < usize::MAX,
        count <= 0 ==> tab.need[t as int][s] < usize::MAX,
    ensures
        only_entry_changes(tab, down_request(tab, s, Some(t), count), t as int, s),
        count > 0 ==> down_request(tab, s, Some(t), count).available[s] == tab.available[s] - 1,
        count > 0 ==> down_request(tab, s, Some(t), count).allocation[t as int][s]
            == tab.allocation[t as int][s] + 1,
        count > 0 && tab.need[t as int][s] > 0 ==> down_request(tab, s, Some(t), count).need[t as int][s]
            == tab.need[t as int][s] - 1,
        count > 0 && tab.need[t as int][s] == 0 ==> down_request(tab, s, Some(t), count).need[t as int][s] == 0,
        count <= 0 ==> down_request(tab, s, Some(t), count).need[t as int][s] == tab.need[t as int][s] + 1,
        count <= 0 ==> down_request(tab, s, Some(t), count).allocation[t as int][s] == tab.allocation[t as int][s],
        count <= 0 ==> down_request(tab, s, Some(t), count).available[s] == tab.available[s],
        down_request(tab, s, None, count) == tab,
{
}

/// Giving back a semaphore unit: the thread holds one fewer, one more is
/// free, its need is untouched, and nothing else changes. Without a current
/// thread nothing changes.
pub proof fn law_up_release_entries(tab: Tables, s: int, t: usize)
    requires
        tab.has_entry(t as int, s),
        tab.allocation[t as int][s] >= 1,
        tab.available[s] < usize::MAX,
    ensures
        only_entry_changes(tab, up_release(tab, s, Some(t)), t as int, s),
        up_release(tab, s, Some(t)).allocation[t as int][s] == tab.allocation[t as int][s] - 1,
        up_release(tab, s, Some(t)).available[s] == tab.available[s] + 1,
        up_release(tab, s, Some(t)).need[t as int][s] == tab.need[t as int][s],
        up_release(tab, s, None) == tab,
{
}

/// A mutex created with `blocking` set waits by blocking, one created
/// without it waits by spinning.
pub proof fn law_mutex_kind(blocking: bool)
    ensures
        (mutex_kind(blocking) == MutexKind::Blocking) == blocking,
        (mutex_kind(blocking) == MutexKind::Spin) == !blocking,
{
}

/// The slot that a creation reuses is free and every slot before it is
/// taken; when no slot is reused, every slot is taken.
pub proof fn law_first_free_is_lowest<T>(list: Seq<Option<T>>)
    ensures
        first_free(list) matches Some(k) ==> 0 <= k < list.len() && list[k] is None && forall|j: int|
            0 <= j < k ==> #[trigger] list[j] is Some,
        first_free(list) is None ==> forall|j: int| 0 <= j < list.len() ==> #[trigger] list[j] is Some,
{
    if first_free(list) is None {
        assert forall|j: int| 0 <= j < list.len() implies #[trigger] list[j] is Some by {
            if list[j] is None {
                let k = lemma_lowest_free(list, j);
                assert(is_first_free(list, k));
            }
        }
    }
}

/// Below a free slot `j` there is a lowest free slot.
proof fn lemma_lowest_free<T>(list: Seq<Option<T>>, j: int) -> (k: int)
    requires
        0 <= j < list.len(),
        list[j] is None,
    ensures
        is_first_free(list, k),
    decreases j,
{
    if exists|i: int| 0 <= i < j && #[trigger] list[i] is None {
        let i = choose|i: int| 0 <= i < j && #[trigger] list[i] is None;
        lemma_lowest_free(list, i)
    } else {
        j
    }
}

/// The condition-variable slot that a creation reuses is unused and every
/// slot before it is used; when none is reused, every slot is used.
pub proof fn law_first_unused_is_lowest(list: Seq<bool>)
    ensures
        first_unused(list) matches Some(k) ==> 0 <= k < list.len() && !list[k] && forall|j: int|
            0 <= j < k ==> #[trigger] list[j],
        first_unused(list) is None ==> forall|j: int| 0 <= j < list.len() ==> #[trigger] list[j],
{
    if first_unused(list) is None {
        assert forall|j: int| 0 <= j < list.len() implies #[trigger] list[j] by {
            if !list[j] {
                let k = lemma_lowest_unused(list, j);
                assert(is_first_unused(list, k));
            }
        }
    }
}

/// Below an unused slot `j` there is a lowest unused slot.
proof fn lemma_lowest_unused(list: Seq<bool>, j: int) -> (k: int)
    requires
        0 <= j < list.len(),
        !list[j],
    ensures
        is_first_unused(list, k),
    decreases j,
{
    if exists|i: int| 0 <= i < j && !#[trigger] list[i] {
        let i = choose|i: int| 0 <= i < j && !#[trigger] list[i];
        lemma_lowest_unused(list, i)
    } else {
        j
    }
}

} // verus!
