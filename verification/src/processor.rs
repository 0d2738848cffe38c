use vstd::prelude::*;
use crate::mm::{MapPermission, VirtAddr};

verus! {

/// How many system calls a task's counters cover.
pub const MAX_SYSCALL_NUM: usize = 500;

/// Where a task is in its life cycle.
#[derive(Debug, Clone, Copy, PartialEq, Eq)]
pub enum TaskStatus {
    Ready,
    Running,
    Blocked,
}

/// What the processor reads and writes of a task's control block.
#[derive(Clone, Copy)]
pub struct TaskRecord {
    pub task_status: TaskStatus,
    /// When the task first ran, in milliseconds; 0 until then.
    pub start_time: usize,
    /// How often the task made each system call.
    pub syscall_times: [u32; MAX_SYSCALL_NUM],
    /// The task's stride-scheduling priority.
    pub priority: usize,
    /// The task's stride-scheduling pass value.
    pub stride: usize,
    /// The token (page-table root) of the task's address space.
    pub user_token: usize,
}

/// `after` is `before` with one more call of system call `id` counted.
pub open spec fn counted_once(before: TaskRecord, after: TaskRecord, id: int) -> bool {
    &&& after.syscall_times@ == before.syscall_times@.update(
        id,
        (before.syscall_times@[id] + 1) as u32,
    )
    &&& after.task_status == before.task_status
    &&& after.start_time == before.start_time
    &&& after.priority == before.priority
    &&& after.stride == before.stride
    &&& after.user_token == before.user_token
}

/// Processor management: the task this processor is running, if any.
pub struct Processor {
    current: Option<TaskRecord>,
}

impl Processor {
    /// The task that this processor is running, if any.
    pub closed spec fn running(&self) -> Option<TaskRecord> {
        self.current
    }

    /// A processor that runs no task.
    pub fn new() -> (p: Self)
        ensures
            p.running() is None,
    {
        Self { current: None }
    }

    /// Takes the current task out, leaving the processor without one.
    pub fn take_current(&mut self) -> (task: Option<TaskRecord>)
        ensures
            task == old(self).running(),
            final(self).running() is None,
    {
        self.current.take()
    }

    /// A copy of the current task.
    pub fn current(&self) -> (task: Option<TaskRecord>)
        ensures
            task == self.running(),
    {
        self.current
    }

    /// How long the current task has existed at `now_ms`: `now_ms` minus its
    /// start time; 0 when there is no current task.
    pub fn get_task_time(&self, now_ms: usize) -> (time: usize)
        requires
            self.running() matches Some(task) ==> task.start_time <= now_ms,
        ensures
            time == match self.running() {
                Some(task) => (now_ms - task.start_time) as usize,
                None => 0,
            },
    {
        match self.current() {
            Some(task) => now_ms - task.start_time,
            None => 0,
        }
    }

    /// The current task's system-call counters; all zero when there is no
    /// current task.
    pub fn get_syscall_times(&self) -> (times: [u32; MAX_SYSCALL_NUM])
        ensures
            match self.running() {
                Some(task) => times@ == task.syscall_times@,
                None => forall|i: int| 0 <= i < MAX_SYSCALL_NUM ==> times@[i] == 0,
            },
    {
        match self.current() {
            Some(task) => task.syscall_times,
            None => [0u32; MAX_SYSCALL_NUM],
        }
    }

    /// Counts one more call of system call `syscall_id` for the current
    /// task; does nothing when there is no current task.
    pub fn count_syscall_times(&mut self, syscall_id: usize)
        requires
            old(self).running() matches Some(task) ==> syscall_id < MAX_SYSCALL_NUM
                && task.syscall_times@[syscall_id as int] < u32::MAX,
        ensures
            match (old(self).running(), final(self).running()) {
                (Some(before), Some(after)) => counted_once(before, after, syscall_id as int),
                (None, None) => true,
                _ => false,
            },
    {
        if let Some(mut task) = self.current {
            let n = task.syscall_times[syscall_id];
            task.syscall_times[syscall_id] = n + 1;
            self.current = Some(task);
        }
    }
    /// Sets the current task's priority; does nothing when there is no
    /// current task.
    pub fn set_priority(&mut self, priority: usize)
        ensures
            match (old(self).running(), final(self).running()) {
                (Some(before), Some(after)) => after == (TaskRecord { priority, ..before }),
                (None, None) => true,
                _ => false,
            },
    {
        if let Some(mut task) = self.current {
            task.priority = priority;
            self.current = Some(task);
        }
    }

    /// Maps a new framed area `[start_va, end_va)` with `permission` into
    /// the current task's address space: fails when there is no current
    /// task or when `space_check` finds the range not free, else calls
    /// `insert_framed_area` and succeeds.
    pub fn alloc_new_space(
        &self,
        start_va: VirtAddr,
        end_va: VirtAddr,
        permission: MapPermission,
        space_check: impl FnOnce(VirtAddr, VirtAddr) -> bool,
        insert_framed_area: impl FnOnce(VirtAddr, VirtAddr, MapPermission),
    ) -> (ok: bool)
        requires
            self.running() is Some ==> call_requires(space_check, (start_va, end_va)),
            forall|free: bool|
                call_ensures(space_check, (start_va, end_va), free) && free && self.running() is Some
                    ==> call_requires(insert_framed_area, (start_va, end_va, permission)),
        ensures
            self.running() is None ==> !ok,
            self.running() is Some ==> exists|free: bool|
                call_ensures(space_check, (start_va, end_va), free) && ok == free,
            ok ==> call_ensures(insert_framed_area, (start_va, end_va, permission), ()),
    {
        match self.current() {
            Some(_) => {
                if !space_check(start_va, end_va) {
                    return false;
                }
                insert_framed_area(start_va, end_va, permission);
                true
            },
            None => false,
        }
    }

    /// Unmaps `[start_va, end_va)` from the current task's address space
    /// with `unmap_space` and reports whether it did; fails when there is no
    /// current task.
    pub fn dealloc_space(
        &self,
        start_va: VirtAddr,
        end_va: VirtAddr,
        unmap_space: impl FnOnce(VirtAddr, VirtAddr) -> bool,
    ) -> (ok: bool)
        requires
            self.running() is Some ==> call_requires(unmap_space, (start_va, end_va)),
        ensures
            self.running() is None ==> !ok,
            self.running() is Some ==> exists|done: bool|
                call_ensures(unmap_space, (start_va, end_va), done) && ok == done,
    {
        match self.current() {
            Some(_) => unmap_space(start_va, end_va),
            None => false,
        }
    }
}

/// `after` is `before` made ready to run at `now_ms`: running, started at
/// `now_ms` unless it had started already, and its pass value advanced by
/// `big_stride / priority`.
pub open spec fn prepared(before: TaskRecord, after: TaskRecord, now_ms: usize, big_stride: usize) -> bool {
    &&& after.task_status == TaskStatus::Running
    &&& after.start_time == if before.start_time == 0 {
        now_ms
    } else {
        before.start_time
    }
    &&& after.stride == before.stride + big_stride / before.priority
    &&& after.syscall_times == before.syscall_times
    &&& after.priority == before.priority
    &&& after.user_token == before.user_token
}

/// Between two schedulings of a task nothing touched its pass value, its
/// start time or its priority (its counters and status may have changed).
pub open spec fn untouched_between(made: TaskRecord, handed: TaskRecord) -> bool {
    &&& handed.stride == made.stride
    &&& handed.start_time == made.start_time
    &&& handed.priority == made.priority
}

/// The rounds that schedule a task: round `i` is handed `handed[i]` at
/// `nows[i]` and makes `made[i]`, and between rounds nothing touches the
/// task's pass value, start time or priority.
pub open spec fn scheduling_rounds(
    handed: Seq<TaskRecord>,
    made: Seq<TaskRecord>,
    nows: Seq<usize>,
    big_stride: usize,
) -> bool {
    &&& handed.len() == made.len()
    &&& nows.len() >= handed.len()
    &&& forall|i: int|
        0 <= i < handed.len() ==> prepared(#[trigger] handed[i], made[i], nows[i], big_stride)
    &&& forall|i: int|
        0 <= i < handed.len() - 1 ==> untouched_between(#[trigger] made[i], handed[i + 1])
}

proof fn lemma_round_stride(
    handed: Seq<TaskRecord>,
    made: Seq<TaskRecord>,
    nows: Seq<usize>,
    big_stride: usize,
    p: usize,
    i: int,
)
    requires
        p > 0,
        scheduling_rounds(handed, made, nows, big_stride),
        handed.len() >= 1,
        handed[0].priority == p,
        0 <= i < handed.len(),
    ensures
        handed[i].priority == p,
        made[i].priority == p,
        made[i].stride == handed[0].stride + (i + 1) * (big_stride / p),
    decreases i,
{
    assert(prepared(handed[i], made[i], nows[i], big_stride));
    if i > 0 {
        lemma_round_stride(handed, made, nows, big_stride, p, i - 1);
        assert(untouched_between(made[i - 1], handed[i]));
        assert(i * (big_stride / p) + big_stride / p == (i + 1) * (big_stride / p))
            by (nonlinear_arith);
    }
}

proof fn lemma_round_start(
    handed: Seq<TaskRecord>,
    made: Seq<TaskRecord>,
    nows: Seq<usize>,
    big_stride: usize,
    i: int,
    j: int,
)
    requires
        scheduling_rounds(handed, made, nows, big_stride),
        0 <= i <= j < handed.len(),
        made[i].start_time != 0,
    ensures
        made[j].start_time == made[i].start_time,
    decreases j - i,
{
    if i < j {
        lemma_round_start(handed, made, nows, big_stride, i, j - 1);
        assert(untouched_between(made[j - 1], handed[j]));
        assert(prepared(handed[j], made[j], nows[j], big_stride));
    }
}

/// Over the rounds that schedule a task of priority `p`, between which
/// nothing touches its pass value, start time or priority, the pass value
/// after round `i` has grown by exactly `(i + 1) * (big_stride / p)`, and a
/// start time once set is never changed by a later round.
pub proof fn law_rounds_advance_stride(
    handed: Seq<TaskRecord>,
    made: Seq<TaskRecord>,
    nows: Seq<usize>,
    big_stride: usize,
    p: usize,
)
    requires
        p > 0,
        scheduling_rounds(handed, made, nows, big_stride),
        handed.len() >= 1,
        handed[0].priority == p,
    ensures
        forall|i: int|
            0 <= i < made.len() ==> #[trigger] made[i].stride == handed[0].stride + (i + 1) * (
            big_stride / p) && made[i].priority == p,
        forall|i: int, j: int|
            0 <= i <= j < made.len() && made[i].start_time != 0 ==> #[trigger] made[j].start_time
                == #[trigger] made[i].start_time,
{
    assert forall|i: int| 0 <= i < made.len() implies #[trigger] made[i].stride == handed[0].stride + (
    i + 1) * (big_stride / p) && made[i].priority == p by {
        lemma_round_stride(handed, made, nows, big_stride, p, i);
    }
    assert forall|i: int, j: int|
        0 <= i <= j < made.len() && made[i].start_time != 0 implies #[trigger] made[j].start_time
        == #[trigger] made[i].start_time by {
        lemma_round_start(handed, made, nows, big_stride, i, j);
    }
}

/// One round of the scheduling loop, given the task that the ready queue
/// handed out (`None` when it was empty): the task is marked running, gets
/// its start time if it never ran, advances its pass value by
/// `big_stride / priority` and becomes the processor's current task, to
/// which the kernel then switches. Returns whether there was a task.
pub fn run_tasks(
    processor: &mut Processor,
    fetched: Option<TaskRecord>,
    now_ms: usize,
    big_stride: usize,
) -> (switched: bool)
    requires
        fetched matches Some(task) ==> task.priority > 0 && task.stride + big_stride / task.priority
            <= usize::MAX,
    ensures
        switched == fetched is Some,
        match fetched {
            Some(task) => final(processor).running() matches Some(next) && prepared(task, next, now_ms, big_stride),
            None => final(processor).running() == old(processor).running(),
        },
{
    if let Some(mut task) = fetched {
        task.task_status = TaskStatus::Running;
        if task.start_time == 0 {
            task.start_time = now_ms;
        }
        task.stride = task.stride + big_stride / task.priority;
        processor.current = Some(task);
        true
    } else {
        false
    }
}

/// Takes the current task out of `processor`.
pub fn take_current_task(processor: &mut Processor) -> (task: Option<TaskRecord>)
    ensures
        task == old(processor).running(),
        final(processor).running() is None,
{
    processor.take_current()
}

/// A copy of the current task of `processor`.
pub fn current_task(processor: &Processor) -> (task: Option<TaskRecord>)
    ensures
        task == processor.running(),
{
    processor.current()
}

/// The address-space token of the current task.
pub fn current_user_token(processor: &Processor) -> (token: usize)
    requires
        processor.running() is Some,
    ensures
        token == processor.running().unwrap().user_token,
{
    let task = current_task(processor).unwrap();
    task.user_token
}

} // verus!
