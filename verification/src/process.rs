use vstd::prelude::*;
use vstd::bytes::{spec_u64_from_le_bytes, spec_u64_to_le_bytes, u64_to_le_bytes};
use crate::banker::rows_view;
use crate::mm::{spec_va, MapPermission, VirtAddr, MAP_PERMISSION_ALL, PAGE_SIZE};
use crate::outcome::{KernelAction, SyscallOutcome};
use crate::processor::{TaskStatus, MAX_SYSCALL_NUM};

verus! {

/// A point in time as seconds and microseconds.
#[derive(Debug, Clone, Copy, PartialEq, Eq)]
pub struct TimeVal {
    pub sec: usize,
    pub usec: usize,
}

impl TimeVal {
    /// The bytes of this value as the kernel's 64-bit little-endian target
    /// lays it out: `sec`, then `usec`, eight bytes each.
    pub open spec fn layout(self) -> Seq<u8> {
        spec_u64_to_le_bytes(self.sec as u64) + spec_u64_to_le_bytes(self.usec as u64)
    }

    /// The bytes of this value, as `layout` gives them.
    pub fn to_bytes(&self) -> (bytes: Vec<u8>)
        ensures
            bytes@ == self.layout(),
    {
        let mut bytes = u64_to_le_bytes(self.sec as u64);
        let mut tail = u64_to_le_bytes(self.usec as u64);
        bytes.append(&mut tail);
        bytes
    }
}

/// Task information.
#[derive(Clone, Copy)]
pub struct TaskInfo {
    /// Task status in its life cycle.
    pub status: TaskStatus,
    /// How often the task made each system call.
    pub syscall_times: [u32; MAX_SYSCALL_NUM],
    /// Total running time of the task, in milliseconds.
    pub time: usize,
}

/// The bytes that buffers `0 .. j` hold together.
pub open spec fn prefix_len(buffers: Seq<Seq<u8>>, j: int) -> int
    decreases j,
{
    if j <= 0 {
        0
    } else {
        prefix_len(buffers, j - 1) + buffers[j - 1].len()
    }
}

/// Later prefixes are at least as long.
proof fn lemma_prefix_mono(buffers: Seq<Seq<u8>>, i: int, j: int)
    requires
        0 <= i <= j,
    ensures
        prefix_len(buffers, i) <= prefix_len(buffers, j),
    decreases j - i,
{
    if i < j {
        lemma_prefix_mono(buffers, i, j - 1);
    }
}

/// Copies `bytes` into the user buffers in order: buffer `j` receives the
/// bytes from where buffer `j - 1` stopped, as many as it is long.
pub fn copy_to_buffers(bytes: &Vec<u8>, buffers: &mut Vec<Vec<u8>>)
    requires
        prefix_len(rows_view(old(buffers)@), old(buffers).len() as int) <= bytes.len(),
    ensures
        final(buffers).len() == old(buffers).len(),
        forall|j: int|
            0 <= j < old(buffers).len() ==> #[trigger] final(buffers)@[j]@ == bytes@.subrange(
                prefix_len(rows_view(old(buffers)@), j),
                prefix_len(rows_view(old(buffers)@), j) + old(buffers)@[j].len(),
            ),
{
    let ghost bufs = rows_view(old(buffers)@);
    let ghost n = old(buffers).len() as int;
    let mut offset: usize = 0;
    let mut j: usize = 0;
    while j < buffers.len()
        invariant
            j <= buffers.len(),
            buffers.len() == n,
            bufs == rows_view(old(buffers)@),
            bufs.len() == n,
            prefix_len(bufs, n) <= bytes.len(),
            offset == prefix_len(bufs, j as int),
            forall|i: int|
                0 <= i < j ==> #[trigger] buffers@[i]@ == bytes@.subrange(
                    prefix_len(bufs, i),
                    prefix_len(bufs, i) + bufs[i].len(),
                ),
            forall|i: int| j <= i < n ==> #[trigger] buffers@[i] == old(buffers)@[i],
        decreases n - j,
    {
        let slice_len = buffers[j].len();
        proof {
            lemma_prefix_mono(bufs, j as int + 1, n);
            assert(bufs.len() == n);
            assert(buffers@[j as int] == old(buffers)@[j as int]);
            assert(bufs[j as int] == old(buffers)@[j as int]@);
        }
        let mut k: usize = 0;
        while k < slice_len
            invariant
                k <= slice_len,
                j < buffers.len(),
                buffers.len() == n,
                slice_len == buffers@[j as int].len(),
                bufs == rows_view(old(buffers)@),
                bufs.len() == n,
                offset + slice_len <= bytes.len(),
                forall|t: int| 0 <= t < k ==> #[trigger] buffers@[j as int]@[t] == bytes@[offset + t],
                forall|i: int|
                    0 <= i < j ==> #[trigger] buffers@[i]@ == bytes@.subrange(
                        prefix_len(bufs, i),
                        prefix_len(bufs, i) + bufs[i].len(),
                    ),
                forall|i: int| j < i < n ==> #[trigger] buffers@[i] == old(buffers)@[i],
            decreases slice_len - k,
        {
            let b = bytes[offset + k];
            buffers[j].set(k, b);
            k = k + 1;
        }
        assert(buffers@[j as int]@ =~= bytes@.subrange(offset as int, offset + slice_len));
        offset = offset + slice_len;
        j = j + 1;
    }
}

/// The current task exits and submits `exit_code`: the kernel ends it with
/// that code and runs the next one.
pub fn sys_exit(exit_code: i32) -> (action: KernelAction)
    ensures
        action == KernelAction::ExitCurrent(exit_code),
{
    KernelAction::ExitCurrent(exit_code)
}

/// The current task gives up the processor: the kernel suspends it and
/// runs the next one, and the call returns 0.
pub fn sys_yield() -> (out: SyscallOutcome)
    ensures
        out == (SyscallOutcome { ret: 0, action: KernelAction::SuspendCurrent }),
{
    SyscallOutcome { ret: 0, action: KernelAction::SuspendCurrent }
}

/// The time `us` microseconds as seconds and microseconds.
pub open spec fn time_of(us: usize) -> TimeVal {
    TimeVal { sec: us / 1_000_000, usec: us % 1_000_000 }
}

/// Writes the time `us` (microseconds) into the user buffers that hold
/// the caller's `TimeVal`, as its bytes laid out in order over the buffers,
/// and returns 0.
pub fn sys_get_time(us: usize, buffers: &mut Vec<Vec<u8>>) -> (ret: isize)
    requires
        prefix_len(rows_view(old(buffers)@), old(buffers).len() as int) <= 16,
    ensures
        ret == 0,
        final(buffers).len() == old(buffers).len(),
        forall|j: int|
            0 <= j < old(buffers).len() ==> #[trigger] final(buffers)@[j]@ == time_of(us).layout().subrange(
                prefix_len(rows_view(old(buffers)@), j),
                prefix_len(rows_view(old(buffers)@), j) + old(buffers)@[j].len(),
            ),
{
    let ts = TimeVal { sec: us / 1_000_000, usec: us % 1_000_000 };
    let bytes = ts.to_bytes();
    proof {
        vstd::bytes::lemma_auto_spec_u64_to_from_le_bytes();
    }
    copy_to_buffers(&bytes, buffers);
    0
}

/// The information that the task-info call hands back, from the current
/// task's system-call counters and running time: the task is running.
pub fn sys_task_info(syscall_times: [u32; MAX_SYSCALL_NUM], time: usize) -> (info: TaskInfo)
    ensures
        info.status == TaskStatus::Running,
        info.syscall_times == syscall_times,
        info.time == time,
{
    TaskInfo { status: TaskStatus::Running, syscall_times, time }
}

/// `sys_mmap` can build a permission from `port`: bits 4 to 6 of `port`
/// are clear (they would land outside the permission bits).
pub open spec fn port_has_permission(port: usize) -> bool {
    (port / 16) % 8 == 0
}

/// The area that `sys_mmap(start, len, port)` asks the kernel to map: none
/// when `port` is not between 1 and 7 or `start` is not page-aligned.
pub open spec fn mmap_request(start: usize, len: usize, port: usize) -> Option<(VirtAddr, VirtAddr, MapPermission)> {
    if !(1 <= port <= 7) {
        None
    } else if spec_va(start).0 % PAGE_SIZE != 0 {
        None
    } else {
        Some((spec_va(start), spec_va((start + len) as usize), MapPermission { bits: (2 * port + 16) as u8 }))
    }
}

/// Maps `len` bytes from `start` with the rights in `port` (bit 0 read,
/// bit 1 write, bit 2 execute) into the current task's address space, by
/// `insert_new_framed_area`. Returns -1 when `port` names no right or sets
/// bit 3 or a bit from 7 up, or `start` is not page-aligned, or the kernel
/// could not map the area; 0 when it mapped it. Ports with any of bits 4 to
/// 6 set are not admitted: no permission can be built from them.
pub fn sys_mmap(
    start: usize,
    len: usize,
    port: usize,
    insert_new_framed_area: impl FnOnce(VirtAddr, VirtAddr, MapPermission) -> bool,
) -> (ret: isize)
    requires
        start + len <= usize::MAX,
        port_has_permission(port),
        mmap_request(start, len, port) matches Some(args) ==> call_requires(
            insert_new_framed_area,
            args,
        ),
    ensures
        match mmap_request(start, len, port) {
            None => ret == -1,
            Some(args) => exists|mapped: bool|
                call_ensures(insert_new_framed_area, args, mapped) && ret == if mapped {
                    0
                } else {
                    -1
                },
        },
{
    let start_va = VirtAddr::from_usize(start);
    let end_va = VirtAddr::from_usize(start + len);
    let bits = ((port << 1) | 16) as u8;
    assert(bits & !MAP_PERMISSION_ALL == 0) by (bit_vector)
        requires
            bits == ((port << 1) | 16) as u8,
            (port / 16) % 8 == 0,
    ;
    assert(1 <= port <= 7 ==> bits == (2 * port + 16) as u8) by (bit_vector)
        requires
            bits == ((port << 1) | 16) as u8,
    ;
    let permission = MapPermission::from_bits(bits).unwrap();
    let rejected = port & !0x7 != 0 || port & 0x7 == 0;
    assert(rejected == !(1 <= port <= 7)) by (bit_vector)
        requires
            rejected == (port & !0x7 != 0 || port & 0x7 == 0),
    ;
    if rejected {
        return -1;
    }
    if !start_va.aligned() {
        return -1;
    }
    if !insert_new_framed_area(start_va, end_va, permission) {
        return -1;
    }
    0
}

/// Unmaps `len` bytes from `start` from the current task's address space,
/// by `dealloc_current_space`: 0 when the kernel did, -1 when it could not.
pub fn sys_munmap(
    start: usize,
    len: usize,
    dealloc_current_space: impl FnOnce(VirtAddr, VirtAddr) -> bool,
) -> (ret: isize)
    requires
        start + len <= usize::MAX,
        call_requires(dealloc_current_space, (spec_va(start), spec_va((start + len) as usize))),
    ensures
        exists|done: bool|
            #[trigger] call_ensures(
                dealloc_current_space,
                (spec_va(start), spec_va((start + len) as usize)),
                done,
            ) && ret == if done {
                0
            } else {
                -1
            },
{
    let start_va = VirtAddr::from_usize(start);
    let end_va = VirtAddr::from_usize(start + len);
    if dealloc_current_space(start_va, end_va) {
        return 0;
    }
    -1
}

/// Moves the current task's program break by `size` bytes, by
/// `change_program_brk`: returns the old break, or -1 when the kernel
/// refused.
pub fn sys_sbrk(size: i32, change_program_brk: impl FnOnce(i32) -> Option<usize>) -> (ret: isize)
    requires
        call_requires(change_program_brk, (size,)),
    ensures
        exists|old_brk: Option<usize>|
            call_ensures(change_program_brk, (size,), old_brk) && ret == match old_brk {
                Some(b) => b as isize,
                None => -1isize,
            },
{
    if let Some(old_brk) = change_program_brk(size) {
        old_brk as isize
    } else {
        -1
    }
}

/// The time value splits `us` exactly into whole seconds and the
/// microseconds left over.
pub proof fn law_time_splits(us: usize)
    ensures
        time_of(us).sec * 1_000_000 + time_of(us).usec == us,
        time_of(us).usec < 1_000_000,
{
}

/// The bytes of a time value are sixteen, and its two halves read back as
/// `sec` and `usec`.
pub proof fn law_layout_reads_back(tv: TimeVal)
    ensures
        tv.layout().len() == 16,
        spec_u64_from_le_bytes(tv.layout().subrange(0, 8)) == tv.sec,
        spec_u64_from_le_bytes(tv.layout().subrange(8, 16)) == tv.usec,
{
    vstd::bytes::lemma_auto_spec_u64_to_from_le_bytes();
    assert(tv.layout().subrange(0, 8) =~= spec_u64_to_le_bytes(tv.sec as u64));
    assert(tv.layout().subrange(8, 16) =~= spec_u64_to_le_bytes(tv.usec as u64));
}

/// `sys_mmap` turns a request down exactly when `port` is not between 1 and
/// 7 or `start`, cut to its low 39 bits, is not page-aligned; the length
/// plays no part in that. Otherwise it asks the kernel to map from `start`
/// to `start + len` (both cut to 39 bits) with the rights of `port` one bit
/// up and the user bit: `2 * port + 16`.
pub proof fn law_mmap_request_exact(start: usize, len: usize, port: usize)
    requires
        start + len <= usize::MAX,
    ensures
        mmap_request(start, len, port) is Some <==> (1 <= port <= 7 && (start as int
            % 0x80_0000_0000int) % 4096 == 0),
        mmap_request(start, len, port) matches Some(args) ==> {
            &&& args.0.0 as int == start as int % 0x80_0000_0000int
            &&& args.1.0 as int == (start + len) % 0x80_0000_0000int
            &&& args.2.bits == 2 * port + 16
        },
{
}

} // verus!
