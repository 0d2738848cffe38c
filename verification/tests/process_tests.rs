use rcore_os::mm::{MapPermission, VirtAddr, PAGE_SIZE};
use rcore_os::outcome::{KernelAction, SyscallOutcome};
use rcore_os::process::{
    copy_to_buffers, sys_exit, sys_get_time, sys_mmap, sys_munmap, sys_sbrk, sys_task_info,
    sys_yield, TimeVal,
};
use rcore_os::processor::{TaskStatus, MAX_SYSCALL_NUM};

#[test]
fn exit_and_yield() {
    assert_eq!(sys_exit(3), KernelAction::ExitCurrent(3));
    assert_eq!(sys_exit(-1), KernelAction::ExitCurrent(-1));
    assert_eq!(sys_yield(), SyscallOutcome { ret: 0, action: KernelAction::SuspendCurrent });
}

#[test]
fn time_value_bytes() {
    let tv = TimeVal { sec: 0x0102, usec: 0x0a0b0c };
    assert_eq!(
        tv.to_bytes(),
        vec![0x02, 0x01, 0, 0, 0, 0, 0, 0, 0x0c, 0x0b, 0x0a, 0, 0, 0, 0, 0]
    );
}

#[test]
fn get_time_fills_one_buffer() {
    let mut buffers = vec![vec![0u8; 16]];
    assert_eq!(sys_get_time(1_234_567_890, &mut buffers), 0);
    let expected = TimeVal { sec: 1234, usec: 567_890 }.to_bytes();
    assert_eq!(buffers[0], expected);
}

#[test]
fn get_time_fills_buffers_split_over_pages() {
    let mut buffers = vec![vec![0xffu8; 10], vec![0xffu8; 6]];
    assert_eq!(sys_get_time(3_000_001, &mut buffers), 0);
    let expected = TimeVal { sec: 3, usec: 1 }.to_bytes();
    assert_eq!(buffers[0], expected[0..10].to_vec());
    assert_eq!(buffers[1], expected[10..16].to_vec());
}

#[test]
fn get_time_under_a_second() {
    let mut buffers = vec![vec![0u8; 8], vec![0u8; 8]];
    sys_get_time(999_999, &mut buffers);
    assert_eq!(buffers[0], vec![0u8; 8]);
    assert_eq!(buffers[1], 999_999u64.to_le_bytes().to_vec());
}

#[test]
fn copy_stops_at_the_buffers() {
    let bytes = vec![1u8, 2, 3, 4, 5];
    let mut buffers = vec![vec![0u8; 2], vec![], vec![0u8; 1]];
    copy_to_buffers(&bytes, &mut buffers);
    assert_eq!(buffers, vec![vec![1, 2], vec![], vec![3]]);
}

#[test]
fn task_info_reports_running() {
    let mut times = [0u32; MAX_SYSCALL_NUM];
    times[64] = 3;
    let info = sys_task_info(times, 42);
    assert_eq!(info.status, TaskStatus::Running);
    assert_eq!(info.syscall_times[64], 3);
    assert_eq!(info.time, 42);
}

fn mmap_with(start: usize, len: usize, port: usize, ok: bool) -> (isize, Option<(VirtAddr, VirtAddr, MapPermission)>) {
    let mut seen = None;
    let ret = sys_mmap(start, len, port, |s, e, p| {
        seen = Some((s, e, p));
        ok
    });
    (ret, seen)
}

#[test]
fn mmap_maps_valid_request() {
    let (ret, seen) = mmap_with(0x1000_0000, 0x2000, 0b011, true);
    assert_eq!(ret, 0);
    assert_eq!(
        seen,
        Some((VirtAddr(0x1000_0000), VirtAddr(0x1000_2000), MapPermission { bits: 0b1_0110 }))
    );
}

#[test]
fn mmap_reports_failed_mapping() {
    let (ret, seen) = mmap_with(0x4000, PAGE_SIZE, 0b111, false);
    assert_eq!(ret, -1);
    assert_eq!(seen.unwrap().2, MapPermission { bits: 0b1_1110 });
}

#[test]
fn mmap_rejects_empty_port() {
    let (ret, seen) = mmap_with(0x4000, PAGE_SIZE, 0, true);
    assert_eq!(ret, -1);
    assert!(seen.is_none());
}

#[test]
fn mmap_rejects_extra_port_bits() {
    let (ret, seen) = mmap_with(0x4000, PAGE_SIZE, 0b1001, true);
    assert_eq!(ret, -1);
    assert!(seen.is_none());
    let (ret, seen) = mmap_with(0x4000, PAGE_SIZE, 0x81, true);
    assert_eq!(ret, -1);
    assert!(seen.is_none());
}

#[test]
fn mmap_rejects_unaligned_start() {
    let (ret, seen) = mmap_with(0x4001, PAGE_SIZE, 1, true);
    assert_eq!(ret, -1);
    assert!(seen.is_none());
}

#[test]
fn mmap_cuts_addresses_to_39_bits() {
    let (ret, seen) = mmap_with((1usize << 39) + 0x3000, 0x1000, 1, true);
    assert_eq!(ret, 0);
    let (s, e, _) = seen.unwrap();
    assert_eq!(s, VirtAddr(0x3000));
    assert_eq!(e, VirtAddr(0x4000));
}

#[test]
fn munmap_passes_result_through() {
    let mut seen = None;
    assert_eq!(sys_munmap(0x5000, 0x1000, |s, e| { seen = Some((s, e)); true }), 0);
    assert_eq!(seen, Some((VirtAddr(0x5000), VirtAddr(0x6000))));
    assert_eq!(sys_munmap(0x5000, 0x1000, |_, _| false), -1);
}

#[test]
fn sbrk_returns_old_break() {
    let mut asked = 0;
    assert_eq!(sys_sbrk(-16, |size| { asked = size; Some(0x8000) }), 0x8000);
    assert_eq!(asked, -16);
    assert_eq!(sys_sbrk(4096, |_| None), -1);
}

#[test]
fn virt_addr_alignment() {
    assert!(VirtAddr::from_usize(0x2000).aligned());
    assert!(!VirtAddr::from_usize(0x2010).aligned());
    assert_eq!(VirtAddr::from_usize(0x2010).page_offset(), 0x10);
    assert_eq!(VirtAddr::from_usize(usize::MAX), VirtAddr((1usize << 39) - 1));
}

#[test]
fn permission_bits() {
    assert_eq!(MapPermission::from_bits(0b1_0110), Some(MapPermission { bits: 0b1_0110 }));
    assert_eq!(MapPermission::from_bits(0b1_0111), None);
    assert_eq!(MapPermission::from_bits(0b10_0000), None);
}
