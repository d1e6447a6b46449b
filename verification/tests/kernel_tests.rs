use kernel_core::kernel::Kernel;
use kernel_core::kernel::le_bytes_exec;
use kernel_core::manager::TaskManager;
use kernel_core::mem::MapPermission;
use kernel_core::task::AppImage;
use kernel_core::task::Segment;
use kernel_core::task::TaskStatus;
use kernel_core::task::DEFAULT_PRIORITY;

fn rxu() -> MapPermission {
    MapPermission { r: true, w: false, x: true, u: true }
}

fn mk_image(name: &str, start_vpn: usize) -> AppImage {
    AppImage {
        name: name.as_bytes().to_vec(),
        segments: vec![Segment { start_vpn, n_pages: 1, perm: rxu() }],
    }
}

fn boot(names: &[&str]) -> Kernel {
    let mut images = Vec::new();
    for (i, n) in names.iter().enumerate() {
        images.push(mk_image(n, 10 + 2 * i));
    }
    let mut k = Kernel::new(images);
    k.run_first_task();
    k
}

#[test]
fn fifo_order() {
    let mut m = TaskManager::new();
    assert_eq!(m.get_task_sum_in_ready(), 0);
    m.add(1);
    m.add(2);
    m.add(3);
    assert_eq!(m.get_task_sum_in_ready(), 3);
    assert_eq!(m.fetch(), Some(1));
    assert_eq!(m.fetch(), Some(2));
    assert_eq!(m.fetch(), Some(3));
    assert_eq!(m.fetch(), None);
    assert_eq!(m.get_task_sum_in_ready(), 0);
}

#[test]
fn boot_state() {
    let images = vec![mk_image("init", 10), mk_image("other", 20)];
    let k = Kernel::new(images);
    assert_eq!(k.tasks.len(), 2);
    assert_eq!(k.tasks[0].status, TaskStatus::Ready);
    assert_eq!(k.tasks[1].status, TaskStatus::Ready);
    assert_eq!(k.tasks[0].pid, 0);
    assert_eq!(k.tasks[1].pid, 1);
    assert_eq!(k.tasks[0].priority, DEFAULT_PRIORITY);
}

#[test]
fn mmap_munmap_scenario() {
    let mut k = boot(&["init"]);
    let areas_before = k.tasks[0].memory_set.areas.clone();
    let vpns_before: Vec<usize> = k.tasks[0].memory_set.table.iter().map(|p| p.vpn).collect();
    let frames_before: Vec<usize> = k.tasks[0].memory_set.table.iter().map(|p| p.frame).collect();
    assert_eq!(k.sys_mmap(0x1000, 0x2000, 3), 0);
    assert_eq!(k.sys_mmap(0x1000, 0x2000, 3), -1);
    assert_eq!(k.sys_munmap(0x1000, 0x2000), 0);
    assert_eq!(k.sys_munmap(0x1000, 0x2000), -1);
    // the round trip restored the VMA list and the mapping state exactly
    assert_eq!(k.tasks[0].memory_set.areas, areas_before);
    let vpns_after: Vec<usize> = k.tasks[0].memory_set.table.iter().map(|p| p.vpn).collect();
    let frames_after: Vec<usize> = k.tasks[0].memory_set.table.iter().map(|p| p.frame).collect();
    assert_eq!(vpns_after, vpns_before);
    assert_eq!(frames_after, frames_before);
}

#[test]
fn mmap_rejects_bad_arguments() {
    let mut k = boot(&["init"]);
    assert_eq!(k.sys_mmap(0x1001, 0x1000, 3), -1);
    assert_eq!(k.sys_mmap(0x1000, 0x1000, 0), -1);
    assert_eq!(k.sys_mmap(0x1000, 0x1000, 4), -1);
    let areas_before = k.tasks[k.current].memory_set.areas.len();
    assert_eq!(k.sys_mmap(0x1000, 0x1000, 1), 0);
    assert_eq!(k.tasks[k.current].memory_set.areas.len(), areas_before + 1);
    // overlapping a mapped page fails and maps nothing
    assert_eq!(k.sys_mmap(0x1000, 0x2000, 1), -1);
    assert_eq!(k.tasks[k.current].memory_set.areas.len(), areas_before + 1);
}

#[test]
fn mmap_sets_permission() {
    let mut k = boot(&["init"]);
    assert_eq!(k.sys_mmap(0x1000, 0x1000, 2), 0);
    let p = k.tasks[k.current].memory_set.translate(1).unwrap();
    assert!(!p.r && p.w && !p.x && p.u);
    assert!(k.tasks[k.current].memory_set.translate(2).is_none());
}

#[test]
fn munmap_needs_exact_bounds() {
    let mut k = boot(&["init"]);
    assert_eq!(k.sys_mmap(0x1000, 0x2000, 3), 0);
    let areas_before = k.tasks[k.current].memory_set.areas.clone();
    assert_eq!(k.sys_munmap(0x1000, 0x1000), -1);
    assert_eq!(k.sys_munmap(0x2000, 0x1000), -1);
    assert_eq!(k.sys_munmap(0x1000, 0x3000), -1);
    assert_eq!(k.sys_munmap(0x1001, 0x2000), -1);
    assert_eq!(k.tasks[k.current].memory_set.areas, areas_before);
    assert_eq!(k.sys_munmap(0x1000, 0x2000), 0);
}

#[test]
fn zero_length_mmap_succeeds() {
    let mut k = boot(&["init"]);
    assert_eq!(k.sys_mmap(0x1000, 0, 1), 0);
}

#[test]
fn set_priority_scenario() {
    let mut k = boot(&["init"]);
    assert_eq!(k.sys_set_priority(1), -1);
    assert_eq!(k.sys_set_priority(0), -1);
    assert_eq!(k.sys_set_priority(5), 5);
    assert_eq!(k.tasks[k.current].priority, 5);
}

#[test]
fn sbrk_round_trip() {
    let mut k = boot(&["init"]);
    let base = k.tasks[k.current].program_brk;
    let first = k.sys_sbrk(4096);
    assert_eq!(first, base as isize);
    assert_eq!(k.tasks[k.current].program_brk, base + 4096);
    let second = k.sys_sbrk(-4096);
    assert_eq!(second, (base + 4096) as isize);
    assert_eq!(k.tasks[k.current].program_brk, base);
}

#[test]
fn sbrk_rejects_shrink_below_base() {
    let mut k = boot(&["init"]);
    let base = k.tasks[k.current].program_brk;
    assert_eq!(k.sys_sbrk(-4096), -1);
    assert_eq!(k.tasks[k.current].program_brk, base);
}

#[test]
fn sbrk_heap_bytes_survive_growth() {
    let mut k = boot(&["init"]);
    let base = k.tasks[k.current].program_brk;
    assert_eq!(k.sys_sbrk(4096), base as isize);
    let cur = k.current;
    k.tasks[cur].memory_set.write_bytes(base, &vec![0xAB, 0xCD]);
    assert_eq!(k.tasks[cur].memory_set.read_byte(base), 0xAB);
    assert_eq!(k.tasks[cur].memory_set.read_byte(base + 1), 0xCD);
}

#[test]
fn fork_copies_memory_onto_disjoint_frames() {
    let mut k = boot(&["init"]);
    assert_eq!(k.sys_mmap(0x1000, 0x1000, 3), 0);
    let cur = k.current;
    k.tasks[cur].memory_set.write_bytes(0x1000, &vec![1, 2, 3]);
    let child = k.sys_fork();
    assert_eq!(child, 1);
    // byte-for-byte identical at the instant of the call
    assert_eq!(k.tasks[1].memory_set.read_byte(0x1000), 1);
    assert_eq!(k.tasks[1].memory_set.read_byte(0x1001), 2);
    assert_eq!(k.tasks[1].memory_set.read_byte(0x1002), 3);
    // disjoint physical frames
    for p in &k.tasks[0].memory_set.table {
        for q in &k.tasks[1].memory_set.table {
            assert_ne!(p.frame, q.frame);
        }
    }
    // mutating one never affects the other
    k.tasks[0].memory_set.write_bytes(0x1000, &vec![9]);
    assert_eq!(k.tasks[1].memory_set.read_byte(0x1000), 1);
    k.tasks[1].memory_set.write_bytes(0x1001, &vec![7]);
    assert_eq!(k.tasks[0].memory_set.read_byte(0x1001), 2);
}

#[test]
fn fork_child_return_register_is_zero() {
    let mut k = boot(&["init"]);
    let cur = k.current;
    k.tasks[cur].trap_cx.x[10] = 77;
    k.tasks[cur].trap_cx.x[5] = 55;
    let child = k.sys_fork();
    assert_eq!(child, 1);
    assert_eq!(k.tasks[1].trap_cx.x[10], 0);
    assert_eq!(k.tasks[1].trap_cx.x[5], 55);
    assert_eq!(k.tasks[0].trap_cx.x[10], 77);
    assert_eq!(k.tasks[1].status, TaskStatus::Ready);
    assert_eq!(k.tasks[1].parent, Some(0));
    assert_eq!(k.tasks[0].children, vec![1]);
}

#[test]
fn yield_round_robin() {
    let mut k = boot(&["init", "other"]);
    assert_eq!(k.current, 0);
    assert_eq!(k.sys_getpid(), 0);
    assert_eq!(k.sys_yield(), 0);
    assert_eq!(k.current, 1);
    assert_eq!(k.sys_getpid(), 1);
    assert_eq!(k.sys_yield(), 0);
    assert_eq!(k.current, 0);
    assert_eq!(k.current_user_token(), 0);
}

#[test]
fn waitpid_cases() {
    let mut k = boot(&["init"]);
    assert_eq!(k.sys_mmap(0x1000, 0x1000, 3), 0);
    // no children at all
    assert_eq!(k.sys_waitpid(-1, 0x1000), -1);
    let child = k.sys_fork();
    assert_eq!(child, 1);
    // the child exists but has not exited
    assert_eq!(k.sys_waitpid(-1, 0x1000), -2);
    assert_eq!(k.sys_waitpid(1, 0x1000), -2);
    // no child with that pid
    assert_eq!(k.sys_waitpid(7, 0x1000), -1);
    // let the child run and exit with code 7
    k.sys_yield();
    assert_eq!(k.current, 1);
    k.sys_exit(7);
    assert_eq!(k.current, 0);
    assert_eq!(k.tasks[1].status, TaskStatus::Zombie);
    // reap it and read the exit code written through the page table
    assert_eq!(k.sys_waitpid(-1, 0x1000), 1);
    assert_eq!(k.tasks[0].memory_set.read_byte(0x1000), 7);
    assert_eq!(k.tasks[0].memory_set.read_byte(0x1001), 0);
    assert_eq!(k.tasks[0].memory_set.read_byte(0x1002), 0);
    assert_eq!(k.tasks[0].memory_set.read_byte(0x1003), 0);
    assert!(!k.tasks[1].alive);
    assert!(k.tasks[0].children.is_empty());
    // nothing left to reap
    assert_eq!(k.sys_waitpid(-1, 0x1000), -1);
}

#[test]
fn waitpid_negative_exit_code() {
    let mut k = boot(&["init"]);
    assert_eq!(k.sys_mmap(0x1000, 0x1000, 3), 0);
    let child = k.sys_fork();
    assert_eq!(child, 1);
    k.sys_yield();
    k.sys_exit(-1);
    assert_eq!(k.sys_waitpid(1, 0x1000), 1);
    // -1 as a little-endian i32 is four 0xFF bytes
    for j in 0..4 {
        assert_eq!(k.tasks[0].memory_set.read_byte(0x1000 + j), 0xFF);
    }
}

#[test]
fn exec_replaces_address_space() {
    let mut k = boot(&["init", "other"]);
    let pid_before = k.sys_getpid();
    assert_eq!(k.sys_exec(&b"missing".to_vec()), -1);
    assert_eq!(k.sys_exec(&b"other".to_vec()), 0);
    assert_eq!(k.sys_getpid(), pid_before);
    assert_eq!(k.tasks[k.current].program_brk, k.tasks[k.current].heap_bottom);
    assert_eq!(k.tasks[k.current].trap_cx.x[10], 0);
    // the new image's segment page is mapped
    assert!(k.tasks[k.current].memory_set.translate(12).is_some());
}

#[test]
fn spawn_creates_scheduled_child() {
    let mut k = boot(&["init", "other"]);
    assert_eq!(k.sys_spawn(&b"missing".to_vec()), -1);
    let child = k.sys_spawn(&b"other".to_vec());
    assert_eq!(child, 2);
    assert_eq!(k.tasks[2].status, TaskStatus::Ready);
    assert_eq!(k.tasks[2].parent, Some(0));
    assert_eq!(k.tasks[0].children, vec![2]);
    assert_eq!(k.get_task_sum_in_ready(), 1);
    assert_eq!(k.fetch_task(), Some(2));
    assert_eq!(k.fetch_task(), None);
}

#[test]
fn get_time_writes_timestamp_bytes() {
    let mut k = boot(&["init"]);
    assert_eq!(k.sys_mmap(0x1000, 0x1000, 3), 0);
    k.set_clock_us(3_500_000);
    let tv = k.current_time_val();
    assert_eq!(tv.sec, 3);
    assert_eq!(tv.usec, 500_000);
    assert_eq!(k.sys_get_time(0x1000, 0), 0);
    let ms = &k.tasks[0].memory_set;
    // seconds: 3, little endian over eight bytes
    assert_eq!(ms.read_byte(0x1000), 3);
    for j in 1..8 {
        assert_eq!(ms.read_byte(0x1000 + j), 0);
    }
    // microseconds: 500000 = 0x07A120
    assert_eq!(ms.read_byte(0x1008), 0x20);
    assert_eq!(ms.read_byte(0x1009), 0xA1);
    assert_eq!(ms.read_byte(0x100A), 0x07);
    for j in 11..16 {
        assert_eq!(ms.read_byte(0x1000 + j), 0);
    }
}

#[test]
fn get_time_spans_page_boundary() {
    let mut k = boot(&["init"]);
    assert_eq!(k.sys_mmap(0x1000, 0x2000, 3), 0);
    k.set_clock_us(2_000_001);
    // eight bytes land on the first page, eight on the second
    assert_eq!(k.sys_get_time(0x1FF8, 0), 0);
    let ms = &k.tasks[0].memory_set;
    assert_eq!(ms.read_byte(0x1FF8), 2);
    assert_eq!(ms.read_byte(0x2000), 1);
    assert_eq!(ms.read_byte(0x2001), 0);
}

#[test]
fn task_info_tracks_time_and_counts() {
    let images = vec![mk_image("init", 10)];
    let mut k = Kernel::new(images);
    k.set_clock_us(2_000);
    k.run_first_task();
    assert_eq!(k.tasks[0].start_time, 2);
    k.set_clock_us(10_000);
    k.increase_syscall_count(4);
    k.increase_syscall_count(4);
    k.increase_syscall_count(999_999);
    let info = k.sys_task_info();
    assert_eq!(info.status, TaskStatus::Running);
    assert_eq!(info.time, 8);
    assert_eq!(info.syscall_times[4], 2);
    assert_eq!(info.syscall_times[5], 0);
    let (start, counts, status) = k.get_current_task_info();
    assert_eq!(start, 2);
    assert_eq!(counts[4], 2);
    assert_eq!(status, TaskStatus::Running);
}

#[test]
fn yield_single_task_returns_to_itself() {
    let mut k = boot(&["init"]);
    assert_eq!(k.sys_yield(), 0);
    assert_eq!(k.current, 0);
    assert_eq!(k.tasks[0].status, TaskStatus::Running);
}

#[test]
fn sbrk_sub_page_round_trip() {
    let mut k = boot(&["init"]);
    let base = k.tasks[k.current].program_brk;
    assert_eq!(k.sys_sbrk(1), base as isize);
    assert_eq!(k.tasks[k.current].program_brk, base + 1);
    assert_eq!(k.sys_sbrk(-1), (base + 1) as isize);
    assert_eq!(k.tasks[k.current].program_brk, base);
}

#[test]
fn sbrk_fails_once_heap_area_is_unmapped() {
    let mut k = boot(&["init"]);
    let hb = k.tasks[k.current].heap_bottom;
    // the heap area is empty at boot, so its exact bounds are (hb, hb)
    assert_eq!(k.sys_munmap(hb, 0), 0);
    assert_eq!(k.sys_sbrk(16), -1);
}

#[test]
fn le_bytes_little_endian() {
    let b = le_bytes_exec(0x01020304, 4);
    assert_eq!(b, vec![4, 3, 2, 1]);
    let b2 = le_bytes_exec(0xFF, 2);
    assert_eq!(b2, vec![0xFF, 0]);
}
