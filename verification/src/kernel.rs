//! The kernel core: the task table, the running-task discipline, round-robin
//! scheduling, and the syscall-facing control layer. All shared state lives in
//! one `Kernel` value threaded explicitly through the trap-handling path, so
//! every transition is a method with a contract.

use vstd::prelude::*;

use crate::manager::TaskManager;
use crate::mem::FrameAlloc;
use crate::mem::MapPermission;
use crate::mem::PAGE_SIZE;
use crate::mem::MAX_VA;
use crate::mem::byte_at;
use crate::mem::frames_below;
use crate::mem::lemma_div_ceil_bounds;
use crate::mem::lemma_fork_frames_disjoint;
use crate::mem::lemma_write_seq_props;
use crate::mem::mmap_apply;
use crate::mem::munmap_apply;
use crate::mem::page_ceil;
use crate::mem::range_free;
use crate::mem::same_memory;
use crate::mem::va_mapped;
use crate::mem::write_seq;
use crate::task::AppImage;
use crate::task::TaskControlBlock;
use crate::task::TaskStatus;
use crate::task::TrapContext;
use crate::task::sbrk_apply;
use crate::task::MAX_SYSCALL_NUM;

verus! {

/// Little-endian bytes of `v`, `n` of them, low byte first.
pub open spec fn le_bytes(v: int, n: nat) -> Seq<u8>
    decreases n,
{
    if n == 0 {
        Seq::empty()
    } else {
        seq![(v % 256) as u8] + le_bytes(v / 256, (n - 1) as nat)
    }
}

/// `le_bytes` yields exactly `n` bytes.
pub proof fn lemma_le_bytes_len(v: int, n: nat)
    ensures
        le_bytes(v, n).len() == n,
    decreases n,
{
    if n > 0 {
        lemma_le_bytes_len(v / 256, (n - 1) as nat);
    }
}

/// Compute the `n` low little-endian bytes of `v`.
pub fn le_bytes_exec(v: u64, n: usize) -> (r: Vec<u8>)
    ensures
        r@ == le_bytes(v as int, n as nat),
{
    let mut r: Vec<u8> = Vec::new();
    let mut w: u64 = v;
    let mut i: usize = 0;
    while i < n
        invariant
            i <= n,
            r@.len() == i,
            le_bytes(v as int, n as nat) =~= r@ + le_bytes(w as int, (n - i) as nat),
        decreases n - i,
    {
        let b = (w % 256) as u8;
        let ghost w0 = w as int;
        r.push(b);
        w = w / 256;
        proof {
            assert(le_bytes(w0, (n - i) as nat) =~= seq![(w0 % 256) as u8] + le_bytes(
                w0 / 256,
                (n - i - 1) as nat,
            ));
        }
        i = i + 1;
    }
    proof {
        assert(le_bytes(w as int, 0nat) =~= Seq::<u8>::empty());
        assert(r@ =~= le_bytes(v as int, n as nat));
    }
    r
}

/// The bytes `get_time` stores: seconds then microseconds, eight little-endian
/// bytes each.
pub open spec fn timeval_bytes(us: int) -> Seq<u8> {
    le_bytes(us / 1000000, 8) + le_bytes(us % 1000000, 8)
}

/// The permission a valid `mmap` port encodes: 1 read, 2 write, 3 read+write,
/// always with the user bit.
pub open spec fn perm_of_port(port: usize) -> MapPermission {
    MapPermission { r: port == 1 || port == 3, w: port == 2 || port == 3, x: false, u: true }
}

/// The `waitpid` filter: the wildcard `-1`, or an exact pid.
pub open spec fn child_matches(pid: isize, cpid: usize) -> bool {
    pid == -1 || (pid >= 0 && pid as usize == cpid)
}

/// Some child passes the filter.
pub open spec fn has_match(cs: Seq<usize>, pid: isize) -> bool {
    exists|k: int| 0 <= k < cs.len() && #[trigger] child_matches(pid, cs[k])
}

/// Index of the first child, in list order, that passes the filter and is a
/// zombie: the child `waitpid` reaps.
pub open spec fn first_zombie_match(
    tasks: Seq<TaskControlBlock>,
    cs: Seq<usize>,
    pid: isize,
) -> Option<int>
    decreases cs.len(),
{
    if cs.len() == 0 {
        Option::None
    } else if child_matches(pid, cs[0]) && tasks[cs[0] as int].status == TaskStatus::Zombie {
        Option::Some(0int)
    } else {
        match first_zombie_match(tasks, cs.drop_first(), pid) {
            Option::Some(i) => Option::Some(i + 1),
            Option::None => Option::None,
        }
    }
}

/// `first_zombie_match` returns the first qualifying child, or rules every
/// index out.
pub proof fn lemma_first_zombie_match_props(
    tasks: Seq<TaskControlBlock>,
    cs: Seq<usize>,
    pid: isize,
)
    ensures
        match first_zombie_match(tasks, cs, pid) {
            Option::Some(i) => 0 <= i < cs.len() && child_matches(pid, cs[i])
                && tasks[cs[i] as int].status == TaskStatus::Zombie && forall|j: int|
                0 <= j < i ==> !(#[trigger] child_matches(pid, cs[j]) && tasks[cs[j] as int].status
                    == TaskStatus::Zombie),
            Option::None => forall|j: int|
                0 <= j < cs.len() ==> !(#[trigger] child_matches(pid, cs[j]) && tasks[cs[j] as int].status
                    == TaskStatus::Zombie),
        },
    decreases cs.len(),
{
    if cs.len() > 0 && !(child_matches(pid, cs[0]) && tasks[cs[0] as int].status
        == TaskStatus::Zombie) {
        let rest = cs.drop_first();
        lemma_first_zombie_match_props(tasks, rest, pid);
        match first_zombie_match(tasks, rest, pid) {
            Option::Some(i) => {
                assert(rest[i] == cs[i + 1]);
                assert forall|j: int| 0 <= j < i + 1 implies !(#[trigger] child_matches(pid, cs[j])
                    && tasks[cs[j] as int].status == TaskStatus::Zombie) by {
                    if j > 0 {
                        assert(rest[j - 1] == cs[j]);
                    }
                }
            },
            Option::None => {
                assert forall|j: int| 0 <= j < cs.len() implies !(#[trigger] child_matches(
                    pid,
                    cs[j],
                ) && tasks[cs[j] as int].status == TaskStatus::Zombie) by {
                    if j > 0 {
                        assert(rest[j - 1] == cs[j]);
                    }
                }
            },
        }
    }
}

/// Index of the first registered image with the given name.
pub open spec fn image_named(imgs: Seq<AppImage>, name: Seq<u8>) -> Option<int>
    decreases imgs.len(),
{
    if imgs.len() == 0 {
        Option::None
    } else if imgs[0].name@ == name {
        Option::Some(0int)
    } else {
        match image_named(imgs.drop_first(), name) {
            Option::Some(i) => Option::Some(i + 1),
            Option::None => Option::None,
        }
    }
}

/// `image_named` returns the first image of that name, or rules every index
/// out.
pub proof fn lemma_image_named_props(imgs: Seq<AppImage>, name: Seq<u8>)
    ensures
        match image_named(imgs, name) {
            Option::Some(i) => 0 <= i < imgs.len() && imgs[i].name@ == name && forall|j: int|
                0 <= j < i ==> (#[trigger] imgs[j]).name@ != name,
            Option::None => forall|j: int| 0 <= j < imgs.len() ==> (#[trigger] imgs[j]).name@ != name,
        },
    decreases imgs.len(),
{
    if imgs.len() > 0 && imgs[0].name@ != name {
        let rest = imgs.drop_first();
        lemma_image_named_props(rest, name);
        match image_named(rest, name) {
            Option::Some(i) => {
                assert(rest[i] == imgs[i + 1]);
                assert forall|j: int| 0 <= j < i + 1 implies (#[trigger] imgs[j]).name@ != name by {
                    if j > 0 {
                        assert(rest[j - 1] == imgs[j]);
                    }
                }
            },
            Option::None => {
                assert forall|j: int| 0 <= j < imgs.len() implies (#[trigger] imgs[j]).name@
                    != name by {
                    if j > 0 {
                        assert(rest[j - 1] == imgs[j]);
                    }
                }
            },
        }
    }
}

/// Byte-wise equality of two buffers.
pub fn bytes_eq(a: &Vec<u8>, b: &Vec<u8>) -> (r: bool)
    ensures
        r == (a@ == b@),
{
    if a.len() != b.len() {
        return false;
    }
    let mut i: usize = 0;
    while i < a.len()
        invariant
            a@.len() == b@.len(),
            i <= a@.len(),
            forall|k: int| 0 <= k < i ==> a@[k] == b@[k],
        decreases a@.len() - i,
    {
        if a[i] != b[i] {
            return false;
        }
        i = i + 1;
    }
    proof {
        assert(a@ =~= b@);
    }
    true
}

/// Seconds and microseconds of a timestamp, the value `get_time` stores.
#[derive(Clone, Copy, PartialEq, Eq, Structural, Debug)]
pub struct TimeVal {
    pub sec: usize,
    pub usec: usize,
}

/// A task's bookkeeping snapshot: lifecycle status, per-syscall invocation
/// counts, and time since it was first scheduled.
pub struct TaskInfo {
    pub status: TaskStatus,
    pub syscall_times: Vec<u32>,
    pub time: usize,
}

/// A copy of a counter table.
fn copy_u32s(src: &Vec<u32>) -> (r: Vec<u32>)
    ensures
        r@ == src@,
{
    let mut v: Vec<u32> = Vec::new();
    let mut i: usize = 0;
    while i < src.len()
        invariant
            i <= src@.len(),
            v@ =~= src@.take(i as int),
        decreases src@.len() - i,
    {
        v.push(src[i]);
        proof {
            assert(v@ =~= src@.take(i as int + 1));
        }
        i = i + 1;
    }
    proof {
        assert(src@.take(src@.len() as int) =~= src@);
    }
    v
}

/// A transition that touched only the running task — its address space, heap
/// fields, counters or priority — and allocated frames monotonically keeps
/// the kernel invariant.
pub proof fn lemma_wf_update_cur(pre: Kernel, post: Kernel)
    requires
        pre.wf(),
        post.tasks@.len() == pre.tasks@.len(),
        post.current == pre.current,
        post.manager == pre.manager,
        post.images == pre.images,
        pre.frames.next <= post.frames.next,
        forall|i: int|
            0 <= i < pre.tasks@.len() && i != pre.current ==> post.tasks@[i] == pre.tasks@[i],
        post.cur_task().wf(),
        frames_below(post.cur_task().memory_set@.table, post.frames.next as int),
        post.cur_task().pid == pre.cur_task().pid,
        post.cur_task().status == pre.cur_task().status,
        post.cur_task().alive == pre.cur_task().alive,
        post.cur_task().children == pre.cur_task().children,
    ensures
        post.wf(),
{
    let n = pre.tasks@.len() as int;
    let cur = pre.current as int;
    assert(forall|i: int|
        0 <= i < n ==> (#[trigger] post.tasks@[i]).children == pre.tasks@[i].children);
    assert(forall|i: int|
        0 <= i < n ==> (#[trigger] post.tasks@[i]).status == pre.tasks@[i].status
            && post.tasks@[i].alive == pre.tasks@[i].alive && post.tasks@[i].pid
            == pre.tasks@[i].pid);
    assert forall|i: int| 0 <= i < n implies (#[trigger] post.tasks@[i]).wf() by {
        if i != cur {
            assert(post.tasks@[i] == pre.tasks@[i]);
        }
    }
    assert forall|i: int| 0 <= i < n implies frames_below(
        (#[trigger] post.tasks@[i]).memory_set@.table,
        post.frames.next as int,
    ) by {
        if i != cur {
            assert(frames_below(pre.tasks@[i].memory_set@.table, pre.frames.next as int));
        }
    }
    assert forall|i1: int, k1: int, i2: int, k2: int|
        0 <= i1 < n && 0 <= k1 < post.tasks@[i1].children@.len() && 0 <= i2 < n && 0 <= k2
            < post.tasks@[i2].children@.len() && (i1 != i2 || k1 != k2) implies (
    #[trigger] post.tasks@[i1].children@[k1]) != (#[trigger] post.tasks@[i2].children@[k2]) by {
        assert(pre.tasks@[i1].children@[k1] != pre.tasks@[i2].children@[k2]);
    }
}

/// Upper bound on the number of task slots the model accepts (a machine
/// limit keeping pid arithmetic and casts exact).
pub const MAX_TASKS: usize = 0x100000;

/// The kernel state: the task arena (a task's pid is its index), the id of
/// the running task, the FIFO ready queue fed by `fork`/`spawn`, the frame
/// allocator, the loader's image registry, and the clock in microseconds as
/// last read from the timer.
#[verifier::ext_equal]
pub struct Kernel {
    pub tasks: Vec<TaskControlBlock>,
    pub current: usize,
    pub manager: TaskManager,
    pub frames: FrameAlloc,
    pub images: Vec<AppImage>,
    pub clock_us: usize,
}

impl Kernel {
    /// Structural invariant, scheduling discipline aside: tasks are
    /// well-formed and numbered by slot, no task's frame reaches the
    /// allocator's cursor, child links point to live lower-numbered slots and
    /// no child is claimed twice, reaped slots hold zombies, the ready queue
    /// is consistent and holds valid ids, and registered images are sane.
    pub open spec fn wf_base(self) -> bool {
        &&& self.tasks@.len() <= MAX_TASKS
        &&& forall|i: int| 0 <= i < self.tasks@.len() ==> (#[trigger] self.tasks@[i]).wf()
        &&& forall|i: int| 0 <= i < self.tasks@.len() ==> (#[trigger] self.tasks@[i]).pid == i
        &&& forall|i: int|
            0 <= i < self.tasks@.len() ==> frames_below(
                (#[trigger] self.tasks@[i]).memory_set@.table,
                self.frames.next as int,
            )
        &&& forall|i: int, k: int|
            0 <= i < self.tasks@.len() && 0 <= k < (#[trigger] self.tasks@[i]).children@.len()
                ==> (#[trigger] self.tasks@[i].children@[k]) < self.tasks@.len()
                && self.tasks@[self.tasks@[i].children@[k] as int].alive
        &&& forall|i1: int, k1: int, i2: int, k2: int|
            0 <= i1 < self.tasks@.len() && 0 <= k1 < self.tasks@[i1].children@.len() && 0 <= i2
                < self.tasks@.len() && 0 <= k2 < self.tasks@[i2].children@.len() && (i1 != i2 || k1
                != k2) ==> (#[trigger] self.tasks@[i1].children@[k1]) != (
            #[trigger] self.tasks@[i2].children@[k2])
        &&& forall|i: int|
            0 <= i < self.tasks@.len() && !(#[trigger] self.tasks@[i]).alive ==> self.tasks@[i].status
                == TaskStatus::Zombie
        &&& self.manager.wf()
        &&& forall|q: int|
            0 <= q < self.manager.ready_queue@.len() ==> (#[trigger] self.manager.ready_queue@[q])
                < self.tasks@.len()
        &&& forall|i: int| 0 <= i < self.images@.len() ==> (#[trigger] self.images@[i]).wf()
    }

    /// The full invariant: exactly one task runs, and it is a live slot.
    pub open spec fn wf(self) -> bool {
        &&& self.wf_base()
        &&& self.tasks@.len() > 0
        &&& self.current < self.tasks@.len()
        &&& self.tasks@[self.current as int].alive
        &&& self.tasks@[self.current as int].status == TaskStatus::Running
        &&& forall|i: int|
            0 <= i < self.tasks@.len() && i != self.current ==> (#[trigger] self.tasks@[i]).status
                != TaskStatus::Running
    }

    /// The running task.
    pub open spec fn cur_task(self) -> TaskControlBlock {
        self.tasks@[self.current as int]
    }

    /// The clock in whole milliseconds, the unit of start timestamps.
    pub open spec fn spec_clock_ms(self) -> int {
        self.clock_us as int / 1000
    }

    /// Build the boot-time kernel: one `Ready` task per registered image,
    /// task 0 first, nothing running yet.
    pub fn new(images: Vec<AppImage>) -> (r: Kernel)
        requires
            images@.len() <= MAX_TASKS,
            forall|i: int| 0 <= i < images@.len() ==> (#[trigger] images@[i]).wf(),
            images_frames(images@) <= usize::MAX,
        ensures
            r.wf_base(),
            r.tasks@.len() == images@.len(),
            r.current == 0,
            r.clock_us == 0,
            r.manager.ready_queue@ =~= Seq::<usize>::empty(),
            forall|i: int|
                0 <= i < r.tasks@.len() ==> (#[trigger] r.tasks@[i]).status == TaskStatus::Ready
                    && r.tasks@[i].alive && r.tasks@[i].parent is None
                    && r.tasks@[i].children@.len() == 0,
    {
        let mut frames = FrameAlloc::new();
        let mut tasks: Vec<TaskControlBlock> = Vec::new();
        let mut i: usize = 0;
        proof {
            lemma_images_frames_nonneg(images@);
        }
        while i < images.len()
            invariant
                images@.len() <= MAX_TASKS,
                forall|j: int| 0 <= j < images@.len() ==> (#[trigger] images@[j]).wf(),
                images_frames(images@) <= usize::MAX,
                i <= images@.len(),
                tasks@.len() == i,
                frames.next as int <= images_frames(images@.take(i as int)),
                images_frames(images@.take(i as int)) <= images_frames(images@),
                forall|j: int|
                    0 <= j < i ==> (#[trigger] tasks@[j]).wf() && tasks@[j].pid == j
                        && tasks@[j].status == TaskStatus::Ready && tasks@[j].alive
                        && tasks@[j].parent is None && tasks@[j].children@.len() == 0
                        && tasks@[j].status != TaskStatus::Running,
                forall|j: int|
                    0 <= j < i ==> frames_below(
                        (#[trigger] tasks@[j]).memory_set@.table,
                        frames.next as int,
                    ),
            decreases images@.len() - i,
        {
            proof {
                lemma_images_frames_step(images@, i as int);
                lemma_images_frames_nonneg(images@.take(i as int));
                crate::task::lemma_seg_total_nonneg(images@[i as int].segments@);
            }
            let ghost fnext0 = frames.next as int;
            let t = TaskControlBlock::new(i, &images[i], &mut frames);
            proof {
                lemma_build_as_frames(images@[i as int].segments@, fnext0);
                assert(frames_below(t.memory_set@.table, frames.next as int));
                assert forall|j: int| 0 <= j < i implies frames_below(
                    (#[trigger] tasks@[j]).memory_set@.table,
                    frames.next as int,
                ) by {
                    assert(frames_below(tasks@[j].memory_set@.table, fnext0));
                }
            }
            tasks.push(t);
            i = i + 1;
        }
        Kernel {
            tasks,
            current: 0,
            manager: TaskManager::new(),
            frames,
            images,
            clock_us: 0,
        }
    }

    /// Start the machine: task 0 leaves `Ready` for `Running` with its start
    /// timestamp recorded, and becomes the current task.
    pub fn run_first_task(&mut self)
        requires
            old(self).wf_base(),
            old(self).tasks@.len() > 0,
            forall|i: int|
                0 <= i < old(self).tasks@.len() ==> (#[trigger] old(self).tasks@[i]).status
                    != TaskStatus::Running,
            old(self).tasks@[0].status == TaskStatus::Ready,
            old(self).tasks@[0].alive,
        ensures
            final(self).wf(),
            final(self).current == 0,
            final(self).tasks@ == old(self).tasks@.update(
                0,
                TaskControlBlock {
                    status: TaskStatus::Running,
                    start_time: (old(self).clock_us / 1000) as usize,
                    ..old(self).tasks@[0]
                },
            ),
            final(self).manager == old(self).manager,
            final(self).frames == old(self).frames,
            final(self).images == old(self).images,
            final(self).clock_us == old(self).clock_us,
    {
        let ms_clock = self.clock_us / 1000;
        self.tasks[0].status = TaskStatus::Running;
        self.tasks[0].start_time = ms_clock;
        self.current = 0;
        proof {
            assert(self.tasks@ =~= old(self).tasks@.update(
                0,
                TaskControlBlock {
                    status: TaskStatus::Running,
                    start_time: ms_clock,
                    ..old(self).tasks@[0]
                },
            ));
        }
    }

    /// Voluntarily give up the core: the running task becomes `Ready` and the
    /// round-robin scan picks the next `Ready` slot (at worst the task
    /// itself), which starts running with a fresh timestamp. The three
    /// effects are one atomic transition.
    pub fn suspend_current_and_run_next(&mut self)
        requires
            old(self).wf(),
        ensures
            final(self).wf(),
            ({
                let marked = old(self).tasks@.update(
                    old(self).current as int,
                    TaskControlBlock { status: TaskStatus::Ready, ..old(self).cur_task() },
                );
                let sel = scan_ready(marked, old(self).current as int, 1);
                &&& sel is Some
                &&& final(self).current == sel->Some_0
                &&& final(self).tasks@ == marked.update(
                    sel->Some_0,
                    TaskControlBlock {
                        status: TaskStatus::Running,
                        start_time: (old(self).clock_us / 1000) as usize,
                        ..marked[sel->Some_0]
                    },
                )
            }),
            final(self).manager == old(self).manager,
            final(self).frames == old(self).frames,
            final(self).images == old(self).images,
            final(self).clock_us == old(self).clock_us,
    {
        let cur = self.current;
        self.tasks[cur].status = TaskStatus::Ready;
        let ghost marked = self.tasks@;
        proof {
            assert(marked =~= old(self).tasks@.update(
                cur as int,
                TaskControlBlock { status: TaskStatus::Ready, ..old(self).cur_task() },
            ));
            lemma_scan_finds(marked, cur as int, cur as int);
        }
        let nxt_opt = find_next_in(&self.tasks, cur);
        let nxt = nxt_opt.unwrap();
        proof {
            lemma_scan_props(marked, cur as int, 1);
        }
        let ms_clock = self.clock_us / 1000;
        self.tasks[nxt].status = TaskStatus::Running;
        self.tasks[nxt].start_time = ms_clock;
        self.current = nxt;
        proof {
            assert(self.tasks@ =~= marked.update(
                nxt as int,
                TaskControlBlock {
                    status: TaskStatus::Running,
                    start_time: ms_clock,
                    ..marked[nxt as int]
                },
            ));
        }
    }

    /// Terminate the running task: it becomes a `Zombie` keeping `exit_code`
    /// for its parent to reap, and the core passes to the next `Ready` task.
    /// A kernel with no other `Ready` task has finished all work, a terminal
    /// condition outside this transition.
    pub fn exit_current_and_run_next(&mut self, exit_code: i32)
        requires
            old(self).wf(),
            exists|i: int|
                0 <= i < old(self).tasks@.len() && i != old(self).current && (
                #[trigger] old(self).tasks@[i]).status == TaskStatus::Ready,
        ensures
            final(self).wf(),
            ({
                let marked = old(self).tasks@.update(
                    old(self).current as int,
                    TaskControlBlock {
                        status: TaskStatus::Zombie,
                        exit_code,
                        ..old(self).cur_task()
                    },
                );
                let sel = scan_ready(marked, old(self).current as int, 1);
                &&& sel is Some
                &&& final(self).current == sel->Some_0
                &&& final(self).tasks@ == marked.update(
                    sel->Some_0,
                    TaskControlBlock {
                        status: TaskStatus::Running,
                        start_time: (old(self).clock_us / 1000) as usize,
                        ..marked[sel->Some_0]
                    },
                )
            }),
            final(self).manager == old(self).manager,
            final(self).frames == old(self).frames,
            final(self).images == old(self).images,
            final(self).clock_us == old(self).clock_us,
    {
        let cur = self.current;
        self.tasks[cur].status = TaskStatus::Zombie;
        self.tasks[cur].exit_code = exit_code;
        let ghost marked = self.tasks@;
        proof {
            assert(marked =~= old(self).tasks@.update(
                cur as int,
                TaskControlBlock { status: TaskStatus::Zombie, exit_code, ..old(self).cur_task() },
            ));
            let w = choose|i: int|
                0 <= i < old(self).tasks@.len() && i != old(self).current && (
                #[trigger] old(self).tasks@[i]).status == TaskStatus::Ready;
            assert(marked[w].status == TaskStatus::Ready);
            lemma_scan_finds(marked, cur as int, w);
        }
        let nxt_opt = find_next_in(&self.tasks, cur);
        let nxt = nxt_opt.unwrap();
        proof {
            lemma_scan_props(marked, cur as int, 1);
        }
        let ms_clock = self.clock_us / 1000;
        self.tasks[nxt].status = TaskStatus::Running;
        self.tasks[nxt].start_time = ms_clock;
        self.current = nxt;
        proof {
            assert(self.tasks@ =~= marked.update(
                nxt as int,
                TaskControlBlock {
                    status: TaskStatus::Running,
                    start_time: ms_clock,
                    ..marked[nxt as int]
                },
            ));
        }
    }

    /// The running task's pid.
    pub fn sys_getpid(&self) -> (r: isize)
        requires
            self.wf(),
        ensures
            r == self.current as isize,
            r >= 0,
    {
        self.current as isize
    }

    /// The running task's saved trap context.
    pub fn current_trap_cx(&self) -> (r: &TrapContext)
        requires
            self.wf(),
        ensures
            *r == self.cur_task().trap_cx,
    {
        &self.tasks[self.current].trap_cx
    }

    /// The token naming the running task's address space (in this model, the
    /// task id).
    pub fn current_user_token(&self) -> (r: usize)
        requires
            self.wf(),
        ensures
            r == self.current,
    {
        self.current
    }

    /// Voluntary yield: suspend the running task and schedule the next; the
    /// call itself always succeeds.
    pub fn sys_yield(&mut self) -> (r: isize)
        requires
            old(self).wf(),
        ensures
            final(self).wf(),
            r == 0,
            ({
                let marked = old(self).tasks@.update(
                    old(self).current as int,
                    TaskControlBlock { status: TaskStatus::Ready, ..old(self).cur_task() },
                );
                let sel = scan_ready(marked, old(self).current as int, 1);
                &&& sel is Some
                &&& final(self).current == sel->Some_0
                &&& final(self).tasks@ == marked.update(
                    sel->Some_0,
                    TaskControlBlock {
                        status: TaskStatus::Running,
                        start_time: (old(self).clock_us / 1000) as usize,
                        ..marked[sel->Some_0]
                    },
                )
            }),
            final(self).manager == old(self).manager,
            final(self).frames == old(self).frames,
            final(self).images == old(self).images,
            final(self).clock_us == old(self).clock_us,
    {
        self.suspend_current_and_run_next();
        0
    }

    /// Task exit: the running task becomes a `Zombie` holding `exit_code` and
    /// the core passes on. Control never returns to the exiting task.
    pub fn sys_exit(&mut self, exit_code: i32)
        requires
            old(self).wf(),
            exists|i: int|
                0 <= i < old(self).tasks@.len() && i != old(self).current && (
                #[trigger] old(self).tasks@[i]).status == TaskStatus::Ready,
        ensures
            final(self).wf(),
            ({
                let marked = old(self).tasks@.update(
                    old(self).current as int,
                    TaskControlBlock {
                        status: TaskStatus::Zombie,
                        exit_code,
                        ..old(self).cur_task()
                    },
                );
                let sel = scan_ready(marked, old(self).current as int, 1);
                &&& sel is Some
                &&& final(self).current == sel->Some_0
                &&& final(self).tasks@ == marked.update(
                    sel->Some_0,
                    TaskControlBlock {
                        status: TaskStatus::Running,
                        start_time: (old(self).clock_us / 1000) as usize,
                        ..marked[sel->Some_0]
                    },
                )
            }),
            final(self).manager == old(self).manager,
            final(self).frames == old(self).frames,
            final(self).images == old(self).images,
            final(self).clock_us == old(self).clock_us,
    {
        self.exit_current_and_run_next(exit_code);
    }

    /// Store a task priority: values of 2 and above are stored and echoed
    /// back, anything lower is rejected with -1 and no change.
    pub fn sys_set_priority(&mut self, prio: isize) -> (r: isize)
        requires
            old(self).wf(),
        ensures
            final(self).wf(),
            (r == -1) <==> prio <= 1,
            prio <= 1 ==> *final(self) == *old(self),
            prio > 1 ==> r == prio && final(self).tasks@ == old(self).tasks@.update(
                old(self).current as int,
                TaskControlBlock { priority: prio, ..old(self).cur_task() },
            ) && final(self).current == old(self).current && final(self).manager == old(self).manager && final(self).frames == old(self).frames && final(self).images == old(self).images && final(self).clock_us == old(self).clock_us,
    {
        if prio <= 1 {
            return -1;
        }
        let cur = self.current;
        self.tasks[cur].priority = prio;
        proof {
            assert(self.tasks@ =~= old(self).tasks@.update(
                cur as int,
                TaskControlBlock { priority: prio, ..old(self).cur_task() },
            ));
            lemma_wf_update_cur(*old(self), *self);
        }
        prio
    }

    /// Count one syscall invocation of the running task, keyed by syscall id;
    /// ids beyond the table are ignored.
    pub fn increase_syscall_count(&mut self, syscall_id: usize)
        requires
            old(self).wf(),
            syscall_id < MAX_SYSCALL_NUM ==> old(self).cur_task().syscall_times@[syscall_id as int]
                < u32::MAX,
        ensures
            final(self).wf(),
            syscall_id >= MAX_SYSCALL_NUM ==> *final(self) == *old(self),
            syscall_id < MAX_SYSCALL_NUM ==> final(self).cur_task().syscall_times@ == old(self).cur_task().syscall_times@.update(
                syscall_id as int,
                (old(self).cur_task().syscall_times@[syscall_id as int] + 1) as u32,
            ) && final(self).tasks@ == old(self).tasks@.update(
                old(self).current as int,
                TaskControlBlock {
                    syscall_times: final(self).cur_task().syscall_times,
                    ..old(self).cur_task()
                },
            ) && final(self).current == old(self).current && final(self).manager == old(self).manager && final(self).frames == old(self).frames && final(self).images == old(self).images && final(self).clock_us == old(self).clock_us,
    {
        if syscall_id >= MAX_SYSCALL_NUM {
            return ;
        }
        let cur = self.current;
        let c = self.tasks[cur].syscall_times[syscall_id];
        self.tasks[cur].syscall_times[syscall_id] = c + 1;
        proof {
            assert(self.tasks@ =~= old(self).tasks@.update(
                cur as int,
                TaskControlBlock {
                    syscall_times: self.tasks@[cur as int].syscall_times,
                    ..old(self).cur_task()
                },
            ));
            lemma_wf_update_cur(*old(self), *self);
        }
    }

    /// Snapshot the running task's bookkeeping: start timestamp, syscall
    /// counts and status.
    pub fn get_current_task_info(&self) -> (r: (usize, Vec<u32>, TaskStatus))
        requires
            self.wf(),
        ensures
            r.0 == self.cur_task().start_time,
            r.1@ == self.cur_task().syscall_times@,
            r.2 == self.cur_task().status,
    {
        let cur = self.current;
        let st = self.tasks[cur].start_time;
        let counts = copy_u32s(&self.tasks[cur].syscall_times);
        let status = self.tasks[cur].status;
        (st, counts, status)
    }

    /// The running task's introspection record: status, syscall counts, and
    /// time since it was first scheduled.
    pub fn sys_task_info(&self) -> (r: TaskInfo)
        requires
            self.wf(),
            self.cur_task().start_time <= self.spec_clock_ms(),
        ensures
            r.status == self.cur_task().status,
            r.syscall_times@ == self.cur_task().syscall_times@,
            r.time == self.spec_clock_ms() - self.cur_task().start_time,
    {
        let info = self.get_current_task_info();
        let now_ms = self.clock_us / 1000;
        TaskInfo { status: info.2, syscall_times: info.1, time: now_ms - info.0 }
    }

    /// Map a fresh framed region into the running task's address space:
    /// rejects an unaligned start, a port outside the three read/write
    /// combinations, and any overlap with an existing page — in each case
    /// returning -1 with the address space untouched. On success every page
    /// of `[start, start+len)` is mapped with the port's permission plus
    /// user access, and 0 is returned.
    pub fn sys_mmap(&mut self, start: usize, len: usize, port: usize) -> (r: isize)
        requires
            old(self).wf(),
            start + len <= MAX_VA,
            old(self).frames.next + page_ceil((start + len) as int) <= usize::MAX,
        ensures
            final(self).wf(),
            r == 0 || r == -1,
            (r == -1) <==> (start % PAGE_SIZE != 0 || !(port == 1 || port == 2 || port == 3)
                || !range_free(
                old(self).cur_task().memory_set@.table,
                (start / PAGE_SIZE) as int,
                page_ceil((start + len) as int),
            )),
            r == -1 ==> *final(self) == *old(self),
            r == 0 ==> final(self).cur_task().memory_set@ == mmap_apply(
                old(self).cur_task().memory_set@,
                (start / PAGE_SIZE) as int,
                page_ceil((start + len) as int),
                perm_of_port(port),
                old(self).frames.next as int,
            ) && final(self).tasks@ == old(self).tasks@.update(
                old(self).current as int,
                TaskControlBlock {
                    memory_set: final(self).cur_task().memory_set,
                    ..old(self).cur_task()
                },
            ) && final(self).current == old(self).current && final(self).manager == old(self).manager && final(self).images == old(self).images && final(self).clock_us == old(self).clock_us,
    {
        if start % PAGE_SIZE != 0 {
            return -1;
        }
        if port != 1 && port != 2 && port != 3 {
            return -1;
        }
        let start_vpn = start / PAGE_SIZE;
        let end_vpn = (start + len + PAGE_SIZE - 1) / PAGE_SIZE;
        proof {
            lemma_div_ceil_bounds(start as int, (start + len) as int);
        }
        let cur = self.current;
        if self.tasks[cur].memory_set.any_mapped_in(start_vpn, end_vpn) {
            return -1;
        }
        let perm = if port == 1 {
            MapPermission { r: true, w: false, x: false, u: true }
        } else if port == 2 {
            MapPermission { r: false, w: true, x: false, u: true }
        } else {
            MapPermission { r: true, w: true, x: false, u: true }
        };
        self.tasks[cur].memory_set.insert_framed_area(start_vpn, end_vpn, perm, &mut self.frames);
        proof {
            assert(self.tasks@ =~= old(self).tasks@.update(
                cur as int,
                TaskControlBlock {
                    memory_set: self.tasks@[cur as int].memory_set,
                    ..old(self).cur_task()
                },
            ));
            lemma_wf_update_cur(*old(self), *self);
        }
        0
    }

    /// Unmap the region `[start, start+len)` from the running task's address
    /// space. Succeeds (returning 0) only when a VMA's bounds equal the
    /// implied page range exactly, unmapping its pages and dropping the
    /// record; an unaligned start or any inexact match returns -1 and leaves
    /// every VMA unchanged.
    pub fn sys_munmap(&mut self, start: usize, len: usize) -> (r: isize)
        requires
            old(self).wf(),
            start + len <= MAX_VA,
        ensures
            final(self).wf(),
            r == 0 || r == -1,
            (r == -1) <==> (start % PAGE_SIZE != 0 || crate::mem::find_exact(
                old(self).cur_task().memory_set@.areas,
                (start / PAGE_SIZE) as int,
                page_ceil((start + len) as int),
            ) is None),
            r == -1 ==> final(self).tasks@ == old(self).tasks@ && final(self).current == old(self).current && final(self).manager == old(self).manager && final(self).frames == old(self).frames && final(self).images == old(self).images && final(self).clock_us == old(self).clock_us,
            r == 0 ==> final(self).cur_task().memory_set@ == munmap_apply(
                old(self).cur_task().memory_set@,
                (start / PAGE_SIZE) as int,
                page_ceil((start + len) as int),
            ) && final(self).tasks@ == old(self).tasks@.update(
                old(self).current as int,
                TaskControlBlock {
                    memory_set: final(self).cur_task().memory_set,
                    ..old(self).cur_task()
                },
            ) && final(self).current == old(self).current && final(self).manager == old(self).manager && final(self).frames == old(self).frames && final(self).images == old(self).images && final(self).clock_us == old(self).clock_us,
    {
        if start % PAGE_SIZE != 0 {
            return -1;
        }
        let start_vpn = start / PAGE_SIZE;
        let end_vpn = (start + len + PAGE_SIZE - 1) / PAGE_SIZE;
        let cur = self.current;
        let found = self.tasks[cur].memory_set.remove_area_exact(start_vpn, end_vpn);
        if !found {
            proof {
                assert(self.tasks@ =~~= old(self).tasks@);
            }
            return -1;
        }
        proof {
            assert(self.tasks@ =~= old(self).tasks@.update(
                cur as int,
                TaskControlBlock {
                    memory_set: self.tasks@[cur as int].memory_set,
                    ..old(self).cur_task()
                },
            ));
            crate::mem::lemma_remove_range_props(
                old(self).cur_task().memory_set@.table,
                start_vpn as int,
                end_vpn as int,
            );
            assert forall|i: int|
                0 <= i < self.tasks@[cur as int].memory_set@.table.len() implies (
            #[trigger] self.tasks@[cur as int].memory_set@.table[i]).frame
                < self.frames.next as int by {
                let t0 = old(self).cur_task().memory_set@.table;
                let rr = self.tasks@[cur as int].memory_set@.table;
                let i0 = choose|i0: int| 0 <= i0 < t0.len() && t0[i0] == rr[i];
                assert(t0[i0].frame < self.frames.next as int);
            }
            lemma_wf_update_cur(*old(self), *self);
        }
        0
    }

    /// Adjust the running task's program break by `size` bytes through the
    /// heap area, returning the previous break, or `None` for an invalid
    /// change.
    pub fn change_program_brk(&mut self, size: i32) -> (r: Option<usize>)
        requires
            old(self).wf(),
            old(self).cur_task().program_brk + size <= MAX_VA,
            old(self).cur_task().sbrk_safe(size as int),
            old(self).frames.next + page_ceil(old(self).cur_task().program_brk + size)
                <= usize::MAX,
        ensures
            final(self).wf(),
            (r is Some) == old(self).cur_task().sbrk_ok(size as int),
            r is None ==> final(self).tasks@ == old(self).tasks@ && final(self).current == old(self).current && final(self).manager == old(self).manager && final(self).frames == old(self).frames && final(self).images == old(self).images && final(self).clock_us == old(self).clock_us,
            r is Some ==> r == Option::Some(old(self).cur_task().program_brk) && (
            final(self).cur_task().memory_set@, final(self).cur_task().program_brk as int)
                == sbrk_apply(
                old(self).cur_task().memory_set@,
                old(self).cur_task().heap_bottom as int,
                old(self).cur_task().program_brk as int,
                size as int,
                old(self).frames.next as int,
            ) && final(self).cur_task().program_brk == old(self).cur_task().program_brk + size
                && final(self).cur_task().heap_bottom == old(self).cur_task().heap_bottom && final(self).tasks@ == old(self).tasks@.update(
                old(self).current as int,
                TaskControlBlock {
                    memory_set: final(self).cur_task().memory_set,
                    program_brk: final(self).cur_task().program_brk,
                    ..old(self).cur_task()
                },
            ) && final(self).current == old(self).current && final(self).manager == old(self).manager && final(self).images == old(self).images && final(self).clock_us == old(self).clock_us,
    {
        let cur = self.current;
        let r = self.tasks[cur].change_program_brk(size, &mut self.frames);
        proof {
            if r is None {
                assert(self.tasks@ =~~= old(self).tasks@);
                lemma_wf_update_cur(*old(self), *self);
            } else {
                assert(self.tasks@ =~= old(self).tasks@.update(
                    cur as int,
                    TaskControlBlock {
                        memory_set: self.tasks@[cur as int].memory_set,
                        program_brk: self.tasks@[cur as int].program_brk,
                        ..old(self).cur_task()
                    },
                ));
                let pre_ms = old(self).cur_task().memory_set@;
                let post_ms = self.tasks@[cur as int].memory_set@;
                let hb0 = old(self).cur_task().heap_bottom as int;
                crate::mem::lemma_find_by_start_props(pre_ms.areas, hb0 / (PAGE_SIZE as int));
                assert forall|i: int| 0 <= i < post_ms.table.len() implies (
                #[trigger] post_ms.table[i]).frame < self.frames.next as int by {
                    let hb = old(self).cur_task().heap_bottom as int;
                    let idx = crate::mem::find_by_start(pre_ms.areas, hb / (PAGE_SIZE as int))->Some_0;
                    let cur_end = pre_ms.areas[idx].end_vpn as int;
                    let ne = page_ceil(
                        old(self).cur_task().program_brk as int + size as int,
                    );
                    if ne >= cur_end {
                        // grown: old entries plus fresh frames below the cursor
                        assert(post_ms.table == pre_ms.table + crate::mem::fresh_pages(
                            cur_end,
                            ne,
                            pre_ms.areas[idx].perm,
                            old(self).frames.next as int,
                        ));
                        if i < pre_ms.table.len() {
                            assert(pre_ms.table[i].frame < old(self).frames.next as int);
                        }
                    } else {
                        crate::mem::lemma_remove_range_props(pre_ms.table, ne, cur_end);
                        let i0 = choose|i0: int|
                            0 <= i0 < pre_ms.table.len() && pre_ms.table[i0] == post_ms.table[i];
                        assert(pre_ms.table[i0].frame < old(self).frames.next as int);
                    }
                }
                lemma_wf_update_cur(*old(self), *self);
            }
        }
        r
    }

    /// `sbrk`: move the program break by `size` bytes (negative shrinks).
    /// Returns the previous break on success, -1 when the change would drop
    /// below the heap base or the heap area is gone.
    pub fn sys_sbrk(&mut self, size: i32) -> (r: isize)
        requires
            old(self).wf(),
            old(self).cur_task().program_brk + size <= MAX_VA,
            old(self).cur_task().sbrk_safe(size as int),
            old(self).frames.next + page_ceil(old(self).cur_task().program_brk + size)
                <= usize::MAX,
        ensures
            final(self).wf(),
            (r == -1) <==> !old(self).cur_task().sbrk_ok(size as int),
            r == -1 ==> final(self).tasks@ == old(self).tasks@ && final(self).current == old(self).current && final(self).manager == old(self).manager && final(self).frames == old(self).frames && final(self).images == old(self).images && final(self).clock_us == old(self).clock_us,
            r != -1 ==> r == old(self).cur_task().program_brk as isize && (
            final(self).cur_task().memory_set@, final(self).cur_task().program_brk as int)
                == sbrk_apply(
                old(self).cur_task().memory_set@,
                old(self).cur_task().heap_bottom as int,
                old(self).cur_task().program_brk as int,
                size as int,
                old(self).frames.next as int,
            ) && final(self).cur_task().program_brk == old(self).cur_task().program_brk + size,
    {
        let r = self.change_program_brk(size);
        match r {
            Some(old_brk) => old_brk as isize,
            None => -1,
        }
    }

    /// `fork`: duplicate the running task. The child gets a page-by-page copy
    /// of the parent's address space on disjoint fresh frames, a copy of the
    /// trap context with the return-value register zeroed, status `Ready`,
    /// fresh metadata, and joins the ready queue. Returns the child's pid
    /// (the parent's view; the child's own return path yields 0).
    pub fn sys_fork(&mut self) -> (r: isize)
        requires
            old(self).wf(),
            old(self).tasks@.len() < MAX_TASKS,
            old(self).frames.next + old(self).cur_task().memory_set@.table.len() <= usize::MAX,
        ensures
            final(self).wf(),
            r == old(self).tasks@.len() as isize,
            final(self).tasks@.len() == old(self).tasks@.len() + 1,
            ({
                let child = final(self).tasks@.last();
                &&& same_memory(child.memory_set@, old(self).cur_task().memory_set@)
                &&& forall|i: int, j: int|
                    0 <= i < old(self).cur_task().memory_set@.table.len() && 0 <= j
                        < child.memory_set@.table.len() ==> (
                    #[trigger] old(self).cur_task().memory_set@.table[i]).frame != (
                    #[trigger] child.memory_set@.table[j]).frame
                &&& child.trap_cx.x@ == old(self).cur_task().trap_cx.x@.update(10, 0usize)
                &&& child.status == TaskStatus::Ready
                &&& child.parent == Option::Some(old(self).current)
                &&& child.children@.len() == 0
                &&& child.pid == old(self).tasks@.len()
                &&& child.heap_bottom == old(self).cur_task().heap_bottom
                &&& child.program_brk == old(self).cur_task().program_brk
            }),
            final(self).cur_task().children@ == old(self).cur_task().children@.push(
                old(self).tasks@.len() as usize,
            ),
            final(self).cur_task().memory_set == old(self).cur_task().memory_set,
            forall|i: int|
                0 <= i < old(self).tasks@.len() && i != old(self).current ==> final(self).tasks@[i]
                    == old(self).tasks@[i],
            final(self).current == old(self).current,
            final(self).manager.ready_queue@ == old(self).manager.ready_queue@.push(
                old(self).tasks@.len() as usize,
            ),
            final(self).images == old(self).images,
            final(self).clock_us == old(self).clock_us,
    {
        let cur = self.current;
        let child_pid = self.tasks.len();
        let ghost f0 = self.frames.next as int;
        let new_ms = self.tasks[cur].memory_set.clone_with_fresh_frames(&mut self.frames);
        let tc = self.tasks[cur].trap_cx.forked();
        let hb = self.tasks[cur].heap_bottom;
        let brk = self.tasks[cur].program_brk;
        proof {
            lemma_fork_frames_disjoint(
                old(self).cur_task().memory_set@.table,
                new_ms@.table,
                f0,
            );
        }
        let child = TaskControlBlock {
            pid: child_pid,
            status: TaskStatus::Ready,
            memory_set: new_ms,
            trap_cx: tc,
            parent: Some(cur),
            children: Vec::new(),
            exit_code: 0,
            alive: true,
            priority: crate::task::DEFAULT_PRIORITY,
            syscall_times: crate::task::make_zero_counts(),
            start_time: 0,
            heap_bottom: hb,
            program_brk: brk,
        };
        self.tasks.push(child);
        self.tasks[cur].children.push(child_pid);
        self.manager.add(child_pid);
        proof {
            self.lemma_wf_after_new_child(*old(self), child_pid as int);
        }
        child_pid as isize
    }

    /// Pushing one fresh `Ready` child (built by `fork` or `spawn`) onto the
    /// table, recording it in the running task's child list and the ready
    /// queue, keeps the kernel invariant.
    proof fn lemma_wf_after_new_child(self, pre: Kernel, c: int)
        requires
            pre.wf(),
            c == pre.tasks@.len(),
            pre.tasks@.len() < MAX_TASKS,
            self.tasks@.len() == pre.tasks@.len() + 1,
            self.current == pre.current,
            self.tasks@[c].wf(),
            self.tasks@[c].pid == c,
            self.tasks@[c].status == TaskStatus::Ready,
            self.tasks@[c].alive,
            self.tasks@[c].children@.len() == 0,
            frames_below(self.tasks@[c].memory_set@.table, self.frames.next as int),
            pre.frames.next <= self.frames.next,
            self.tasks@[pre.current as int] == (TaskControlBlock {
                children: self.tasks@[pre.current as int].children,
                ..pre.cur_task()
            }),
            self.tasks@[pre.current as int].children@ == pre.cur_task().children@.push(c as usize),
            forall|i: int|
                0 <= i < pre.tasks@.len() && i != pre.current ==> self.tasks@[i] == pre.tasks@[i],
            self.manager.wf(),
            self.manager.ready_queue@ == pre.manager.ready_queue@.push(c as usize),
            self.images == pre.images,
        ensures
            self.wf(),
    {
        let n = pre.tasks@.len() as int;
        let cur = pre.current as int;
        assert forall|i: int| 0 <= i < n + 1 implies (#[trigger] self.tasks@[i]).wf() by {
            if i != cur && i < n {
                assert(self.tasks@[i] == pre.tasks@[i]);
            }
        }
        assert forall|i: int| 0 <= i < n + 1 implies frames_below(
            (#[trigger] self.tasks@[i]).memory_set@.table,
            self.frames.next as int,
        ) by {
            if i < n {
                assert(frames_below(
                    pre.tasks@[i].memory_set@.table,
                    pre.frames.next as int,
                ));
            }
        }
        assert forall|i: int, k: int|
            0 <= i < n + 1 && 0 <= k < (#[trigger] self.tasks@[i]).children@.len() implies (
        #[trigger] self.tasks@[i].children@[k]) < self.tasks@.len()
            && self.tasks@[self.tasks@[i].children@[k] as int].alive by {
            if i == cur && k == pre.cur_task().children@.len() {
                assert(self.tasks@[i].children@[k] == c as usize);
            } else {
                assert(self.tasks@[i].children@[k] == pre.tasks@[i].children@[k]);
                assert(pre.tasks@[i].children@[k] < n);
                assert(pre.tasks@[pre.tasks@[i].children@[k] as int].alive);
            }
        }
        assert forall|i1: int, k1: int, i2: int, k2: int|
            0 <= i1 < n + 1 && 0 <= k1 < self.tasks@[i1].children@.len() && 0 <= i2 < n + 1 && 0
                <= k2 < self.tasks@[i2].children@.len() && (i1 != i2 || k1 != k2) implies (
        #[trigger] self.tasks@[i1].children@[k1]) != (#[trigger] self.tasks@[i2].children@[k2]) by {
            let fresh1 = i1 == cur && k1 == pre.cur_task().children@.len();
            let fresh2 = i2 == cur && k2 == pre.cur_task().children@.len();
            if fresh1 && !fresh2 {
                assert(self.tasks@[i2].children@[k2] == pre.tasks@[i2].children@[k2]);
                assert(pre.tasks@[i2].children@[k2] < n);
            } else if !fresh1 && fresh2 {
                assert(self.tasks@[i1].children@[k1] == pre.tasks@[i1].children@[k1]);
                assert(pre.tasks@[i1].children@[k1] < n);
            } else if !fresh1 && !fresh2 {
                assert(self.tasks@[i1].children@[k1] == pre.tasks@[i1].children@[k1]);
                assert(self.tasks@[i2].children@[k2] == pre.tasks@[i2].children@[k2]);
            }
        }
        assert forall|i: int| 0 <= i < n + 1 && !(#[trigger] self.tasks@[i]).alive implies
            self.tasks@[i].status == TaskStatus::Zombie by {
            if i < n && i != cur {
                assert(self.tasks@[i] == pre.tasks@[i]);
            }
        }
        assert forall|q: int| 0 <= q < self.manager.ready_queue@.len() implies (
        #[trigger] self.manager.ready_queue@[q]) < self.tasks@.len() by {
            if q < pre.manager.ready_queue@.len() {
                assert(self.manager.ready_queue@[q] == pre.manager.ready_queue@[q]);
            }
        }
        assert forall|i: int|
            0 <= i < n + 1 && i != self.current implies (#[trigger] self.tasks@[i]).status
            != TaskStatus::Running by {
            if i < n && i != cur {
                assert(self.tasks@[i] == pre.tasks@[i]);
            }
        }
    }

    /// Index of the registered image named `path`, if any.
    fn find_image(&self, path: &Vec<u8>) -> (r: Option<usize>)
        ensures
            r.is_some() == image_named(self.images@, path@).is_some(),
            r is Some ==> image_named(self.images@, path@) == Option::Some(r->Some_0 as int)
                && r->Some_0 < self.images@.len(),
    {
        let mut k: usize = 0;
        while k < self.images.len()
            invariant
                k <= self.images@.len(),
                forall|j: int| 0 <= j < k ==> (#[trigger] self.images@[j]).name@ != path@,
            decreases self.images@.len() - k,
        {
            if bytes_eq(&self.images[k].name, path) {
                proof {
                    lemma_image_named_props(self.images@, path@);
                    match image_named(self.images@, path@) {
                        Option::Some(i) => {
                            if i < k as int {
                                assert(self.images@[i].name@ != path@);
                            }
                            if i > k as int {
                                assert(self.images@[k as int].name@ != path@);
                            }
                        },
                        Option::None => {
                            assert(self.images@[k as int].name@ != path@);
                        },
                    }
                }
                return Some(k);
            }
            k = k + 1;
        }
        proof {
            lemma_image_named_props(self.images@, path@);
            if image_named(self.images@, path@) is Some {
                let i = image_named(self.images@, path@)->Some_0;
                assert(self.images@[i].name@ != path@);
            }
        }
        None
    }

    /// `exec`: replace the running task's address space and trap context with
    /// ones built fresh from the image registered under `path`, keeping its
    /// pid and family links. Returns 0, or -1 when no image has that name.
    pub fn sys_exec(&mut self, path: &Vec<u8>) -> (r: isize)
        requires
            old(self).wf(),
            forall|i: int|
                0 <= i < old(self).images@.len() ==> old(self).frames.next + crate::task::seg_total(
                    (#[trigger] old(self).images@[i]).segments@,
                ) + crate::task::USER_STACK_PAGES + 1 <= usize::MAX,
        ensures
            final(self).wf(),
            r == 0 || r == -1,
            (r == -1) <==> image_named(old(self).images@, path@) is None,
            r == -1 ==> *final(self) == *old(self),
            r == 0 ==> ({
                let i = image_named(old(self).images@, path@)->Some_0;
                let b = crate::task::build_as_apply(
                    old(self).images@[i].segments@,
                    old(self).frames.next as int,
                );
                &&& final(self).cur_task().memory_set@ == b.0
                &&& final(self).cur_task().heap_bottom == b.1
                &&& final(self).cur_task().program_brk == b.1
                &&& final(self).frames.next == b.2
                &&& final(self).cur_task().trap_cx.x@ =~= Seq::new(32nat, |j: int| 0usize)
                &&& final(self).cur_task().pid == old(self).cur_task().pid
                &&& final(self).cur_task().children == old(self).cur_task().children
                &&& final(self).cur_task().parent == old(self).cur_task().parent
                &&& final(self).cur_task().status == old(self).cur_task().status
                &&& final(self).tasks@.len() == old(self).tasks@.len()
                &&& forall|j: int|
                    0 <= j < old(self).tasks@.len() && j != old(self).current ==> final(self).tasks@[j] == old(self).tasks@[j]
                &&& final(self).current == old(self).current
                &&& final(self).manager == old(self).manager
                &&& final(self).images == old(self).images
                &&& final(self).clock_us == old(self).clock_us
            }),
    {
        let found = self.find_image(path);
        if found.is_none() {
            return -1;
        }
        let i = found.unwrap();
        let ghost f0 = self.frames.next as int;
        let built = crate::task::build_user_space(&self.images[i], &mut self.frames);
        let cur = self.current;
        self.tasks[cur].memory_set = built.0;
        self.tasks[cur].trap_cx = TrapContext::new_zeroed();
        self.tasks[cur].heap_bottom = built.1;
        self.tasks[cur].program_brk = built.1;
        proof {
            lemma_build_as_frames(old(self).images@[i as int].segments@, f0);
            assert(final(self).cur_task().trap_cx.x@ =~= Seq::new(32nat, |j: int| 0usize));
            lemma_wf_update_cur(*old(self), *self);
        }
        0
    }

    /// `spawn`: create and schedule a fresh child task from the image
    /// registered under `path`, without copying the parent's address space.
    /// Returns the new child's pid, or -1 when no image has that name.
    pub fn sys_spawn(&mut self, path: &Vec<u8>) -> (r: isize)
        requires
            old(self).wf(),
            old(self).tasks@.len() < MAX_TASKS,
            forall|i: int|
                0 <= i < old(self).images@.len() ==> old(self).frames.next + crate::task::seg_total(
                    (#[trigger] old(self).images@[i]).segments@,
                ) + crate::task::USER_STACK_PAGES + 1 <= usize::MAX,
        ensures
            final(self).wf(),
            (r == -1) <==> image_named(old(self).images@, path@) is None,
            r == -1 ==> *final(self) == *old(self),
            r != -1 ==> r == old(self).tasks@.len() as isize && ({
                let i = image_named(old(self).images@, path@)->Some_0;
                let b = crate::task::build_as_apply(
                    old(self).images@[i].segments@,
                    old(self).frames.next as int,
                );
                let child = final(self).tasks@.last();
                &&& final(self).tasks@.len() == old(self).tasks@.len() + 1
                &&& child.memory_set@ == b.0
                &&& child.status == TaskStatus::Ready
                &&& child.parent == Option::Some(old(self).current)
                &&& child.pid == old(self).tasks@.len()
                &&& final(self).cur_task().children@ == old(self).cur_task().children@.push(
                    old(self).tasks@.len() as usize,
                )
                &&& final(self).manager.ready_queue@ == old(self).manager.ready_queue@.push(
                    old(self).tasks@.len() as usize,
                )
                &&& forall|j: int|
                    0 <= j < old(self).tasks@.len() && j != old(self).current ==> final(self).tasks@[j] == old(self).tasks@[j]
                &&& final(self).current == old(self).current
                &&& final(self).images == old(self).images
                &&& final(self).clock_us == old(self).clock_us
            }),
    {
        let found = self.find_image(path);
        if found.is_none() {
            return -1;
        }
        let i = found.unwrap();
        let cur = self.current;
        let child_pid = self.tasks.len();
        let ghost f0 = self.frames.next as int;
        let mut child = TaskControlBlock::new(child_pid, &self.images[i], &mut self.frames);
        child.parent = Some(cur);
        proof {
            lemma_build_as_frames(old(self).images@[i as int].segments@, f0);
        }
        self.tasks.push(child);
        self.tasks[cur].children.push(child_pid);
        self.manager.add(child_pid);
        proof {
            self.lemma_wf_after_new_child(*old(self), child_pid as int);
        }
        child_pid as isize
    }

    /// `waitpid`: reap a terminated child. With no child passing the filter
    /// (`-1` is the wildcard) returns -1; with matches but none yet a zombie
    /// returns -2 (a poll signal, not an error); otherwise removes the first
    /// matching zombie from the child list, releases its slot, stores its
    /// exit code at `exit_code_ptr` in the caller's memory, and returns its
    /// pid.
    pub fn sys_waitpid(&mut self, pid: isize, exit_code_ptr: usize) -> (r: isize)
        requires
            old(self).wf(),
            exit_code_ptr + 4 <= usize::MAX,
            first_zombie_match(old(self).tasks@, old(self).cur_task().children@, pid) is Some
                ==> forall|x: int|
                exit_code_ptr <= x < exit_code_ptr + 4 ==> va_mapped(
                    old(self).cur_task().memory_set@,
                    x,
                ),
        ensures
            final(self).wf(),
            (r == -1) <==> !has_match(old(self).cur_task().children@, pid),
            (r == -2) <==> (has_match(old(self).cur_task().children@, pid) && first_zombie_match(
                old(self).tasks@,
                old(self).cur_task().children@,
                pid,
            ) is None),
            (r == -1 || r == -2) ==> *final(self) == *old(self),
            (r != -1 && r != -2) ==> ({
                let k = first_zombie_match(
                    old(self).tasks@,
                    old(self).cur_task().children@,
                    pid,
                )->Some_0;
                let c = old(self).cur_task().children@[k];
                &&& first_zombie_match(old(self).tasks@, old(self).cur_task().children@, pid)
                    is Some
                &&& r == c as isize
                &&& final(self).cur_task().children@ == old(self).cur_task().children@.remove(k)
                &&& !final(self).tasks@[c as int].alive
                &&& final(self).tasks@[c as int].exit_code == old(self).tasks@[c as int].exit_code
                &&& final(self).cur_task().memory_set@ == write_seq(
                    old(self).cur_task().memory_set@,
                    exit_code_ptr as int,
                    le_bytes((old(self).tasks@[c as int].exit_code as u32) as int, 4),
                )
                &&& forall|j: int|
                    0 <= j < 4 ==> #[trigger] byte_at(
                        final(self).cur_task().memory_set@,
                        exit_code_ptr + j,
                    ) == le_bytes((old(self).tasks@[c as int].exit_code as u32) as int, 4)[j]
                &&& forall|i: int|
                    0 <= i < old(self).tasks@.len() && i != old(self).current && i != c ==> final(self).tasks@[i] == old(self).tasks@[i]
                &&& final(self).current == old(self).current
                &&& final(self).manager == old(self).manager
                &&& final(self).frames == old(self).frames
                &&& final(self).images == old(self).images
                &&& final(self).clock_us == old(self).clock_us
            }),
    {
        let cur = self.current;
        let ghost cs = self.tasks@[cur as int].children@;
        // does any child pass the filter at all?
        let mut any = false;
        let mut k: usize = 0;
        while k < self.tasks[cur].children.len()
            invariant
                self.wf(),
                cur == self.current,
                cs == self.tasks@[cur as int].children@,
                k <= cs.len(),
                any == has_match(cs.take(k as int), pid),
            decreases cs.len() - k,
        {
            let c = self.tasks[cur].children[k];
            let m = pid == -1 || (pid >= 0 && pid as usize == c);
            proof {
                assert(cs.take(k as int + 1) =~= cs.take(k as int).push(cs[k as int]));
                if m {
                    assert(child_matches(pid, cs[k as int]));
                    assert(has_match(cs.take(k as int + 1), pid)) by {
                        assert(cs.take(k as int + 1)[k as int] == cs[k as int]);
                    }
                } else if !any {
                    assert forall|j: int| 0 <= j < k as int + 1 implies !child_matches(
                        pid,
                        #[trigger] cs.take(k as int + 1)[j],
                    ) by {
                        if j < k as int {
                            assert(cs.take(k as int + 1)[j] == cs.take(k as int)[j]);
                            assert(!has_match(cs.take(k as int), pid));
                        }
                    }
                }
            }
            if m {
                any = true;
            }
            k = k + 1;
        }
        proof {
            assert(cs.take(cs.len() as int) =~= cs);
        }
        if !any {
            return -1;
        }
        // the first matching zombie child, in list order
        let mut idx: usize = 0;
        let mut found = false;
        let mut k2: usize = 0;
        while k2 < self.tasks[cur].children.len()
            invariant
                self.wf(),
                cur == self.current,
                cs == self.tasks@[cur as int].children@,
                k2 <= cs.len(),
                !found ==> forall|j: int|
                    0 <= j < k2 ==> !(#[trigger] child_matches(pid, cs[j])
                        && self.tasks@[cs[j] as int].status == TaskStatus::Zombie),
                found ==> idx < k2 && child_matches(pid, cs[idx as int])
                    && self.tasks@[cs[idx as int] as int].status == TaskStatus::Zombie && forall|
                    j: int,
                |
                    0 <= j < idx ==> !(#[trigger] child_matches(pid, cs[j])
                        && self.tasks@[cs[j] as int].status == TaskStatus::Zombie),
            decreases cs.len() - k2,
        {
            if !found {
                let c = self.tasks[cur].children[k2];
                let m = pid == -1 || (pid >= 0 && pid as usize == c);
                if m && self.tasks[c].status == TaskStatus::Zombie {
                    idx = k2;
                    found = true;
                }
            }
            k2 = k2 + 1;
        }
        proof {
            lemma_first_zombie_match_props(self.tasks@, cs, pid);
        }
        if !found {
            return -2;
        }
        proof {
            // the scan found exactly the spec's first match
            match first_zombie_match(self.tasks@, cs, pid) {
                Option::Some(i) => {
                    if i < idx as int {
                        assert(!(child_matches(pid, cs[i]) && self.tasks@[cs[i] as int].status
                            == TaskStatus::Zombie));
                    }
                    if i > idx as int {
                        assert(!(child_matches(pid, cs[idx as int])
                            && self.tasks@[cs[idx as int] as int].status == TaskStatus::Zombie));
                    }
                },
                Option::None => {
                    assert(!(child_matches(pid, cs[idx as int])
                        && self.tasks@[cs[idx as int] as int].status == TaskStatus::Zombie));
                },
            }
        }
        let c = self.tasks[cur].children[idx];
        self.tasks[cur].children.remove(idx);
        self.tasks[c].alive = false;
        let code = self.tasks[c].exit_code;
        let bytes = le_bytes_exec((code as u32) as u64, 4);
        proof {
            lemma_le_bytes_len((code as u32) as int, 4);
            assert forall|x: int| exit_code_ptr <= x < exit_code_ptr + 4 implies va_mapped(
                self.tasks@[cur as int].memory_set@,
                x,
            ) by {
                assert(va_mapped(old(self).cur_task().memory_set@, x));
            }
        }
        self.tasks[cur].memory_set.write_bytes(exit_code_ptr, &bytes);
        proof {
            lemma_write_seq_props(
                old(self).cur_task().memory_set@,
                exit_code_ptr as int,
                bytes@,
            );
            self.lemma_wf_after_reap(*old(self), idx as int, c as int);
        }
        c as isize
    }

    /// Reaping one zombie child — removing it from the running task's child
    /// list, releasing its slot, and writing bytes into the running task's
    /// memory — keeps the kernel invariant.
    proof fn lemma_wf_after_reap(self, pre: Kernel, k: int, c: int)
        requires
            pre.wf(),
            0 <= k < pre.cur_task().children@.len(),
            c == pre.cur_task().children@[k],
            pre.tasks@[c].status == TaskStatus::Zombie,
            self.tasks@.len() == pre.tasks@.len(),
            self.current == pre.current,
            self.manager == pre.manager,
            self.frames == pre.frames,
            self.images == pre.images,
            forall|i: int|
                0 <= i < pre.tasks@.len() && i != pre.current && i != c ==> self.tasks@[i]
                    == pre.tasks@[i],
            c != pre.current,
            self.tasks@[c] == (TaskControlBlock { alive: false, ..pre.tasks@[c] }),
            self.tasks@[pre.current as int].children@ == pre.cur_task().children@.remove(k),
            self.tasks@[pre.current as int].status == pre.cur_task().status,
            self.tasks@[pre.current as int].alive == pre.cur_task().alive,
            self.tasks@[pre.current as int].pid == pre.cur_task().pid,
            self.tasks@[pre.current as int].wf(),
            frames_below(
                self.tasks@[pre.current as int].memory_set@.table,
                self.frames.next as int,
            ),
        ensures
            self.wf(),
    {
        let n = pre.tasks@.len() as int;
        let cur = pre.current as int;
        let cs0 = pre.cur_task().children@;
        let cs1 = self.tasks@[cur].children@;
        assert(forall|j: int|
            0 <= j < cs1.len() ==> #[trigger] cs1[j] == cs0[
                if j < k {
                    j
                } else {
                    j + 1
                }
            ]);
        assert forall|i: int| 0 <= i < n implies (#[trigger] self.tasks@[i]).wf() by {
            if i != cur && i != c {
                assert(self.tasks@[i] == pre.tasks@[i]);
            } else if i == c {
                assert(pre.tasks@[c].wf());
            }
        }
        assert forall|i: int| 0 <= i < n implies frames_below(
            (#[trigger] self.tasks@[i]).memory_set@.table,
            self.frames.next as int,
        ) by {
            if i != cur {
                assert(self.tasks@[i].memory_set == pre.tasks@[i].memory_set);
                assert(frames_below(pre.tasks@[i].memory_set@.table, pre.frames.next as int));
            }
        }
        // the reaped child sat in exactly one list slot, so no surviving link
        // names it
        assert forall|i: int, kk: int|
            0 <= i < n && 0 <= kk < (#[trigger] self.tasks@[i]).children@.len() implies (
        #[trigger] self.tasks@[i].children@[kk]) < n
            && self.tasks@[self.tasks@[i].children@[kk] as int].alive by {
            let pkk = if i == cur && kk >= k {
                kk + 1
            } else {
                kk
            };
            assert(self.tasks@[i].children@[kk] == pre.tasks@[i].children@[pkk]);
            let tgt = pre.tasks@[i].children@[pkk] as int;
            assert(tgt < n && pre.tasks@[tgt].alive);
            assert(tgt != c) by {
                if tgt == c {
                    // two links to the same child violate uniqueness
                    assert(pre.tasks@[cur].children@[k] == pre.tasks@[i].children@[pkk]);
                    assert(i == cur && pkk == k);
                }
            }
            assert(self.tasks@[tgt].alive == pre.tasks@[tgt].alive);
        }
        assert forall|i1: int, k1: int, i2: int, k2: int|
            0 <= i1 < n && 0 <= k1 < self.tasks@[i1].children@.len() && 0 <= i2 < n && 0 <= k2
                < self.tasks@[i2].children@.len() && (i1 != i2 || k1 != k2) implies (
        #[trigger] self.tasks@[i1].children@[k1]) != (#[trigger] self.tasks@[i2].children@[k2]) by {
            let p1 = if i1 == cur && k1 >= k {
                k1 + 1
            } else {
                k1
            };
            let p2 = if i2 == cur && k2 >= k {
                k2 + 1
            } else {
                k2
            };
            assert(self.tasks@[i1].children@[k1] == pre.tasks@[i1].children@[p1]);
            assert(self.tasks@[i2].children@[k2] == pre.tasks@[i2].children@[p2]);
            assert(pre.tasks@[i1].children@[p1] != pre.tasks@[i2].children@[p2]);
        }
        assert forall|i: int| 0 <= i < n && !(#[trigger] self.tasks@[i]).alive implies
            self.tasks@[i].status == TaskStatus::Zombie by {
            if i != cur && i != c {
                assert(self.tasks@[i] == pre.tasks@[i]);
            }
        }
        assert forall|i: int|
            0 <= i < n && i != self.current implies (#[trigger] self.tasks@[i]).status
            != TaskStatus::Running by {
            if i != c {
                assert(self.tasks@[i].status == pre.tasks@[i].status);
            }
        }
    }

    /// `get_time`: store the current timestamp — seconds then microseconds,
    /// eight little-endian bytes each — byte-wise at `ts_ptr` in the running
    /// task's memory, which may span a page boundary. Returns 0.
    pub fn sys_get_time(&mut self, ts_ptr: usize, tz: usize) -> (r: isize)
        requires
            old(self).wf(),
            ts_ptr + 16 <= usize::MAX,
            forall|x: int|
                ts_ptr <= x < ts_ptr + 16 ==> va_mapped(old(self).cur_task().memory_set@, x),
        ensures
            final(self).wf(),
            r == 0,
            final(self).cur_task().memory_set@ == write_seq(
                old(self).cur_task().memory_set@,
                ts_ptr as int,
                timeval_bytes(old(self).clock_us as int),
            ),
            forall|j: int|
                0 <= j < 16 ==> byte_at(final(self).cur_task().memory_set@, ts_ptr + j)
                    == timeval_bytes(old(self).clock_us as int)[j],
            final(self).tasks@ == old(self).tasks@.update(
                old(self).current as int,
                TaskControlBlock {
                    memory_set: final(self).cur_task().memory_set,
                    ..old(self).cur_task()
                },
            ),
            final(self).current == old(self).current,
            final(self).manager == old(self).manager,
            final(self).frames == old(self).frames,
            final(self).images == old(self).images,
            final(self).clock_us == old(self).clock_us,
    {
        let us = self.clock_us;
        let sec = us / 1000000;
        let usec = us % 1000000;
        let mut bytes = le_bytes_exec(sec as u64, 8);
        let mut tail = le_bytes_exec(usec as u64, 8);
        bytes.append(&mut tail);
        proof {
            lemma_le_bytes_len(us as int / 1000000, 8);
            lemma_le_bytes_len(us as int % 1000000, 8);
            assert(bytes@ =~= timeval_bytes(us as int));
            assert(bytes@.len() == 16);
        }
        let cur = self.current;
        self.tasks[cur].memory_set.write_bytes(ts_ptr, &bytes);
        proof {
            lemma_write_seq_props(old(self).cur_task().memory_set@, ts_ptr as int, bytes@);
            assert(self.tasks@ =~= old(self).tasks@.update(
                cur as int,
                TaskControlBlock {
                    memory_set: self.tasks@[cur as int].memory_set,
                    ..old(self).cur_task()
                },
            ));
            assert forall|i: int|
                0 <= i < self.tasks@[cur as int].memory_set@.table.len() implies (
            #[trigger] self.tasks@[cur as int].memory_set@.table[i]).frame
                < self.frames.next as int by {
                assert(self.tasks@[cur as int].memory_set@.table[i].frame == old(self).cur_task().memory_set@.table[i].frame);
            }
            lemma_wf_update_cur(*old(self), *self);
        }
        0
    }

    /// The current timestamp as a value.
    pub fn current_time_val(&self) -> (r: TimeVal)
        ensures
            r.sec == self.clock_us as int / 1000000,
            r.usec == self.clock_us as int % 1000000,
    {
        TimeVal { sec: self.clock_us / 1000000, usec: self.clock_us % 1000000 }
    }

    /// Put a runnable task id on the FIFO ready queue.
    pub fn add_task(&mut self, task: usize)
        requires
            old(self).wf(),
            task < old(self).tasks@.len(),
        ensures
            final(self).wf(),
            final(self).manager.ready_queue@ == old(self).manager.ready_queue@.push(task),
            final(self).tasks == old(self).tasks,
            final(self).current == old(self).current,
            final(self).frames == old(self).frames,
            final(self).images == old(self).images,
            final(self).clock_us == old(self).clock_us,
    {
        self.manager.add(task);
    }

    /// Take the task id at the head of the FIFO ready queue.
    pub fn fetch_task(&mut self) -> (r: Option<usize>)
        requires
            old(self).wf(),
        ensures
            final(self).wf(),
            old(self).manager.ready_queue@.len() == 0 ==> r is None
                && final(self).manager.ready_queue@ == old(self).manager.ready_queue@,
            old(self).manager.ready_queue@.len() > 0 ==> r == Option::Some(
                old(self).manager.ready_queue@[0],
            ) && final(self).manager.ready_queue@ == old(self).manager.ready_queue@.drop_first(),
            final(self).tasks == old(self).tasks,
            final(self).current == old(self).current,
            final(self).frames == old(self).frames,
            final(self).images == old(self).images,
            final(self).clock_us == old(self).clock_us,
    {
        self.manager.fetch()
    }

    /// How many tasks wait in the FIFO ready queue.
    pub fn get_task_sum_in_ready(&self) -> (r: usize)
        requires
            self.wf(),
        ensures
            r == self.manager.ready_queue@.len(),
    {
        self.manager.get_task_sum_in_ready()
    }

    /// Advance the kernel's view of the timer, read at the next trap.
    pub fn set_clock_us(&mut self, now_us: usize)
        requires
            old(self).clock_us <= now_us,
        ensures
            final(self).clock_us == now_us,
            final(self).tasks == old(self).tasks,
            final(self).current == old(self).current,
            final(self).manager == old(self).manager,
            final(self).frames == old(self).frames,
            final(self).images == old(self).images,
            old(self).wf() ==> final(self).wf(),
            old(self).wf_base() ==> final(self).wf_base(),
    {
        self.clock_us = now_us;
    }
}

/// The round-robin choice: the first `Ready` slot at offset `k` or beyond
/// (offsets taken from just after `cur`, wrapping once around the table).
pub open spec fn scan_ready(tasks: Seq<TaskControlBlock>, cur: int, k: int) -> Option<int>
    decreases tasks.len() + 1 - k,
{
    if k > tasks.len() || k < 0 {
        Option::None
    } else {
        let id = (cur + k) % (tasks.len() as int);
        if tasks[id].status == TaskStatus::Ready {
            Option::Some(id)
        } else {
            scan_ready(tasks, cur, k + 1)
        }
    }
}

/// One unfolding of `scan_ready`.
pub proof fn lemma_scan_step(tasks: Seq<TaskControlBlock>, cur: int, k: int)
    requires
        1 <= k <= tasks.len(),
    ensures
        scan_ready(tasks, cur, k) == {
            let id = (cur + k) % (tasks.len() as int);
            if tasks[id].status == TaskStatus::Ready {
                Option::Some(id)
            } else {
                scan_ready(tasks, cur, k + 1)
            }
        },
{
}

/// What a scan result means: a `Some` is a `Ready` slot; a `None` rules out
/// every remaining offset.
pub proof fn lemma_scan_props(tasks: Seq<TaskControlBlock>, cur: int, k: int)
    requires
        0 <= cur,
        1 <= k,
        tasks.len() >= 1,
    ensures
        match scan_ready(tasks, cur, k) {
            Option::Some(i) => 0 <= i < tasks.len() && tasks[i].status == TaskStatus::Ready,
            Option::None => forall|j: int|
                k <= j <= tasks.len() ==> tasks[#[trigger] ((cur + j) % (tasks.len() as int))].status
                    != TaskStatus::Ready,
        },
    decreases tasks.len() + 1 - k,
{
    let len = tasks.len() as int;
    if k <= len {
        lemma_scan_props(tasks, cur, k + 1);
        if tasks[(cur + k) % len].status == TaskStatus::Ready {
            vstd::arithmetic::div_mod::lemma_mod_bound(cur + k, len);
        }
    }
}

/// A table with any `Ready` slot yields one to the scan.
pub proof fn lemma_scan_finds(tasks: Seq<TaskControlBlock>, cur: int, i: int)
    requires
        0 <= cur < tasks.len(),
        0 <= i < tasks.len(),
        tasks[i].status == TaskStatus::Ready,
    ensures
        scan_ready(tasks, cur, 1) is Some,
{
    let len = tasks.len() as int;
    lemma_scan_props(tasks, cur, 1);
    if scan_ready(tasks, cur, 1) is None {
        let j = if i > cur {
            i - cur
        } else {
            i - cur + len
        };
        assert(1 <= j <= len);
        if i > cur {
            vstd::arithmetic::div_mod::lemma_small_mod(i as nat, len as nat);
            assert((cur + j) % len == i);
        } else {
            assert(cur + j == len * 1 + i);
            vstd::arithmetic::div_mod::lemma_mod_multiples_vanish(1, i, len);
            vstd::arithmetic::div_mod::lemma_small_mod(i as nat, len as nat);
            assert((cur + j) % len == i);
        }
        assert(tasks[(cur + j) % len].status != TaskStatus::Ready);
    }
}

/// Scan the table for the next `Ready` slot after `cur`, wrapping once: the
/// selection rule of the round-robin scheduler.
fn find_next_in(tasks: &Vec<TaskControlBlock>, cur: usize) -> (r: Option<usize>)
    requires
        1 <= tasks@.len() <= MAX_TASKS,
        cur < tasks@.len(),
    ensures
        match r {
            Some(i) => i < tasks@.len() && Option::Some(i as int) == scan_ready(
                tasks@,
                cur as int,
                1,
            ),
            None => scan_ready(tasks@, cur as int, 1) is None,
        },
{
    let n = tasks.len();
    let mut k: usize = 1;
    while k <= n
        invariant
            1 <= k <= n + 1,
            n == tasks@.len(),
            n <= MAX_TASKS,
            cur < n,
            scan_ready(tasks@, cur as int, 1) == scan_ready(tasks@, cur as int, k as int),
        decreases n + 1 - k,
    {
        let id = (cur + k) % n;
        proof {
            lemma_scan_step(tasks@, cur as int, k as int);
            vstd::arithmetic::div_mod::lemma_mod_bound(cur as int + k as int, n as int);
        }
        if tasks[id].status == TaskStatus::Ready {
            return Some(id);
        }
        k = k + 1;
    }
    None
}

/// Frames needed to build one task per image.
pub open spec fn images_frames(imgs: Seq<AppImage>) -> int
    decreases imgs.len(),
{
    if imgs.len() == 0 {
        0
    } else {
        images_frames(imgs.drop_last()) + crate::task::seg_total(imgs.last().segments@)
            + crate::task::USER_STACK_PAGES + 1
    }
}

pub proof fn lemma_images_frames_nonneg(imgs: Seq<AppImage>)
    ensures
        images_frames(imgs) >= 0,
    decreases imgs.len(),
{
    if imgs.len() > 0 {
        lemma_images_frames_nonneg(imgs.drop_last());
        crate::task::lemma_seg_total_nonneg(imgs.last().segments@);
    }
}

/// Peeling one image off the prefix.
pub proof fn lemma_images_frames_step(imgs: Seq<AppImage>, k: int)
    requires
        0 <= k < imgs.len(),
    ensures
        images_frames(imgs.take(k + 1)) == images_frames(imgs.take(k)) + crate::task::seg_total(
            imgs[k].segments@,
        ) + crate::task::USER_STACK_PAGES + 1,
        images_frames(imgs.take(k + 1)) <= images_frames(imgs),
    decreases imgs.len() - k,
{
    assert(imgs.take(k + 1).drop_last() =~= imgs.take(k));
    assert(imgs.take(k + 1).last() == imgs[k]);
    if k + 1 == imgs.len() {
        assert(imgs.take(k + 1) =~= imgs);
    } else {
        lemma_images_frames_step(imgs, k + 1);
        lemma_images_frames_nonneg(imgs.take(k + 1));
        crate::task::lemma_seg_total_nonneg(imgs[k + 1].segments@);
    }
}

/// Frames used while mapping segments stay below the final cursor.
pub proof fn lemma_build_segs_frames(segs: Seq<crate::task::Segment>, f0: int)
    ensures
        crate::task::build_segs(segs, f0).1 == f0 + crate::task::seg_total(segs),
        crate::task::build_segs(segs, f0).1 >= f0,
        frames_below(crate::task::build_segs(segs, f0).0.table, crate::task::build_segs(segs, f0).1),
    decreases segs.len(),
{
    crate::task::lemma_seg_total_nonneg(segs);
    if segs.len() > 0 {
        lemma_build_segs_frames(segs.drop_last(), f0);
    }
}

/// A freshly built address space uses only frames below the returned cursor.
pub proof fn lemma_build_as_frames(segs: Seq<crate::task::Segment>, f0: int)
    ensures
        crate::task::build_as_apply(segs, f0).2 == f0 + crate::task::seg_total(segs)
            + crate::task::USER_STACK_PAGES + 1,
        crate::task::build_as_apply(segs, f0).2 >= f0,
        frames_below(
            crate::task::build_as_apply(segs, f0).0.table,
            crate::task::build_as_apply(segs, f0).2,
        ),
{
    lemma_build_segs_frames(segs, f0);
}

} // verus!
