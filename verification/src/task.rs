//! Process control blocks: identity, address space, trap context, family
//! links, scheduling metadata, exit status and the program break, together
//! with the construction of a fresh user address space from a loaded image
//! (segments, a guard-separated user stack, an empty heap, a trap-context
//! page).

use vstd::prelude::*;

use crate::mem::MemorySet;
use crate::mem::FrameAlloc;
use crate::mem::MapArea;
use crate::mem::MapPermission;
use crate::mem::MsView;
use crate::mem::PteV;
use crate::mem::PAGE_SIZE;
use crate::mem::MAX_VA;
use crate::mem::area_contains;
use crate::mem::extend_apply;
use crate::mem::find_by_start;
use crate::mem::lemma_div_ceil_bounds;
use crate::mem::lemma_find_by_start_props;
use crate::mem::mmap_apply;
use crate::mem::ms_inv;
use crate::mem::overlaps;
use crate::mem::page_ceil;
use crate::mem::pte_outside;
use crate::mem::range_free;
use crate::mem::shrink_apply;

verus! {

/// Pages of user stack mapped above the guard page.
pub const USER_STACK_PAGES: usize = 2;

/// Virtual page holding the trap context, at the top of user space.
pub const TRAP_CX_VPN: usize = 0x3FFFF;

/// Upper vpn bound for loader-provided image segments, leaving room for the
/// guard page, the stack and the heap base below the trap-context page.
pub const USER_IMAGE_LIMIT_VPN: usize = 0x8000;

/// Number of distinct syscall ids whose invocations are counted per task.
pub const MAX_SYSCALL_NUM: usize = 500;

/// Priority given to every fresh task; `set_priority` accepts values above 1.
pub const DEFAULT_PRIORITY: isize = 16;

/// Lifecycle state of a task: runnable, on the core, or terminated awaiting
/// reaping.
#[derive(Clone, Copy, PartialEq, Eq, Structural, Debug)]
pub enum TaskStatus {
    Ready,
    Running,
    Zombie,
}

/// Saved user-mode register file, overwritten on every trap entry. Register
/// 10 carries the syscall return value back to user mode.
#[verifier::ext_equal]
pub struct TrapContext {
    pub x: Vec<usize>,
}

impl TrapContext {
    /// A trap context is a full register file.
    pub open spec fn wf(self) -> bool {
        self.x@.len() == 32
    }

    /// An all-zero register file, the state of a task that has never run.
    pub fn new_zeroed() -> (r: TrapContext)
        ensures
            r.wf(),
            forall|i: int| 0 <= i < 32 ==> r.x@[i] == 0usize,
    {
        let mut x: Vec<usize> = Vec::new();
        let mut i: usize = 0;
        while i < 32
            invariant
                i <= 32,
                x@.len() == i,
                forall|k: int| 0 <= k < i ==> x@[k] == 0usize,
            decreases 32 - i,
        {
            x.push(0);
            i = i + 1;
        }
        TrapContext { x }
    }

    /// The child's copy of the register file at `fork`: identical but with
    /// the return-value register forced to zero, so the shared syscall return
    /// path yields 0 in the child.
    pub fn forked(&self) -> (r: TrapContext)
        requires
            self.wf(),
        ensures
            r.wf(),
            r.x@ == self.x@.update(10, 0usize),
    {
        let mut x: Vec<usize> = Vec::new();
        let mut i: usize = 0;
        while i < self.x.len()
            invariant
                self.wf(),
                i <= 32,
                self.x@.len() == 32,
                x@.len() == i,
                forall|k: int| 0 <= k < i ==> x@[k] == self.x@.update(10, 0usize)[k],
            decreases 32 - i,
        {
            if i == 10 {
                x.push(0);
            } else {
                x.push(self.x[i]);
            }
            i = i + 1;
        }
        proof {
            assert(x@ =~= self.x@.update(10, 0usize));
        }
        TrapContext { x }
    }
}

/// One loadable segment of an application image: a page range and its
/// permission. Contents are the loader's business; pages start zeroed here.
#[derive(Clone, Copy, PartialEq, Eq, Structural, Debug)]
pub struct Segment {
    pub start_vpn: usize,
    pub n_pages: usize,
    pub perm: MapPermission,
}

/// The VMA a segment maps to.
pub open spec fn seg_area(s: Segment) -> MapArea {
    MapArea {
        start_vpn: s.start_vpn,
        end_vpn: (s.start_vpn + s.n_pages) as usize,
        perm: s.perm,
    }
}

/// A named, loader-validated application image: the segment layout an
/// address space is built from.
#[verifier::ext_equal]
pub struct AppImage {
    pub name: Vec<u8>,
    pub segments: Vec<Segment>,
}

impl AppImage {
    /// Segments are non-empty, lie below the image limit, and are pairwise
    /// disjoint.
    pub open spec fn wf(self) -> bool {
        &&& forall|i: int|
            0 <= i < self.segments@.len() ==> 1 <= (#[trigger] self.segments@[i]).n_pages
                && self.segments@[i].start_vpn + self.segments@[i].n_pages
                <= USER_IMAGE_LIMIT_VPN
        &&& forall|i: int, j: int|
            0 <= i < self.segments@.len() && 0 <= j < self.segments@.len() && i != j ==> !overlaps(
                seg_area(#[trigger] self.segments@[i]),
                seg_area(#[trigger] self.segments@[j]),
            )
    }
}

/// Permission of the user stack and heap: read, write, user.
pub open spec fn stack_perm() -> MapPermission {
    MapPermission { r: true, w: true, x: false, u: true }
}

/// Permission of the trap-context page: kernel read/write only.
pub open spec fn trap_cx_perm() -> MapPermission {
    MapPermission { r: true, w: true, x: false, u: false }
}

/// Total pages over all segments.
pub open spec fn seg_total(segs: Seq<Segment>) -> int
    decreases segs.len(),
{
    if segs.len() == 0 {
        0
    } else {
        seg_total(segs.drop_last()) + segs.last().n_pages
    }
}

/// One past the last vpn any segment touches (0 for no segments).
pub open spec fn image_max_end(segs: Seq<Segment>) -> int
    decreases segs.len(),
{
    if segs.len() == 0 {
        0
    } else {
        let m = image_max_end(segs.drop_last());
        let e = segs.last().start_vpn + segs.last().n_pages;
        if e > m {
            e
        } else {
            m
        }
    }
}

/// The address space after mapping the image segments in order, frames from
/// `f0`, and the frame cursor afterwards.
pub open spec fn build_segs(segs: Seq<Segment>, f0: int) -> (MsView, int)
    decreases segs.len(),
{
    if segs.len() == 0 {
        (MsView { table: Seq::empty(), areas: Seq::empty() }, f0)
    } else {
        let prev = build_segs(segs.drop_last(), f0);
        let s = segs.last();
        (
            mmap_apply(prev.0, s.start_vpn as int, s.start_vpn + s.n_pages, s.perm, prev.1),
            prev.1 + s.n_pages,
        )
    }
}

/// The full fresh address space of an image: its segments, the user stack one
/// guard page above them, an empty heap area at the stack top, and the
/// trap-context page; with the heap bottom address and the frame cursor.
pub open spec fn build_as_apply(segs: Seq<Segment>, f0: int) -> (MsView, int, int) {
    let base = build_segs(segs, f0);
    let ss = image_max_end(segs) + 1;
    let hb_vpn = ss + USER_STACK_PAGES;
    let v1 = mmap_apply(base.0, ss, ss + USER_STACK_PAGES, stack_perm(), base.1);
    let v2 = mmap_apply(v1, hb_vpn, hb_vpn, stack_perm(), base.1 + USER_STACK_PAGES);
    let v3 = mmap_apply(
        v2,
        TRAP_CX_VPN as int,
        TRAP_CX_VPN + 1,
        trap_cx_perm(),
        base.1 + USER_STACK_PAGES,
    );
    (v3, hb_vpn * PAGE_SIZE, base.1 + USER_STACK_PAGES + 1)
}

/// The kernel's per-process record.
#[verifier::ext_equal]
pub struct TaskControlBlock {
    pub pid: usize,
    pub status: TaskStatus,
    pub memory_set: MemorySet,
    pub trap_cx: TrapContext,
    pub parent: Option<usize>,
    pub children: Vec<usize>,
    pub exit_code: i32,
    pub alive: bool,
    pub priority: isize,
    pub syscall_times: Vec<u32>,
    pub start_time: usize,
    pub heap_bottom: usize,
    pub program_brk: usize,
}

impl TaskControlBlock {
    /// Per-task invariant: a well-formed address space, a full register file,
    /// one counter per syscall id, a sane priority, and an aligned heap base
    /// below the break, which stays within the address bound.
    pub open spec fn wf(self) -> bool {
        &&& self.memory_set.wf()
        &&& self.trap_cx.wf()
        &&& self.syscall_times@.len() == MAX_SYSCALL_NUM
        &&& self.priority >= 2
        &&& self.heap_bottom % PAGE_SIZE == 0
        &&& self.heap_bottom <= self.program_brk
        &&& self.program_brk <= MAX_VA
    }

    /// The heap area, located by its start vpn as `sbrk` finds it.
    pub open spec fn heap_idx(self) -> Option<int> {
        find_by_start(self.memory_set@.areas, self.heap_bottom as int / (PAGE_SIZE as int))
    }

    /// `sbrk(size)` succeeds: the new break stays at or above the heap base
    /// and the heap area still exists.
    pub open spec fn sbrk_ok(self, size: int) -> bool {
        &&& self.program_brk + size >= self.heap_bottom
        &&& self.heap_idx() is Some
    }

    /// Growth stays clear of other mappings: what the page-table map
    /// operation demands of a successful `sbrk`.
    pub open spec fn sbrk_safe(self, size: int) -> bool {
        self.sbrk_ok(size) ==> {
            let i = self.heap_idx()->Some_0;
            let cur_end = self.memory_set@.areas[i].end_vpn as int;
            let ne = page_ceil(self.program_brk + size);
            ne >= cur_end ==> range_free(self.memory_set@.table, cur_end, ne)
        }
    }

    /// Grow or shrink the heap by `size` bytes. Returns the previous break on
    /// success; `None` when the change would drop below the heap base or the
    /// heap area is gone. On success the heap area's end moves to the page
    /// covering the new break, mapping fresh zero pages or unmapping dropped
    /// ones.
    pub fn change_program_brk(&mut self, size: i32, fa: &mut FrameAlloc) -> (r: Option<usize>)
        requires
            old(self).wf(),
            old(self).program_brk + size <= MAX_VA,
            old(self).sbrk_safe(size as int),
            old(fa).next + page_ceil(old(self).program_brk + size) <= usize::MAX,
        ensures
            final(self).wf(),
            (r is Some) == old(self).sbrk_ok(size as int),
            r is None ==> *final(self) == *old(self) && *final(fa) == *old(fa),
            r is Some ==> {
                &&& r == Option::Some(old(self).program_brk)
                &&& final(self).program_brk == old(self).program_brk + size
                &&& (final(self).memory_set@, final(self).program_brk as int) == sbrk_apply(
                    old(self).memory_set@,
                    old(self).heap_bottom as int,
                    old(self).program_brk as int,
                    size as int,
                    old(fa).next as int,
                )
                &&& final(fa).next as int == sbrk_frames(
                    old(self).memory_set@,
                    old(self).heap_bottom as int,
                    old(self).program_brk as int,
                    size as int,
                    old(fa).next as int,
                )
                &&& final(self).heap_bottom == old(self).heap_bottom
                &&& final(self).pid == old(self).pid
                &&& final(self).status == old(self).status
                &&& final(self).trap_cx == old(self).trap_cx
                &&& final(self).parent == old(self).parent
                &&& final(self).children == old(self).children
                &&& final(self).exit_code == old(self).exit_code
                &&& final(self).alive == old(self).alive
                &&& final(self).priority == old(self).priority
                &&& final(self).syscall_times == old(self).syscall_times
                &&& final(self).start_time == old(self).start_time
            },
    {
        let hb_vpn = self.heap_bottom / PAGE_SIZE;
        let idx_opt = self.memory_set.find_area_by_start(hb_vpn);
        if idx_opt.is_none() {
            return None;
        }
        let idx = idx_opt.unwrap();
        proof {
            lemma_find_by_start_props(self.memory_set@.areas, hb_vpn as int);
        }
        let nb_i: i64 = self.program_brk as i64 + size as i64;
        if nb_i < self.heap_bottom as i64 {
            return None;
        }
        let nb = nb_i as usize;
        let cur_end = self.memory_set.area_end(idx);
        let ne = (nb + PAGE_SIZE - 1) / PAGE_SIZE;
        proof {
            lemma_div_ceil_bounds(self.heap_bottom as int, nb as int);
        }
        if ne >= cur_end {
            self.memory_set.append_area(idx, ne, fa);
        } else {
            self.memory_set.shrink_area(idx, ne);
        }
        let old_brk = self.program_brk;
        self.program_brk = nb;
        Some(old_brk)
    }
}

/// Segment page counts are never negative.
pub proof fn lemma_seg_total_nonneg(segs: Seq<Segment>)
    ensures
        seg_total(segs) >= 0,
    decreases segs.len(),
{
    if segs.len() > 0 {
        lemma_seg_total_nonneg(segs.drop_last());
    }
}

/// A prefix of the segments covers at most the whole image's pages.
pub proof fn lemma_seg_total_prefix(segs: Seq<Segment>, k: int)
    requires
        0 <= k <= segs.len(),
    ensures
        seg_total(segs.take(k)) <= seg_total(segs),
    decreases segs.len() - k,
{
    if k == segs.len() {
        assert(segs.take(k) =~= segs);
    } else {
        lemma_seg_total_prefix(segs, k + 1);
        assert(segs.take(k + 1).drop_last() =~= segs.take(k));
        assert(segs.take(k + 1).last() == segs[k]);
    }
}

/// Fresh counters: one zero per syscall id.
pub fn make_zero_counts() -> (r: Vec<u32>)
    ensures
        r@.len() == MAX_SYSCALL_NUM,
        forall|i: int| 0 <= i < MAX_SYSCALL_NUM ==> r@[i] == 0u32,
{
    let mut v: Vec<u32> = Vec::new();
    let mut i: usize = 0;
    while i < MAX_SYSCALL_NUM
        invariant
            i <= MAX_SYSCALL_NUM,
            v@.len() == i,
            forall|k: int| 0 <= k < i ==> v@[k] == 0u32,
        decreases MAX_SYSCALL_NUM - i,
    {
        v.push(0);
        i = i + 1;
    }
    v
}

/// Build a fresh user address space from an image: its segments, a user
/// stack one guard page above the highest segment, an empty heap area at the
/// stack top, and the trap-context page. Returns the space and the heap
/// bottom address.
pub fn build_user_space(img: &AppImage, fa: &mut FrameAlloc) -> (r: (MemorySet, usize))
    requires
        img.wf(),
        old(fa).next + seg_total(img.segments@) + USER_STACK_PAGES + 1 <= usize::MAX,
    ensures
        r.0.wf(),
        ({
            let b = build_as_apply(img.segments@, old(fa).next as int);
            &&& r.0@ == b.0
            &&& r.1 == b.1
            &&& final(fa).next == b.2
        }),
        r.1 % PAGE_SIZE == 0,
        r.1 <= MAX_VA,
        r.1 as int / (PAGE_SIZE as int) == image_max_end(img.segments@) + 1 + USER_STACK_PAGES,
        find_by_start(r.0@.areas, r.1 as int / (PAGE_SIZE as int)) == Option::Some(
            img.segments@.len() as int + 1,
        ),
        r.0@.areas[img.segments@.len() as int + 1] == (MapArea {
            start_vpn: (r.1 / PAGE_SIZE) as usize,
            end_vpn: (r.1 / PAGE_SIZE) as usize,
            perm: stack_perm(),
        }),
{
    let ghost f0 = fa.next as int;
    let ghost segs = img.segments@;
    let mut ms = MemorySet::new();
    let mut max_end: usize = 0;
    let mut k: usize = 0;
    proof {
        lemma_seg_total_nonneg(segs);
        assert(segs.take(0) =~= Seq::<Segment>::empty());
    }
    while k < img.segments.len()
        invariant
            img.wf(),
            segs == img.segments@,
            f0 == old(fa).next as int,
            f0 + seg_total(segs) + USER_STACK_PAGES + 1 <= usize::MAX,
            k <= segs.len(),
            ms.wf(),
            (ms@, fa.next as int) == build_segs(segs.take(k as int), f0),
            fa.next as int == f0 + seg_total(segs.take(k as int)),
            max_end as int == image_max_end(segs.take(k as int)),
            max_end <= USER_IMAGE_LIMIT_VPN,
            ms@.areas.len() == k,
            forall|j: int| 0 <= j < k ==> ms@.areas[j] == seg_area(segs[j]),
        decreases segs.len() - k,
    {
        let s = img.segments[k];
        let s_end = s.start_vpn + s.n_pages;
        proof {
            assert(s == segs[k as int]);
            assert(segs.take(k as int + 1).drop_last() =~= segs.take(k as int));
            assert(segs.take(k as int + 1).last() == segs[k as int]);
            lemma_seg_total_prefix(segs, k as int + 1);
            lemma_seg_total_nonneg(segs.take(k as int));
            // the segment's range is still unmapped: every mapped page lies
            // in an earlier, disjoint segment
            assert forall|i: int| 0 <= i < ms@.table.len() implies pte_outside(
                #[trigger] ms@.table[i],
                s.start_vpn as int,
                s.start_vpn + s.n_pages,
            ) by {
                assert(crate::mem::covered(ms@, ms@.table[i].vpn));
                let j = choose|j: int|
                    0 <= j < ms@.areas.len() && area_contains(
                        #[trigger] ms@.areas[j],
                        ms@.table[i].vpn,
                    );
                assert(ms@.areas[j] == seg_area(segs[j]));
                if s.start_vpn <= ms@.table[i].vpn < s.start_vpn + s.n_pages {
                    assert(overlaps(seg_area(segs[j]), seg_area(segs[k as int])));
                }
            }
        }
        ms.insert_framed_area(s.start_vpn, s_end, s.perm, fa);
        if s_end > max_end {
            max_end = s_end;
        }
        k = k + 1;
    }
    proof {
        assert(segs.take(segs.len() as int) =~= segs);
    }
    let ss = max_end + 1;
    let hb_vpn = ss + USER_STACK_PAGES;
    let sp = MapPermission { r: true, w: true, x: false, u: true };
    let tp = MapPermission { r: true, w: true, x: false, u: false };
    let ghost before_stack = ms@;
    proof {
        // everything mapped so far lies below the guard page
        assert forall|i: int| 0 <= i < ms@.table.len() implies pte_outside(
            #[trigger] ms@.table[i],
            ss as int,
            hb_vpn as int,
        ) by {
            assert(crate::mem::covered(ms@, ms@.table[i].vpn));
            let j = choose|j: int|
                0 <= j < ms@.areas.len() && area_contains(
                    #[trigger] ms@.areas[j],
                    ms@.table[i].vpn,
                );
            assert(ms@.areas[j] == seg_area(segs[j]));
            assert(segs[j].start_vpn + segs[j].n_pages <= max_end as int) by {
                lemma_image_max_end_covers(segs, j);
            }
        }
    }
    ms.insert_framed_area(ss, hb_vpn, sp, fa);
    ms.insert_framed_area(hb_vpn, hb_vpn, sp, fa);
    proof {
        // everything mapped so far lies below the trap-context page
        assert forall|i: int| 0 <= i < ms@.table.len() implies pte_outside(
            #[trigger] ms@.table[i],
            TRAP_CX_VPN as int,
            TRAP_CX_VPN + 1,
        ) by {
            assert(crate::mem::covered(ms@, ms@.table[i].vpn));
            let j = choose|j: int|
                0 <= j < ms@.areas.len() && area_contains(
                    #[trigger] ms@.areas[j],
                    ms@.table[i].vpn,
                );
            if j < segs.len() {
                assert(ms@.areas[j] == seg_area(segs[j]));
            }
        }
    }
    ms.insert_framed_area(TRAP_CX_VPN, TRAP_CX_VPN + 1, tp, fa);
    let hb = hb_vpn * PAGE_SIZE;
    proof {
        crate::mem::lemma_page_ceil_aligned(hb_vpn as int);
        // the heap area is the first (and only) area starting at its vpn
        let ars = ms@.areas;
        let n = segs.len() as int;
        assert(ars.len() == n + 3);
        assert(ars[n + 1] == MapArea { start_vpn: hb_vpn, end_vpn: hb_vpn, perm: sp });
        lemma_find_by_start_props(ars, hb_vpn as int);
        match find_by_start(ars, hb_vpn as int) {
            Option::Some(i) => {
                if i < n {
                    assert(ars[i] == seg_area(segs[i]));
                    assert(segs[i].start_vpn + segs[i].n_pages <= max_end as int) by {
                        lemma_image_max_end_covers(segs, i);
                    }
                    assert(segs[i].n_pages >= 1);
                    assert(false);
                } else if i == n {
                    assert(ars[n].start_vpn == ss);
                    assert(false);
                } else if i > n + 1 {
                    assert(ars[n + 1].start_vpn == hb_vpn);
                    assert(false);
                }
            },
            Option::None => {
                assert(ars[n + 1].start_vpn == hb_vpn);
                assert(false);
            },
        }
    }
    (ms, hb)
}

/// Every segment ends at or below the image's maximum end.
pub proof fn lemma_image_max_end_covers(segs: Seq<Segment>, j: int)
    requires
        0 <= j < segs.len(),
    ensures
        segs[j].start_vpn + segs[j].n_pages <= image_max_end(segs),
    decreases segs.len(),
{
    if j == segs.len() - 1 {
        assert(segs.last() == segs[j]);
    } else {
        lemma_image_max_end_covers(segs.drop_last(), j);
        assert(segs.drop_last()[j] == segs[j]);
    }
}

impl TaskControlBlock {
    /// A fresh task built from a loader image: a new address space, a zeroed
    /// trap context, status `Ready`, default priority, zero syscall counters,
    /// no family links, and the program break at the heap bottom.
    pub fn new(pid: usize, img: &AppImage, fa: &mut FrameAlloc) -> (r: TaskControlBlock)
        requires
            img.wf(),
            old(fa).next + seg_total(img.segments@) + USER_STACK_PAGES + 1 <= usize::MAX,
        ensures
            r.wf(),
            r.pid == pid,
            r.status == TaskStatus::Ready,
            r.alive,
            r.parent is None,
            r.children@ =~= Seq::<usize>::empty(),
            r.exit_code == 0,
            r.priority == DEFAULT_PRIORITY,
            r.start_time == 0,
            forall|i: int| 0 <= i < MAX_SYSCALL_NUM ==> r.syscall_times@[i] == 0u32,
            forall|i: int| 0 <= i < 32 ==> r.trap_cx.x@[i] == 0usize,
            ({
                let b = build_as_apply(img.segments@, old(fa).next as int);
                &&& r.memory_set@ == b.0
                &&& r.heap_bottom == b.1
                &&& r.program_brk == b.1
                &&& final(fa).next == b.2
            }),
            r.heap_idx() == Option::Some(img.segments@.len() as int + 1),
            r.memory_set@.areas[img.segments@.len() as int + 1].end_vpn as int == page_ceil(
                r.program_brk as int,
            ),
    {
        let built = build_user_space(img, fa);
        let ms = built.0;
        let hb = built.1;
        proof {
            crate::mem::lemma_page_ceil_aligned(hb as int / (PAGE_SIZE as int));
        }
        TaskControlBlock {
            pid,
            status: TaskStatus::Ready,
            memory_set: ms,
            trap_cx: TrapContext::new_zeroed(),
            parent: None,
            children: Vec::new(),
            exit_code: 0,
            alive: true,
            priority: DEFAULT_PRIORITY,
            syscall_times: make_zero_counts(),
            start_time: 0,
            heap_bottom: hb,
            program_brk: hb,
        }
    }
}

/// Replacing an area with one of the same start leaves the first-start scan
/// unchanged.
pub proof fn lemma_find_by_start_update(areas: Seq<MapArea>, idx: int, a: MapArea, s: int)
    requires
        0 <= idx < areas.len(),
        a.start_vpn == areas[idx].start_vpn,
    ensures
        find_by_start(areas.update(idx, a), s) == find_by_start(areas, s),
    decreases areas.len(),
{
    let u = areas.update(idx, a);
    if idx == 0 {
        if areas[0].start_vpn != s {
            assert(u.drop_first() =~= areas.drop_first());
        }
    } else {
        assert(u[0] == areas[0]);
        if areas[0].start_vpn != s {
            assert(u.drop_first() =~= areas.drop_first().update(idx - 1, a));
            lemma_find_by_start_update(areas.drop_first(), idx - 1, a, s);
        }
    }
}

/// The `sbrk` round trip: growing the heap by `d` bytes returns the old
/// break, and immediately shrinking by the same amount returns the grown
/// break while restoring the break, the heap area and the whole page-table
/// mapping state to what they were before the growth.
pub proof fn lemma_sbrk_round_trip(ms: MsView, hb: int, brk: int, d: int, idx: int, f0: int, f1: int)
    requires
        ms_inv(ms),
        0 <= hb,
        hb <= brk,
        0 <= d,
        find_by_start(ms.areas, hb / (PAGE_SIZE as int)) == Option::Some(idx),
        ms.areas[idx].end_vpn as int == page_ceil(brk),
        page_ceil(brk + d) <= usize::MAX,
        range_free(ms.table, page_ceil(brk), page_ceil(brk + d)),
    ensures
        sbrk_apply(ms, hb, brk, d, f0).1 == brk + d,
        ({
            let v1 = sbrk_apply(ms, hb, brk, d, f0).0;
            &&& find_by_start(v1.areas, hb / (PAGE_SIZE as int)) == Option::Some(idx)
            &&& sbrk_apply(v1, hb, brk + d, -d, f1).0 == ms
            &&& sbrk_apply(v1, hb, brk + d, -d, f1).1 == brk
        }),
{
    let ps = PAGE_SIZE as int;
    lemma_find_by_start_props(ms.areas, hb / ps);
    let a = ms.areas[idx];
    let cur_end = a.end_vpn as int;
    let ne1 = page_ceil(brk + d);
    vstd::arithmetic::div_mod::lemma_div_is_ordered(brk + PAGE_SIZE - 1, brk + d + PAGE_SIZE - 1, ps);
    assert(cur_end <= ne1);
    let v1 = sbrk_apply(ms, hb, brk, d, f0).0;
    let a1 = MapArea { start_vpn: a.start_vpn, end_vpn: ne1 as usize, perm: a.perm };
    assert(v1 == extend_apply(ms, idx, ne1, f0));
    assert(v1.areas == ms.areas.update(idx, a1));
    lemma_find_by_start_update(ms.areas, idx, a1, hb / ps);
    // shrinking back removes exactly the freshly mapped pages
    let ne2 = page_ceil(brk + d + (-d));
    assert(ne2 == page_ceil(brk));
    let v2 = sbrk_apply(v1, hb, brk + d, -d, f1).0;
    if ne2 >= ne1 {
        // the growth never left the page of the old break
        assert(ne1 == ne2);
        assert(crate::mem::fresh_pages(cur_end, ne1, a.perm, f0) =~= Seq::<PteV>::empty());
        assert(v1.table =~= ms.table);
        assert(v1.areas[idx].end_vpn as int == ne1);
        assert(v2 == extend_apply(v1, idx, ne2, f1));
        assert(crate::mem::fresh_pages(ne1, ne2, a.perm, f1) =~= Seq::<PteV>::empty());
        assert(v2.table =~= ms.table);
        assert(v2.areas =~= ms.areas);
        assert(v2 =~= ms);
    } else {
        assert(v2 == shrink_apply(v1, idx, ne2));
        crate::mem::lemma_remove_range_concat(
            ms.table,
            crate::mem::fresh_pages(cur_end, ne1, a.perm, f0),
            ne2,
            ne1,
        );
        crate::mem::lemma_remove_range_all_outside(ms.table, ne2, ne1);
        crate::mem::lemma_remove_range_all_inside(
            crate::mem::fresh_pages(cur_end, ne1, a.perm, f0),
            ne2,
            ne1,
        );
        assert(v2.table =~= ms.table);
        assert(v2.areas =~= ms.areas);
        assert(v2 =~= ms);
    }
}

/// The frame cursor after a successful `sbrk`: advanced by the pages a
/// growth mapped, untouched by a shrink.
pub open spec fn sbrk_frames(ms: MsView, heap_bottom: int, brk: int, size: int, f0: int) -> int {
    let nb = brk + size;
    let i = find_by_start(ms.areas, heap_bottom / (PAGE_SIZE as int))->Some_0;
    let cur_end = ms.areas[i].end_vpn as int;
    let ne = page_ceil(nb);
    if ne >= cur_end {
        f0 + (ne - cur_end)
    } else {
        f0
    }
}

/// The state `sbrk` leaves behind on success: the heap area's end moves to
/// the page covering the new break (growing onto fresh frames or unmapping
/// the dropped tail), and the break itself moves by `size`.
pub open spec fn sbrk_apply(ms: MsView, heap_bottom: int, brk: int, size: int, f0: int) -> (
    MsView,
    int,
) {
    let nb = brk + size;
    let i = find_by_start(ms.areas, heap_bottom / (PAGE_SIZE as int))->Some_0;
    let cur_end = ms.areas[i].end_vpn as int;
    let ne = page_ceil(nb);
    if ne >= cur_end {
        (extend_apply(ms, i, ne, f0), nb)
    } else {
        (shrink_apply(ms, i, ne), nb)
    }
}

} // verus!
