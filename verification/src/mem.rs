//! Address-space model: virtual memory areas (VMAs) over a page-table model.
//!
//! A `MemorySet` owns a page table (a list of entries, one per mapped virtual
//! page, each backed by its own physical frame and carrying the page's bytes)
//! and a list of VMAs. The invariant `wf` keeps the two in sync: every mapped
//! page lies in exactly one VMA, every VMA page is mapped, and permissions
//! agree.

use vstd::prelude::*;

verus! {

/// Bytes per virtual page.
pub const PAGE_SIZE: usize = 4096;

/// Upper bound on user virtual addresses the model accepts (a machine limit
/// that keeps address arithmetic free of overflow).
pub const MAX_VA: usize = 0x4000_0000;

/// Permission bits of a mapping: readable, writable, executable,
/// user-accessible.
#[derive(Clone, Copy, PartialEq, Eq, Structural, Debug)]
pub struct MapPermission {
    pub r: bool,
    pub w: bool,
    pub x: bool,
    pub u: bool,
}

/// A contiguous half-open range of virtual page numbers with one permission
/// set, the record of one `mmap`/loader/heap mapping.
#[derive(Clone, Copy, PartialEq, Eq, Structural, Debug)]
pub struct MapArea {
    pub start_vpn: usize,
    pub end_vpn: usize,
    pub perm: MapPermission,
}

/// One page-table entry: a mapped virtual page, its backing frame, its
/// permission, and the page's bytes.
#[verifier::ext_equal]
pub struct PtEntry {
    pub vpn: usize,
    pub frame: usize,
    pub perm: MapPermission,
    pub data: Vec<u8>,
}

/// Mathematical image of a page-table entry.
#[verifier::ext_equal]
pub ghost struct PteV {
    pub vpn: int,
    pub frame: int,
    pub perm: MapPermission,
    pub data: Seq<u8>,
}

impl View for PtEntry {
    type V = PteV;

    open spec fn view(&self) -> PteV {
        PteV { vpn: self.vpn as int, frame: self.frame as int, perm: self.perm, data: self.data@ }
    }
}

/// Mathematical image of an address space: the page table and the VMA list.
#[verifier::ext_equal]
pub ghost struct MsView {
    pub table: Seq<PteV>,
    pub areas: Seq<MapArea>,
}

/// The monotone physical-frame allocator: `next` is the first frame number
/// not yet handed out, so frames from different allocations never alias.
#[verifier::ext_equal]
pub struct FrameAlloc {
    pub next: usize,
}

impl FrameAlloc {
    pub fn new() -> (r: FrameAlloc)
        ensures
            r.next == 0,
    {
        FrameAlloc { next: 0 }
    }

    pub fn alloc_frame(&mut self) -> (r: usize)
        requires
            old(self).next < usize::MAX,
        ensures
            r == old(self).next,
            final(self).next == old(self).next + 1,
    {
        let f = self.next;
        self.next = self.next + 1;
        f
    }
}

/// The number of whole pages covering addresses `[0, a)`: `a` rounded up to a
/// page boundary, in pages.
pub open spec fn page_ceil(a: int) -> int {
    (a + PAGE_SIZE - 1) / (PAGE_SIZE as int)
}

/// Division by the page size preserves order: the page of an address at or
/// below `nb` lies at or below the page covering `nb`.
pub proof fn lemma_div_ceil_bounds(hb: int, nb: int)
    requires
        0 <= hb,
        hb <= nb,
    ensures
        hb / (PAGE_SIZE as int) <= page_ceil(nb),
{
    vstd::arithmetic::div_mod::lemma_div_is_ordered(hb, nb + PAGE_SIZE - 1, PAGE_SIZE as int);
}

/// A page-aligned address is covered by exactly its page count.
pub proof fn lemma_page_ceil_aligned(x: int)
    requires
        0 <= x,
    ensures
        page_ceil(x * PAGE_SIZE) == x,
        (x * PAGE_SIZE) % (PAGE_SIZE as int) == 0,
        (x * PAGE_SIZE) / (PAGE_SIZE as int) == x,
{
    vstd::arithmetic::div_mod::lemma_fundamental_div_mod_converse(
        x * PAGE_SIZE + PAGE_SIZE - 1,
        PAGE_SIZE as int,
        x,
        (PAGE_SIZE - 1) as int,
    );
    vstd::arithmetic::div_mod::lemma_fundamental_div_mod_converse(
        x * PAGE_SIZE,
        PAGE_SIZE as int,
        x,
        0,
    );
}

/// The page of all-zero bytes, the contents of a freshly framed page.
pub open spec fn zero_page() -> Seq<u8> {
    Seq::new(PAGE_SIZE as nat, |i: int| 0u8)
}

/// The entries a framed insertion over `[s, e)` adds: one page per vpn, frames
/// numbered consecutively from `f0`, zero-filled.
pub open spec fn fresh_pages(s: int, e: int, perm: MapPermission, f0: int) -> Seq<PteV> {
    Seq::new((e - s) as nat, |i: int| PteV { vpn: s + i, frame: f0 + i, perm, data: zero_page() })
}

/// The page lies outside the vpn range `[s, e)`.
pub open spec fn pte_outside(p: PteV, s: int, e: int) -> bool {
    p.vpn < s || p.vpn >= e
}

/// No page of `t` lies in the vpn range `[s, e)`.
pub open spec fn range_free(t: Seq<PteV>, s: int, e: int) -> bool {
    forall|i: int| 0 <= i < t.len() ==> pte_outside(#[trigger] t[i], s, e)
}

/// Some entry of `t` maps `vpn`.
pub open spec fn vpn_mapped(t: Seq<PteV>, vpn: int) -> bool {
    exists|i: int| 0 <= i < t.len() && (#[trigger] t[i]).vpn == vpn
}

/// The index of the entry mapping `vpn` (unique under `ms_inv`).
pub open spec fn idx_of(t: Seq<PteV>, vpn: int) -> int {
    choose|i: int| 0 <= i < t.len() && (#[trigger] t[i]).vpn == vpn
}

/// The entry mapping `vpn`.
pub open spec fn page_at(t: Seq<PteV>, vpn: int) -> PteV {
    t[idx_of(t, vpn)]
}

/// `vpn` lies inside area `a`.
pub open spec fn area_contains(a: MapArea, vpn: int) -> bool {
    a.start_vpn <= vpn < a.end_vpn
}

/// No two distinct entries map the same vpn.
pub open spec fn vpns_unique(t: Seq<PteV>) -> bool {
    forall|i: int, j: int|
        0 <= i < t.len() && 0 <= j < t.len() && i != j ==> (#[trigger] t[i]).vpn != (
        #[trigger] t[j]).vpn
}

/// The two areas share at least one vpn (an empty area overlaps nothing).
pub open spec fn overlaps(a: MapArea, b: MapArea) -> bool {
    let lo = if a.start_vpn >= b.start_vpn {
        a.start_vpn as int
    } else {
        b.start_vpn as int
    };
    let hi = if a.end_vpn <= b.end_vpn {
        a.end_vpn as int
    } else {
        b.end_vpn as int
    };
    lo < hi
}

/// Distinct areas occupy disjoint vpn ranges.
pub open spec fn areas_disjoint(a: Seq<MapArea>) -> bool {
    forall|i: int, j: int|
        0 <= i < a.len() && 0 <= j < a.len() && i != j ==> !overlaps(
            #[trigger] a[i],
            #[trigger] a[j],
        )
}

/// Some area of `v` contains `vpn`.
pub open spec fn covered(v: MsView, vpn: int) -> bool {
    exists|j: int| 0 <= j < v.areas.len() && area_contains(#[trigger] v.areas[j], vpn)
}

/// Well-formedness of an address space: page data is page-sized, vpns are
/// unique, areas are ordered ranges and pairwise disjoint, every mapped page
/// lies in an area with the same permission, and every area page is mapped.
pub open spec fn ms_inv(v: MsView) -> bool {
    &&& vpns_unique(v.table)
    &&& forall|i: int| 0 <= i < v.table.len() ==> (#[trigger] v.table[i]).data.len() == PAGE_SIZE
    &&& forall|i: int|
        0 <= i < v.areas.len() ==> (#[trigger] v.areas[i]).start_vpn <= v.areas[i].end_vpn
    &&& areas_disjoint(v.areas)
    &&& forall|i: int| 0 <= i < v.table.len() ==> covered(v, (#[trigger] v.table[i]).vpn)
    &&& forall|j: int, vp: int|
        0 <= j < v.areas.len() && #[trigger] area_contains(v.areas[j], vp) ==> vpn_mapped(
            v.table,
            vp,
        )
    &&& forall|i: int, j: int|
        0 <= i < v.table.len() && 0 <= j < v.areas.len() && area_contains(
            #[trigger] v.areas[j],
            (#[trigger] v.table[i]).vpn,
        ) ==> v.table[i].perm == v.areas[j].perm
}

/// All frames of `t` lie below `b` (below the allocator's next frame).
pub open spec fn frames_below(t: Seq<PteV>, b: int) -> bool {
    forall|i: int| 0 <= i < t.len() ==> (#[trigger] t[i]).frame < b
}

/// An address space: the page-table model plus the VMA list.
#[verifier::ext_equal]
pub struct MemorySet {
    pub table: Vec<PtEntry>,
    pub areas: Vec<MapArea>,
}

impl View for MemorySet {
    type V = MsView;

    open spec fn view(&self) -> MsView {
        MsView { table: self.table@.map_values(|p: PtEntry| p@), areas: self.areas@ }
    }
}

impl MemorySet {
    /// The structural invariant tying VMAs and page table together.
    pub open spec fn wf(self) -> bool {
        ms_inv(self@)
    }

    pub fn new() -> (r: MemorySet)
        ensures
            r.wf(),
            r@.table =~= Seq::<PteV>::empty(),
            r@.areas =~= Seq::<MapArea>::empty(),
    {
        MemorySet { table: Vec::new(), areas: Vec::new() }
    }

    /// The vpn of table entry `i`.
    fn entry_vpn(&self, i: usize) -> (r: usize)
        requires
            i < self@.table.len(),
        ensures
            r as int == self@.table[i as int].vpn,
    {
        self.table[i].vpn
    }

    /// The bounds of area `k`.
    fn area_bounds(&self, k: usize) -> (r: (usize, usize))
        requires
            k < self@.areas.len(),
        ensures
            r.0 == self@.areas[k as int].start_vpn,
            r.1 == self@.areas[k as int].end_vpn,
    {
        (self.areas[k].start_vpn, self.areas[k].end_vpn)
    }

    /// Index of the entry mapping `vpn`, if any: the point query behind
    /// `translate` and the byte accessors.
    pub fn find_pte(&self, vpn: usize) -> (r: Option<usize>)
        ensures
            match r {
                Some(i) => i < self@.table.len() && self@.table[i as int].vpn == vpn as int,
                None => !vpn_mapped(self@.table, vpn as int),
            },
    {
        let mut i: usize = 0;
        while i < self.table.len()
            invariant
                i <= self@.table.len(),
                self@.table.len() == self.table.len(),
                forall|k: int| 0 <= k < i ==> (#[trigger] self@.table[k]).vpn != vpn as int,
            decreases self.table.len() - i,
        {
            if self.table[i].vpn == vpn {
                return Some(i);
            }
            i = i + 1;
        }
        None
    }

    /// Point translation of a virtual page: its permission if mapped, else
    /// `None` (the "unmapped" answer used to detect conflicts).
    pub fn translate(&self, vpn: usize) -> (r: Option<MapPermission>)
        requires
            self.wf(),
        ensures
            r.is_some() == vpn_mapped(self@.table, vpn as int),
            r.is_some() ==> r->Some_0 == page_at(self@.table, vpn as int).perm,
    {
        match self.find_pte(vpn) {
            Some(i) => {
                proof {
                    lemma_idx_of_unique(self@.table, vpn as int, i as int);
                }
                Some(self.table[i].perm)
            },
            None => None,
        }
    }

    /// Whether any page in `[start_vpn, end_vpn)` is already mapped: the
    /// overlap test run before an insertion.
    pub fn any_mapped_in(&self, start_vpn: usize, end_vpn: usize) -> (r: bool)
        ensures
            r == !range_free(self@.table, start_vpn as int, end_vpn as int),
    {
        let mut vpn: usize = start_vpn;
        while vpn < end_vpn
            invariant
                start_vpn <= vpn,
                vpn <= end_vpn || vpn == start_vpn,
                forall|i: int|
                    0 <= i < self@.table.len() ==> (#[trigger] self@.table[i]).vpn < start_vpn
                        || self@.table[i].vpn >= end_vpn || self@.table[i].vpn >= vpn,
            decreases end_vpn - vpn,
        {
            if self.find_pte(vpn).is_some() {
                return true;
            }
            vpn = vpn + 1;
        }
        false
    }

    /// Insert a framed VMA over `[start_vpn, end_vpn)`: allocate one frame per
    /// page, install zero-filled page-table entries with `perm`, and append
    /// the VMA record. The caller has checked the range free.
    pub fn insert_framed_area(
        &mut self,
        start_vpn: usize,
        end_vpn: usize,
        perm: MapPermission,
        fa: &mut FrameAlloc,
    )
        requires
            old(self).wf(),
            start_vpn <= end_vpn,
            range_free(old(self)@.table, start_vpn as int, end_vpn as int),
            old(fa).next + (end_vpn - start_vpn) <= usize::MAX,
        ensures
            final(self).wf(),
            final(self)@ == mmap_apply(
                old(self)@,
                start_vpn as int,
                end_vpn as int,
                perm,
                old(fa).next as int,
            ),
            final(fa).next == old(fa).next + (end_vpn - start_vpn),
    {
        let ghost orig = self@;
        let ghost f0 = fa.next as int;
        self.areas.push(MapArea { start_vpn, end_vpn, perm });
        let mut vpn: usize = start_vpn;
        while vpn < end_vpn
            invariant
                start_vpn <= vpn <= end_vpn || (vpn == start_vpn && start_vpn == end_vpn),
                fa.next == f0 + (vpn - start_vpn),
                fa.next + (end_vpn - vpn) <= usize::MAX,
                self@.table =~= orig.table + fresh_pages(start_vpn as int, vpn as int, perm, f0),
                self@.areas == orig.areas.push(MapArea { start_vpn, end_vpn, perm }),
            decreases end_vpn - vpn,
        {
            let frame = fa.alloc_frame();
            let data = make_zero_page();
            let ghost tab_before = self@.table;
            let pte = PtEntry { vpn, frame, perm, data };
            let ghost pv = pte@;
            self.table.push(pte);
            proof {
                assert(self@.table =~= tab_before.push(pv));
                let grown = fresh_pages(start_vpn as int, vpn as int + 1, perm, f0);
                assert(pv == grown[vpn - start_vpn]);
                assert(self@.table =~= orig.table + grown);
            }
            vpn = vpn + 1;
        }
        proof {
            let newv = mmap_apply(orig, start_vpn as int, end_vpn as int, perm, f0);
            assert(self@ =~= newv);
            lemma_mmap_apply_wf(orig, start_vpn as int, end_vpn as int, perm, f0);
        }
    }

    /// Clear every page-table entry in `[start_vpn, end_vpn)`, releasing the
    /// backing frames. The VMA list is untouched; callers remove the record.
    fn unmap_range(&mut self, start_vpn: usize, end_vpn: usize)
        ensures
            final(self)@.table == remove_range(
                old(self)@.table,
                start_vpn as int,
                end_vpn as int,
            ),
            final(self)@.areas == old(self)@.areas,
    {
        let ghost orig = self@.table;
        let ghost s = start_vpn as int;
        let ghost e = end_vpn as int;
        let mut i: usize = 0;
        let ghost mut j: int = 0;
        while i < self.table.len()
            invariant
                s == start_vpn as int,
                e == end_vpn as int,
                0 <= j <= orig.len(),
                self@.table =~= remove_range(orig.take(j), s, e) + orig.skip(j),
                i == remove_range(orig.take(j), s, e).len(),
                self@.areas == old(self)@.areas,
                orig == old(self)@.table,
            decreases orig.len() - j,
        {
            let ghost tb = self@.table;
            let ghost rrj = remove_range(orig.take(j), s, e);
            proof {
                assert(j < orig.len());
                assert(tb[i as int] == orig.skip(j)[0]);
                assert(orig.skip(j)[0] == orig[j]);
                assert(orig.take(j + 1) =~= orig.take(j) + seq![orig[j]]);
                lemma_remove_range_concat(orig.take(j), seq![orig[j]], s, e);
                lemma_remove_range_single(orig[j], s, e);
                assert(orig.skip(j) =~= seq![orig[j]] + orig.skip(j + 1));
            }
            let cur_vpn = self.entry_vpn(i);
            proof {
                assert(self@.table[i as int] == orig[j]);
                assert(cur_vpn as int == orig[j].vpn);
            }
            let in_range = start_vpn <= cur_vpn && cur_vpn < end_vpn;
            proof {
                assert(in_range == !pte_outside(orig[j], s, e));
            }
            if in_range {
                self.table.remove(i);
                proof {
                    assert(self@.table =~= tb.remove(i as int));
                    assert(remove_range(orig.take(j + 1), s, e) == rrj);
                    assert(tb.remove(i as int) =~= rrj + orig.skip(j + 1));
                }
            } else {
                i = i + 1;
                proof {
                    assert(remove_range(orig.take(j + 1), s, e) =~= rrj + seq![orig[j]]);
                    assert(tb =~= (rrj + seq![orig[j]]) + orig.skip(j + 1));
                }
            }
            proof {
                j = j + 1;
            }
        }
        proof {
            assert(orig.take(j) =~= orig);
            assert(orig.skip(j) =~= Seq::<PteV>::empty());
            assert(self@.table =~= remove_range(orig, s, e));
        }
    }

    /// Remove the VMA whose page-range bounds exactly equal `[start_vpn,
    /// end_vpn)`, unmapping its pages first. Returns false (and changes
    /// nothing) when no VMA matches exactly; a partial match never qualifies.
    pub fn remove_area_exact(&mut self, start_vpn: usize, end_vpn: usize) -> (r: bool)
        requires
            old(self).wf(),
        ensures
            final(self).wf(),
            r == find_exact(old(self)@.areas, start_vpn as int, end_vpn as int).is_some(),
            final(self)@ == munmap_apply(old(self)@, start_vpn as int, end_vpn as int),
            !r ==> *final(self) == *old(self),
    {
        let ghost s = start_vpn as int;
        let ghost e = end_vpn as int;
        let ghost orig = self@;
        let mut idx: usize = 0;
        let mut found = false;
        let mut k: usize = 0;
        while k < self.areas.len()
            invariant
                s == start_vpn as int,
                e == end_vpn as int,
                k <= self@.areas.len(),
                self@.areas.len() == self.areas.len(),
                found == find_exact(self@.areas.take(k as int), s, e).is_some(),
                found ==> find_exact(self@.areas.take(k as int), s, e) == Option::Some(idx as int),
                found ==> idx < k && self@.areas[idx as int].start_vpn == start_vpn
                    && self@.areas[idx as int].end_vpn == end_vpn,
            decreases self.areas.len() - k,
        {
            let bounds = self.area_bounds(k);
            let is_match = bounds.0 == start_vpn && bounds.1 == end_vpn;
            proof {
                let t1 = self@.areas.take(k as int + 1);
                lemma_find_exact_step(t1, s, e);
                assert(t1.drop_last() =~= self@.areas.take(k as int));
                assert(t1.last() == self@.areas[k as int]);
                if is_match {
                    assert(find_exact(t1, s, e) == Option::Some(k as int));
                } else {
                    assert(find_exact(t1, s, e) == find_exact(self@.areas.take(k as int), s, e));
                }
            }
            if is_match {
                idx = k;
                found = true;
            }
            k = k + 1;
        }
        proof {
            assert(self@.areas.take(self@.areas.len() as int) =~= self@.areas);
        }
        if !found {
            return false;
        }
        self.unmap_range(start_vpn, end_vpn);
        self.areas.remove(idx);
        proof {
            lemma_munmap_apply_wf(orig, idx as int);
        }
        true
    }

    /// Store one byte at virtual address `va` through the page table (the
    /// kernel writes via the backing frame, so no permission is consulted).
    pub fn write_byte(&mut self, va: usize, b: u8)
        requires
            old(self).wf(),
            va_mapped(old(self)@, va as int),
        ensures
            final(self).wf(),
            final(self)@ == write_one(old(self)@, va as int, b),
    {
        let vpn = va / PAGE_SIZE;
        let off = va % PAGE_SIZE;
        let r = self.find_pte(vpn);
        let i = r.unwrap();
        proof {
            lemma_idx_of_unique(self@.table, vpn as int, i as int);
        }
        let mut entry = self.table.remove(i);
        entry.data[off] = b;
        self.table.insert(i, entry);
        proof {
            assert(self@.table =~= write_one(old(self)@, va as int, b).table);
            assert(self@ =~= write_one(old(self)@, va as int, b));
            lemma_write_one_props(old(self)@, va as int, b);
        }
    }

    /// Store `bs` byte-wise at ascending addresses from `va`, crossing page
    /// boundaries as needed (the destination need not be physically
    /// contiguous).
    pub fn write_bytes(&mut self, va: usize, bs: &Vec<u8>)
        requires
            old(self).wf(),
            va + bs@.len() <= usize::MAX,
            forall|x: int| va <= x < va + bs@.len() ==> va_mapped(old(self)@, x),
        ensures
            final(self).wf(),
            final(self)@ == write_seq(old(self)@, va as int, bs@),
    {
        let ghost orig = self@;
        let mut k: usize = 0;
        while k < bs.len()
            invariant
                orig == old(self)@,
                ms_inv(orig),
                k <= bs@.len(),
                va + bs@.len() <= usize::MAX,
                forall|x: int| va <= x < va + bs@.len() ==> va_mapped(orig, x),
                self@ == write_seq(orig, va as int, bs@.take(k as int)),
                self.wf(),
                forall|x: int| va_mapped(self@, x) == va_mapped(orig, x),
            decreases bs@.len() - k,
        {
            proof {
                lemma_write_seq_props(orig, va as int, bs@.take(k as int));
                assert(va_mapped(orig, va + k as int));
                assert(va_mapped(self@, va + k as int));
            }
            let b = bs[k];
            self.write_byte(va + k, b);
            proof {
                lemma_write_seq_push(orig, va as int, bs@.take(k as int), b);
                assert(bs@.take(k as int).push(b) =~= bs@.take(k as int + 1));
                lemma_write_seq_props(orig, va as int, bs@.take(k as int + 1));
            }
            k = k + 1;
        }
        proof {
            assert(bs@.take(bs@.len() as int) =~= bs@);
        }
    }

    /// Load the byte at virtual address `va`.
    pub fn read_byte(&self, va: usize) -> (r: u8)
        requires
            self.wf(),
            va_mapped(self@, va as int),
        ensures
            r == byte_at(self@, va as int),
    {
        let vpn = va / PAGE_SIZE;
        let off = va % PAGE_SIZE;
        let r = self.find_pte(vpn);
        let i = r.unwrap();
        proof {
            lemma_idx_of_unique(self@.table, vpn as int, i as int);
        }
        self.table[i].data[off]
    }

    /// Index of the first area starting at `start_vpn`: how the heap area is
    /// located by the program-break logic.
    pub fn find_area_by_start(&self, start_vpn: usize) -> (r: Option<usize>)
        ensures
            r.is_some() == find_by_start(self@.areas, start_vpn as int).is_some(),
            r is Some ==> find_by_start(self@.areas, start_vpn as int) == Option::Some(
                r->Some_0 as int,
            ),
    {
        let mut k: usize = 0;
        while k < self.areas.len()
            invariant
                k <= self@.areas.len(),
                self@.areas.len() == self.areas.len(),
                forall|j: int| 0 <= j < k ==> (#[trigger] self@.areas[j]).start_vpn != start_vpn,
            decreases self.areas.len() - k,
        {
            let bounds = self.area_bounds(k);
            if bounds.0 == start_vpn {
                proof {
                    lemma_find_by_start_props(self@.areas, start_vpn as int);
                    if find_by_start(self@.areas, start_vpn as int) is None {
                        assert(self@.areas[k as int].start_vpn != start_vpn);
                    }
                    let i = find_by_start(self@.areas, start_vpn as int)->Some_0;
                    if i < k as int {
                        assert(self@.areas[i].start_vpn != start_vpn);
                    }
                    if i > k as int {
                        assert(self@.areas[k as int].start_vpn != start_vpn);
                    }
                }
                return Some(k);
            }
            k = k + 1;
        }
        proof {
            lemma_find_by_start_props(self@.areas, start_vpn as int);
            if find_by_start(self@.areas, start_vpn as int) is Some {
                let i = find_by_start(self@.areas, start_vpn as int)->Some_0;
                assert(self@.areas[i].start_vpn != start_vpn);
            }
        }
        None
    }

    /// The end bound of area `idx`.
    pub fn area_end(&self, idx: usize) -> (r: usize)
        requires
            idx < self@.areas.len(),
        ensures
            r == self@.areas[idx as int].end_vpn,
    {
        self.areas[idx].end_vpn
    }

    /// Grow area `idx` to `new_end_vpn`, mapping the added pages with the
    /// area's permission onto fresh frames (heap growth under `sbrk`).
    pub fn append_area(&mut self, idx: usize, new_end_vpn: usize, fa: &mut FrameAlloc)
        requires
            old(self).wf(),
            idx < old(self)@.areas.len(),
            old(self)@.areas[idx as int].end_vpn <= new_end_vpn,
            range_free(
                old(self)@.table,
                old(self)@.areas[idx as int].end_vpn as int,
                new_end_vpn as int,
            ),
            old(fa).next + (new_end_vpn - old(self)@.areas[idx as int].end_vpn) <= usize::MAX,
        ensures
            final(self).wf(),
            final(self)@ == extend_apply(old(self)@, idx as int, new_end_vpn as int, old(fa).next as int),
            final(fa).next == old(fa).next + (new_end_vpn
                - old(self)@.areas[idx as int].end_vpn),
    {
        let ghost orig = self@;
        let ghost f0 = fa.next as int;
        let old_end = self.areas[idx].end_vpn;
        let a = self.areas[idx];
        self.areas[idx] = MapArea { start_vpn: a.start_vpn, end_vpn: new_end_vpn, perm: a.perm };
        let mut vpn: usize = old_end;
        while vpn < new_end_vpn
            invariant
                old_end <= vpn <= new_end_vpn || (vpn == old_end && old_end == new_end_vpn),
                fa.next == f0 + (vpn - old_end),
                fa.next + (new_end_vpn - vpn) <= usize::MAX,
                self@.table =~= orig.table + fresh_pages(old_end as int, vpn as int, a.perm, f0),
                self@.areas == orig.areas.update(
                    idx as int,
                    MapArea { start_vpn: a.start_vpn, end_vpn: new_end_vpn, perm: a.perm },
                ),
                a == orig.areas[idx as int],
                idx < orig.areas.len(),
                old_end == a.end_vpn,
            decreases new_end_vpn - vpn,
        {
            let frame = fa.alloc_frame();
            let data = make_zero_page();
            let ghost tab_before = self@.table;
            let pte = PtEntry { vpn, frame, perm: a.perm, data };
            let ghost pv = pte@;
            self.table.push(pte);
            proof {
                assert(self@.table =~= tab_before.push(pv));
                let grown = fresh_pages(old_end as int, vpn as int + 1, a.perm, f0);
                assert(pv == grown[vpn - old_end]);
                assert(self@.table =~= orig.table + grown);
            }
            vpn = vpn + 1;
        }
        proof {
            assert(self@ =~= extend_apply(orig, idx as int, new_end_vpn as int, f0));
            lemma_extend_apply_wf(orig, idx as int, new_end_vpn as int, f0);
        }
    }

    /// Shrink area `idx` to `new_end_vpn`, unmapping the dropped pages and
    /// releasing their frames (heap shrink under `sbrk`).
    pub fn shrink_area(&mut self, idx: usize, new_end_vpn: usize)
        requires
            old(self).wf(),
            idx < old(self)@.areas.len(),
            old(self)@.areas[idx as int].start_vpn <= new_end_vpn,
            new_end_vpn <= old(self)@.areas[idx as int].end_vpn,
        ensures
            final(self).wf(),
            final(self)@ == shrink_apply(old(self)@, idx as int, new_end_vpn as int),
    {
        let ghost orig = self@;
        let old_end = self.areas[idx].end_vpn;
        let a = self.areas[idx];
        self.areas[idx] = MapArea { start_vpn: a.start_vpn, end_vpn: new_end_vpn, perm: a.perm };
        self.unmap_range(new_end_vpn, old_end);
        proof {
            assert(self@ =~= shrink_apply(orig, idx as int, new_end_vpn as int));
            lemma_shrink_apply_wf(orig, idx as int, new_end_vpn as int);
        }
    }

    /// Deep-copy the address space page by page: identical virtual layout,
    /// permissions and bytes, on freshly allocated disjoint frames (the copy
    /// behind `fork`).
    pub fn clone_with_fresh_frames(&self, fa: &mut FrameAlloc) -> (r: MemorySet)
        requires
            self.wf(),
            old(fa).next + self@.table.len() <= usize::MAX,
        ensures
            r.wf(),
            same_memory(r@, self@),
            r@.areas == self@.areas,
            r@.table.len() == self@.table.len(),
            forall|i: int|
                0 <= i < self@.table.len() ==> (#[trigger] r@.table[i]).frame == old(fa).next + i,
            frames_below(r@.table, final(fa).next as int),
            final(fa).next == old(fa).next + self@.table.len(),
    {
        let ghost f0 = fa.next as int;
        let mut table: Vec<PtEntry> = Vec::new();
        let mut i: usize = 0;
        while i < self.table.len()
            invariant
                f0 == old(fa).next as int,
                i <= self@.table.len(),
                self@.table.len() == self.table.len(),
                fa.next == f0 + i,
                fa.next + (self@.table.len() - i) <= usize::MAX,
                table@.len() == i as int,
                forall|k: int|
                    0 <= k < i ==> (#[trigger] table@[k])@ == (PteV {
                        frame: f0 + k,
                        ..self@.table[k]
                    }),
            decreases self.table.len() - i,
        {
            let frame = fa.alloc_frame();
            let vpn = self.table[i].vpn;
            let perm = self.table[i].perm;
            let data = copy_bytes(&self.table[i].data);
            table.push(PtEntry { vpn, frame, perm, data });
            i = i + 1;
        }
        let areas = copy_areas(&self.areas);
        let r = MemorySet { table, areas };
        proof {
            assert(forall|k: int|
                0 <= k < r@.table.len() ==> (#[trigger] r@.table[k]).vpn == self@.table[k].vpn
                    && r@.table[k].perm == self@.table[k].perm && r@.table[k].data
                    == self@.table[k].data);
            lemma_same_structure_wf(self@, r@);
        }
        r
    }
}

/// The table left after unmapping every page in `[s, e)`, order preserved.
pub open spec fn remove_range(t: Seq<PteV>, s: int, e: int) -> Seq<PteV>
    decreases t.len(),
{
    if t.len() == 0 {
        Seq::empty()
    } else if pte_outside(t[0], s, e) {
        seq![t[0]] + remove_range(t.drop_first(), s, e)
    } else {
        remove_range(t.drop_first(), s, e)
    }
}

/// The index of the last area whose bounds equal `[s, e)` exactly, the match
/// rule of `munmap`.
pub open spec fn find_exact(areas: Seq<MapArea>, s: int, e: int) -> Option<int>
    decreases areas.len(),
{
    if areas.len() == 0 {
        Option::None
    } else if areas.last().start_vpn == s && areas.last().end_vpn == e {
        Option::Some(areas.len() - 1)
    } else {
        find_exact(areas.drop_last(), s, e)
    }
}

/// The view an exact-match removal leaves behind: on a match, the pages of
/// `[s, e)` leave the table and the matched VMA record leaves the list; on a
/// miss nothing changes.
pub open spec fn munmap_apply(v: MsView, s: int, e: int) -> MsView {
    match find_exact(v.areas, s, e) {
        Option::Some(i) => MsView {
            table: remove_range(v.table, s, e),
            areas: v.areas.remove(i),
        },
        Option::None => v,
    }
}

/// One unfolding of `find_exact`, for callers reasoning about a scan step.
pub proof fn lemma_find_exact_step(areas: Seq<MapArea>, s: int, e: int)
    requires
        areas.len() > 0,
    ensures
        find_exact(areas, s, e) == (if areas.last().start_vpn == s && areas.last().end_vpn == e {
            Option::Some(areas.len() - 1)
        } else {
            find_exact(areas.drop_last(), s, e)
        }),
{
}

/// Unmapping splits over concatenation.
pub proof fn lemma_remove_range_concat(a: Seq<PteV>, b: Seq<PteV>, s: int, e: int)
    ensures
        remove_range(a + b, s, e) == remove_range(a, s, e) + remove_range(b, s, e),
    decreases a.len(),
{
    if a.len() == 0 {
        assert(a + b =~= b);
        assert(remove_range(a, s, e) + remove_range(b, s, e) =~= remove_range(b, s, e));
    } else {
        assert((a + b).drop_first() =~= a.drop_first() + b);
        lemma_remove_range_concat(a.drop_first(), b, s, e);
        assert((a + b)[0] == a[0]);
        if pte_outside(a[0], s, e) {
            assert(seq![a[0]] + (remove_range(a.drop_first(), s, e) + remove_range(b, s, e))
                =~= (seq![a[0]] + remove_range(a.drop_first(), s, e)) + remove_range(b, s, e));
        }
    }
}

/// Unmapping a range nothing lies in changes nothing.
pub proof fn lemma_remove_range_all_outside(t: Seq<PteV>, s: int, e: int)
    requires
        range_free(t, s, e),
    ensures
        remove_range(t, s, e) == t,
    decreases t.len(),
{
    if t.len() > 0 {
        assert(pte_outside(t[0], s, e));
        lemma_remove_range_all_outside(t.drop_first(), s, e);
        assert(seq![t[0]] + t.drop_first() =~= t);
    }
}

/// Unmapping a range everything lies in empties the table.
pub proof fn lemma_remove_range_all_inside(t: Seq<PteV>, s: int, e: int)
    requires
        forall|i: int| 0 <= i < t.len() ==> !pte_outside(#[trigger] t[i], s, e),
    ensures
        remove_range(t, s, e) == Seq::<PteV>::empty(),
    decreases t.len(),
{
    if t.len() > 0 {
        lemma_remove_range_all_inside(t.drop_first(), s, e);
    }
}

/// Unmapping one entry.
pub proof fn lemma_remove_range_single(x: PteV, s: int, e: int)
    ensures
        pte_outside(x, s, e) ==> remove_range(seq![x], s, e) == seq![x],
        !pte_outside(x, s, e) ==> remove_range(seq![x], s, e) == Seq::<PteV>::empty(),
{
    let t = seq![x];
    assert(t.drop_first() =~= Seq::<PteV>::empty());
    assert(remove_range(Seq::<PteV>::empty(), s, e) == Seq::<PteV>::empty());
    if pte_outside(x, s, e) {
        assert(remove_range(t, s, e) =~= seq![x]);
    }
}

/// What survives an unmap: exactly the entries outside the range, with
/// uniqueness of vpns carried over.
pub proof fn lemma_remove_range_props(t: Seq<PteV>, s: int, e: int)
    ensures
        forall|k: int|
            0 <= k < remove_range(t, s, e).len() ==> pte_outside(
                #[trigger] remove_range(t, s, e)[k],
                s,
                e,
            ) && exists|i: int| 0 <= i < t.len() && t[i] == remove_range(t, s, e)[k],
        forall|i: int|
            0 <= i < t.len() && pte_outside(#[trigger] t[i], s, e) ==> exists|k: int|
                0 <= k < remove_range(t, s, e).len() && remove_range(t, s, e)[k] == t[i],
        vpns_unique(t) ==> vpns_unique(remove_range(t, s, e)),
    decreases t.len(),
{
    let rr = remove_range(t, s, e);
    if t.len() == 0 {
    } else {
        let rest = t.drop_first();
        let rrest = remove_range(rest, s, e);
        lemma_remove_range_props(rest, s, e);
        assert(forall|i: int| 0 <= i < rest.len() ==> rest[i] == t[i + 1]);
        if pte_outside(t[0], s, e) {
            assert(rr == seq![t[0]] + rrest);
            assert forall|k: int| 0 <= k < rr.len() implies pte_outside(#[trigger] rr[k], s, e)
                && exists|i: int| 0 <= i < t.len() && t[i] == rr[k] by {
                if k == 0 {
                    assert(rr[0] == t[0]);
                } else {
                    assert(rr[k] == rrest[k - 1]);
                    let i = choose|i: int| 0 <= i < rest.len() && rest[i] == rrest[k - 1];
                    assert(t[i + 1] == rr[k]);
                }
            }
            assert forall|i: int| 0 <= i < t.len() && pte_outside(#[trigger] t[i], s, e) implies
                exists|k: int| 0 <= k < rr.len() && rr[k] == t[i] by {
                if i == 0 {
                    assert(rr[0] == t[0]);
                } else {
                    assert(rest[i - 1] == t[i]);
                    let k = choose|k: int| 0 <= k < rrest.len() && rrest[k] == rest[i - 1];
                    assert(rr[k + 1] == t[i]);
                }
            }
            if vpns_unique(t) {
                assert(vpns_unique(rest)) by {
                    assert(forall|i: int, j: int|
                        0 <= i < rest.len() && 0 <= j < rest.len() && i != j ==> (
                        #[trigger] rest[i]).vpn != (#[trigger] rest[j]).vpn);
                }
                assert forall|k1: int, k2: int|
                    0 <= k1 < rr.len() && 0 <= k2 < rr.len() && k1 != k2 implies (
                #[trigger] rr[k1]).vpn != (#[trigger] rr[k2]).vpn by {
                    if k1 != 0 && k2 != 0 {
                        assert(rr[k1] == rrest[k1 - 1] && rr[k2] == rrest[k2 - 1]);
                    } else {
                        let kz = if k1 == 0 {
                            k2
                        } else {
                            k1
                        };
                        assert(rr[kz] == rrest[kz - 1]);
                        let i = choose|i: int| 0 <= i < rest.len() && rest[i] == rrest[kz - 1];
                        assert(t[i + 1] == rr[kz]);
                        assert(t[0].vpn != t[i + 1].vpn);
                    }
                }
            }
        } else {
            assert(rr == rrest);
            assert forall|k: int| 0 <= k < rr.len() implies pte_outside(#[trigger] rr[k], s, e)
                && exists|i: int| 0 <= i < t.len() && t[i] == rr[k] by {
                let i = choose|i: int| 0 <= i < rest.len() && rest[i] == rrest[k];
                assert(t[i + 1] == rr[k]);
            }
            assert forall|i: int| 0 <= i < t.len() && pte_outside(#[trigger] t[i], s, e) implies
                exists|k: int| 0 <= k < rr.len() && rr[k] == t[i] by {
                assert(i != 0);
                assert(rest[i - 1] == t[i]);
            }
            if vpns_unique(t) {
                assert(vpns_unique(rest)) by {
                    assert(forall|i: int, j: int|
                        0 <= i < rest.len() && 0 <= j < rest.len() && i != j ==> (
                        #[trigger] rest[i]).vpn != (#[trigger] rest[j]).vpn);
                }
            }
        }
    }
}

/// Removing an exact-match area keeps the invariant.
pub proof fn lemma_munmap_apply_wf(v: MsView, idx: int)
    requires
        ms_inv(v),
        0 <= idx < v.areas.len(),
    ensures
        ms_inv(
            MsView {
                table: remove_range(
                    v.table,
                    v.areas[idx].start_vpn as int,
                    v.areas[idx].end_vpn as int,
                ),
                areas: v.areas.remove(idx),
            },
        ),
{
    let s = v.areas[idx].start_vpn as int;
    let e = v.areas[idx].end_vpn as int;
    let rr = remove_range(v.table, s, e);
    let ra = v.areas.remove(idx);
    let w = MsView { table: rr, areas: ra };
    lemma_remove_range_props(v.table, s, e);
    // each remaining area comes from the pre-removal list
    assert(forall|j: int|
        0 <= j < ra.len() ==> #[trigger] ra[j] == v.areas[
            if j < idx {
                j
            } else {
                j + 1
            }
        ]);
    assert(areas_disjoint(ra)) by {
        assert forall|i: int, j: int|
            0 <= i < ra.len() && 0 <= j < ra.len() && i != j implies !overlaps(
            #[trigger] ra[i],
            #[trigger] ra[j],
        ) by {
            let oi = if i < idx {
                i
            } else {
                i + 1
            };
            let oj = if j < idx {
                j
            } else {
                j + 1
            };
            assert(!overlaps(v.areas[oi], v.areas[oj]));
        }
    }
    assert forall|k: int| 0 <= k < rr.len() implies covered(w, (#[trigger] rr[k]).vpn) by {
        let i = choose|i: int| 0 <= i < v.table.len() && v.table[i] == rr[k];
        assert(covered(v, v.table[i].vpn));
        let j = choose|j: int|
            0 <= j < v.areas.len() && area_contains(#[trigger] v.areas[j], v.table[i].vpn);
        assert(j != idx) by {
            assert(pte_outside(rr[k], s, e));
        }
        let j2 = if j < idx {
            j
        } else {
            j - 1
        };
        assert(ra[j2] == v.areas[j]);
        assert(0 <= j2 < w.areas.len() && area_contains(w.areas[j2], rr[k].vpn));
    }
    assert forall|j: int, vp: int|
        0 <= j < ra.len() && #[trigger] area_contains(ra[j], vp) implies vpn_mapped(rr, vp) by {
        let oj = if j < idx {
            j
        } else {
            j + 1
        };
        assert(area_contains(v.areas[oj], vp));
        assert(vpn_mapped(v.table, vp));
        let i = choose|i: int| 0 <= i < v.table.len() && (#[trigger] v.table[i]).vpn == vp;
        assert(pte_outside(v.table[i], s, e)) by {
            if s <= vp < e {
                // vp would lie in both the removed area and area oj
                assert(area_contains(v.areas[idx], vp));
                assert(overlaps(v.areas[oj], v.areas[idx]));
            }
        }
        let k = choose|k: int| 0 <= k < rr.len() && rr[k] == v.table[i];
        assert(rr[k].vpn == vp);
    }
    assert forall|i: int, j: int|
        0 <= i < rr.len() && 0 <= j < ra.len() && area_contains(
            #[trigger] ra[j],
            (#[trigger] rr[i]).vpn,
        ) implies rr[i].perm == ra[j].perm by {
        let i0 = choose|i0: int| 0 <= i0 < v.table.len() && v.table[i0] == rr[i];
        let oj = if j < idx {
            j
        } else {
            j + 1
        };
        assert(area_contains(v.areas[oj], v.table[i0].vpn));
    }
}

/// Inserting a framed area over a free range and then removing exactly that
/// range restores the address space: the VMA list and the page-table mapping
/// state return to what they were before the insertion.
pub proof fn lemma_mmap_munmap_round_trip(v: MsView, s: int, e: int, perm: MapPermission, f0: int)
    requires
        0 <= s <= e,
        e <= usize::MAX,
        range_free(v.table, s, e),
    ensures
        munmap_apply(mmap_apply(v, s, e, perm, f0), s, e) == v,
{
    let w = mmap_apply(v, s, e, perm, f0);
    let a = MapArea { start_vpn: s as usize, end_vpn: e as usize, perm };
    assert(w.areas.last() == a);
    assert(find_exact(w.areas, s, e) == Option::Some(v.areas.len() as int));
    assert(w.areas.remove(v.areas.len() as int) =~= v.areas);
    lemma_remove_range_concat(v.table, fresh_pages(s, e, perm, f0), s, e);
    lemma_remove_range_all_outside(v.table, s, e);
    lemma_remove_range_all_inside(fresh_pages(s, e, perm, f0), s, e);
    assert(remove_range(w.table, s, e) =~= v.table);
    assert(munmap_apply(w, s, e) =~= v);
}

/// The virtual address `va` lies on a mapped page.
pub open spec fn va_mapped(v: MsView, va: int) -> bool {
    vpn_mapped(v.table, va / (PAGE_SIZE as int))
}

/// The byte at virtual address `va`.
pub open spec fn byte_at(v: MsView, va: int) -> u8 {
    page_at(v.table, va / (PAGE_SIZE as int)).data[va % (PAGE_SIZE as int)]
}

/// The view after one byte store at `va`.
pub open spec fn write_one(v: MsView, va: int, b: u8) -> MsView {
    let vpn = va / (PAGE_SIZE as int);
    let i = idx_of(v.table, vpn);
    MsView {
        table: v.table.update(
            i,
            PteV { data: v.table[i].data.update(va % (PAGE_SIZE as int), b), ..v.table[i] },
        ),
        areas: v.areas,
    }
}

/// The view after storing `bs` byte-wise at ascending addresses from `va`.
pub open spec fn write_seq(v: MsView, va: int, bs: Seq<u8>) -> MsView
    decreases bs.len(),
{
    if bs.len() == 0 {
        v
    } else {
        write_seq(write_one(v, va, bs[0]), va + 1, bs.drop_first())
    }
}

/// The two views map the same pages with the same permissions and the same
/// bytes; backing frames are free to differ.
pub open spec fn same_memory(a: MsView, b: MsView) -> bool {
    &&& a.areas == b.areas
    &&& a.table.len() == b.table.len()
    &&& forall|i: int|
        0 <= i < a.table.len() ==> (#[trigger] a.table[i]).vpn == b.table[i].vpn
            && a.table[i].perm == b.table[i].perm && a.table[i].data == b.table[i].data
}

/// One byte store: the invariant, the mapped set, the areas, the frames and
/// every other byte are untouched; the addressed byte becomes `b`.
pub proof fn lemma_write_one_props(v: MsView, va: int, b: u8)
    requires
        ms_inv(v),
        0 <= va,
        va_mapped(v, va),
    ensures
        ms_inv(write_one(v, va, b)),
        write_one(v, va, b).areas == v.areas,
        write_one(v, va, b).table.len() == v.table.len(),
        forall|k: int|
            0 <= k < v.table.len() ==> (#[trigger] write_one(v, va, b).table[k]).vpn
                == v.table[k].vpn && write_one(v, va, b).table[k].frame == v.table[k].frame
                && write_one(v, va, b).table[k].perm == v.table[k].perm,
        forall|x: int| va_mapped(write_one(v, va, b), x) == va_mapped(v, x),
        byte_at(write_one(v, va, b), va) == b,
        forall|x: int|
            0 <= x && va_mapped(v, x) && x != va ==> byte_at(write_one(v, va, b), x) == byte_at(
                v,
                x,
            ),
{
    let w = write_one(v, va, b);
    let vpn = va / (PAGE_SIZE as int);
    let off = va % (PAGE_SIZE as int);
    let i = idx_of(v.table, vpn);
    assert(0 <= i < v.table.len() && v.table[i].vpn == vpn);
    assert(forall|k: int|
        0 <= k < w.table.len() ==> (#[trigger] w.table[k]).vpn == v.table[k].vpn && w.table[k].frame
            == v.table[k].frame && w.table[k].perm == v.table[k].perm && (k != i ==> w.table[k]
            == v.table[k]));
    assert forall|x: int| va_mapped(w, x) == va_mapped(v, x) by {
        let xv = x / (PAGE_SIZE as int);
        if va_mapped(v, x) {
            let k = choose|k: int| 0 <= k < v.table.len() && (#[trigger] v.table[k]).vpn == xv;
            assert(w.table[k].vpn == xv);
        }
        if va_mapped(w, x) {
            let k = choose|k: int| 0 <= k < w.table.len() && (#[trigger] w.table[k]).vpn == xv;
            assert(v.table[k].vpn == xv);
        }
    }
    assert(ms_inv(w)) by {
        assert forall|k: int| 0 <= k < w.table.len() implies covered(w, (#[trigger] w.table[k]).vpn)
            by {
            assert(covered(v, v.table[k].vpn));
            let j = choose|j: int|
                0 <= j < v.areas.len() && area_contains(#[trigger] v.areas[j], v.table[k].vpn);
            assert(area_contains(w.areas[j], w.table[k].vpn));
        }
        assert forall|j: int, vp: int|
            0 <= j < w.areas.len() && #[trigger] area_contains(w.areas[j], vp) implies vpn_mapped(
            w.table,
            vp,
        ) by {
            assert(area_contains(v.areas[j], vp));
            assert(vpn_mapped(v.table, vp));
            let k = choose|k: int| 0 <= k < v.table.len() && (#[trigger] v.table[k]).vpn == vp;
            assert(w.table[k].vpn == vp);
        }
    }
    lemma_idx_of_unique(w.table, vpn, i);
    assert(byte_at(w, va) == w.table[i].data[off]);
    assert forall|x: int| 0 <= x && va_mapped(v, x) && x != va implies byte_at(w, x) == byte_at(
        v,
        x,
    ) by {
        let xv = x / (PAGE_SIZE as int);
        let xo = x % (PAGE_SIZE as int);
        let k = choose|k: int| 0 <= k < v.table.len() && (#[trigger] v.table[k]).vpn == xv;
        lemma_idx_of_unique(v.table, xv, k);
        lemma_idx_of_unique(w.table, xv, k);
        if k != i {
            assert(w.table[k] == v.table[k]);
        } else {
            assert(xv == vpn);
            assert(xo != off);
            assert(w.table[i].data[xo] == v.table[i].data[xo]);
        }
    }
}

/// Byte stores compose: writing `bs` and then one more byte is writing
/// `bs.push(b)`.
pub proof fn lemma_write_seq_push(v: MsView, va: int, bs: Seq<u8>, b: u8)
    ensures
        write_seq(v, va, bs.push(b)) == write_one(write_seq(v, va, bs), va + bs.len(), b),
    decreases bs.len(),
{
    if bs.len() == 0 {
        assert(bs.push(b).drop_first() =~= Seq::<u8>::empty());
        assert(write_seq(v, va, bs.push(b)) == write_seq(write_one(v, va, b), va + 1, Seq::empty()));
    } else {
        assert(bs.push(b).drop_first() =~= bs.drop_first().push(b));
        assert(bs.push(b)[0] == bs[0]);
        lemma_write_seq_push(write_one(v, va, bs[0]), va + 1, bs.drop_first(), b);
    }
}

/// A byte-wise store of `bs` at `va`: structure untouched, addressed bytes
/// replaced, all other bytes kept.
pub proof fn lemma_write_seq_props(v: MsView, va: int, bs: Seq<u8>)
    requires
        ms_inv(v),
        0 <= va,
        forall|x: int| va <= x < va + bs.len() ==> va_mapped(v, x),
    ensures
        ms_inv(write_seq(v, va, bs)),
        write_seq(v, va, bs).areas == v.areas,
        write_seq(v, va, bs).table.len() == v.table.len(),
        forall|k: int|
            0 <= k < v.table.len() ==> (#[trigger] write_seq(v, va, bs).table[k]).vpn
                == v.table[k].vpn && write_seq(v, va, bs).table[k].frame == v.table[k].frame
                && write_seq(v, va, bs).table[k].perm == v.table[k].perm,
        forall|x: int| va_mapped(write_seq(v, va, bs), x) == va_mapped(v, x),
        forall|x: int|
            va <= x < va + bs.len() ==> byte_at(write_seq(v, va, bs), x) == bs[x - va],
        forall|x: int|
            0 <= x && va_mapped(v, x) && !(va <= x < va + bs.len()) ==> byte_at(
                write_seq(v, va, bs),
                x,
            ) == byte_at(v, x),
    decreases bs.len(),
{
    if bs.len() > 0 {
        let w1 = write_one(v, va, bs[0]);
        lemma_write_one_props(v, va, bs[0]);
        assert forall|x: int| va + 1 <= x < va + 1 + bs.drop_first().len() implies va_mapped(
            w1,
            x,
        ) by {
            assert(va_mapped(v, x));
        }
        lemma_write_seq_props(w1, va + 1, bs.drop_first());
        let w = write_seq(v, va, bs);
        assert(w == write_seq(w1, va + 1, bs.drop_first()));
        assert forall|x: int| va <= x < va + bs.len() implies byte_at(w, x) == bs[x - va] by {
            if x == va {
                assert(va_mapped(w1, va));
                assert(byte_at(w1, va) == bs[0]);
                assert(byte_at(w, va) == byte_at(w1, va));
            } else {
                assert(byte_at(w, x) == bs.drop_first()[x - (va + 1)]);
            }
        }
    }
}

/// The index of the first area starting at vpn `s`.
pub open spec fn find_by_start(areas: Seq<MapArea>, s: int) -> Option<int>
    decreases areas.len(),
{
    if areas.len() == 0 {
        Option::None
    } else if areas[0].start_vpn == s {
        Option::Some(0int)
    } else {
        match find_by_start(areas.drop_first(), s) {
            Option::Some(i) => Option::Some(i + 1),
            Option::None => Option::None,
        }
    }
}

/// `find_by_start` returns the first match, or rules every index out.
pub proof fn lemma_find_by_start_props(areas: Seq<MapArea>, s: int)
    ensures
        match find_by_start(areas, s) {
            Option::Some(i) => 0 <= i < areas.len() && areas[i].start_vpn == s && forall|j: int|
                0 <= j < i ==> (#[trigger] areas[j]).start_vpn != s,
            Option::None => forall|j: int|
                0 <= j < areas.len() ==> (#[trigger] areas[j]).start_vpn != s,
        },
    decreases areas.len(),
{
    if areas.len() > 0 && areas[0].start_vpn != s {
        let rest = areas.drop_first();
        lemma_find_by_start_props(rest, s);
        match find_by_start(rest, s) {
            Option::Some(i) => {
                assert(rest[i] == areas[i + 1]);
                assert(find_by_start(areas, s) == Option::Some(i + 1));
                assert forall|j: int| 0 <= j < i + 1 implies (#[trigger] areas[j]).start_vpn
                    != s by {
                    if j > 0 {
                        assert(rest[j - 1] == areas[j]);
                    }
                }
            },
            Option::None => {
                assert forall|j: int| 0 <= j < areas.len() implies (#[trigger] areas[j]).start_vpn
                    != s by {
                    if j > 0 {
                        assert(rest[j - 1] == areas[j]);
                    }
                }
            },
        }
    }
}

/// The view after growing area `idx` to `new_end`: the added pages appended
/// on fresh frames with the area's permission.
pub open spec fn extend_apply(v: MsView, idx: int, new_end: int, f0: int) -> MsView {
    let a = v.areas[idx];
    MsView {
        table: v.table + fresh_pages(a.end_vpn as int, new_end, a.perm, f0),
        areas: v.areas.update(
            idx,
            MapArea { start_vpn: a.start_vpn, end_vpn: new_end as usize, perm: a.perm },
        ),
    }
}

/// The view after shrinking area `idx` to `new_end`: the dropped pages leave
/// the table.
pub open spec fn shrink_apply(v: MsView, idx: int, new_end: int) -> MsView {
    let a = v.areas[idx];
    MsView {
        table: remove_range(v.table, new_end, a.end_vpn as int),
        areas: v.areas.update(
            idx,
            MapArea { start_vpn: a.start_vpn, end_vpn: new_end as usize, perm: a.perm },
        ),
    }
}

/// Growing an area over a free range keeps the invariant.
pub proof fn lemma_extend_apply_wf(v: MsView, idx: int, new_end: int, f0: int)
    requires
        ms_inv(v),
        0 <= idx < v.areas.len(),
        v.areas[idx].end_vpn <= new_end,
        new_end <= usize::MAX,
        range_free(v.table, v.areas[idx].end_vpn as int, new_end),
    ensures
        ms_inv(extend_apply(v, idx, new_end, f0)),
{
    let a = v.areas[idx];
    let s = a.end_vpn as int;
    let ax = MapArea { start_vpn: a.start_vpn, end_vpn: new_end as usize, perm: a.perm };
    let w = extend_apply(v, idx, new_end, f0);
    let n = v.table.len() as int;
    assert(forall|j: int| 0 <= j < w.areas.len() && j != idx ==> w.areas[j] == v.areas[j]);
    assert(w.areas[idx] == ax);
    // the extension collides with no other area
    assert forall|j: int| 0 <= j < v.areas.len() && j != idx implies !overlaps(v.areas[j], ax) by {
        if overlaps(v.areas[j], ax) {
            let vp = if a.start_vpn >= v.areas[j].start_vpn {
                a.start_vpn as int
            } else {
                v.areas[j].start_vpn as int
            };
            assert(area_contains(v.areas[j], vp));
            if vp < s {
                assert(area_contains(a, vp));
                assert(overlaps(v.areas[j], a));
            } else {
                assert(vpn_mapped(v.table, vp));
                let i = choose|i: int| 0 <= i < v.table.len() && (#[trigger] v.table[i]).vpn == vp;
                assert(pte_outside(v.table[i], s, new_end));
            }
        }
    }
    assert(areas_disjoint(w.areas)) by {
        assert forall|i: int, j: int|
            0 <= i < w.areas.len() && 0 <= j < w.areas.len() && i != j implies !overlaps(
            #[trigger] w.areas[i],
            #[trigger] w.areas[j],
        ) by {
            if i != idx && j != idx {
                assert(!overlaps(v.areas[i], v.areas[j]));
            } else if i == idx {
                assert(!overlaps(v.areas[j], ax));
            } else {
                assert(!overlaps(v.areas[i], ax));
            }
        }
    }
    assert(vpns_unique(w.table)) by {
        assert forall|i: int, j: int|
            0 <= i < w.table.len() && 0 <= j < w.table.len() && i != j implies (
        #[trigger] w.table[i]).vpn != (#[trigger] w.table[j]).vpn by {
            if i < n && j < n {
            } else if i >= n && j >= n {
                assert(w.table[i].vpn == s + (i - n));
                assert(w.table[j].vpn == s + (j - n));
            } else if i < n {
                assert(pte_outside(v.table[i], s, new_end));
                assert(w.table[j].vpn == s + (j - n));
            } else {
                assert(pte_outside(v.table[j], s, new_end));
                assert(w.table[i].vpn == s + (i - n));
            }
        }
    }
    assert forall|i: int| 0 <= i < w.table.len() implies covered(w, (#[trigger] w.table[i]).vpn) by {
        if i < n {
            assert(covered(v, v.table[i].vpn));
            let j = choose|j: int|
                0 <= j < v.areas.len() && area_contains(#[trigger] v.areas[j], v.table[i].vpn);
            if j != idx {
                assert(area_contains(w.areas[j], w.table[i].vpn));
            } else {
                assert(area_contains(w.areas[idx], w.table[i].vpn));
            }
        } else {
            assert(w.table[i].vpn == s + (i - n));
            assert(area_contains(w.areas[idx], w.table[i].vpn));
        }
    }
    assert forall|j: int, vp: int|
        0 <= j < w.areas.len() && #[trigger] area_contains(w.areas[j], vp) implies vpn_mapped(
        w.table,
        vp,
    ) by {
        if j != idx || vp < s {
            assert(area_contains(v.areas[j], vp));
            assert(vpn_mapped(v.table, vp));
            let i = choose|i: int| 0 <= i < v.table.len() && (#[trigger] v.table[i]).vpn == vp;
            assert(w.table[i].vpn == vp);
        } else {
            let i = n + (vp - s);
            assert(w.table[i].vpn == vp);
        }
    }
    assert forall|i: int, j: int|
        0 <= i < w.table.len() && 0 <= j < w.areas.len() && area_contains(
            #[trigger] w.areas[j],
            (#[trigger] w.table[i]).vpn,
        ) implies w.table[i].perm == w.areas[j].perm by {
        if i < n {
            assert(pte_outside(v.table[i], s, new_end));
            if j != idx {
                assert(area_contains(v.areas[j], v.table[i].vpn));
            } else {
                assert(area_contains(a, v.table[i].vpn));
            }
        } else {
            assert(w.table[i].vpn == s + (i - n));
            assert(w.table[i].perm == a.perm);
            if j != idx {
                // a fresh page inside another area would have been mapped
                assert(area_contains(v.areas[j], w.table[i].vpn));
                assert(vpn_mapped(v.table, w.table[i].vpn));
                let k = choose|k: int|
                    0 <= k < v.table.len() && (#[trigger] v.table[k]).vpn == w.table[i].vpn;
                assert(pte_outside(v.table[k], s, new_end));
            }
        }
    }
}

/// Shrinking an area keeps the invariant.
pub proof fn lemma_shrink_apply_wf(v: MsView, idx: int, new_end: int)
    requires
        ms_inv(v),
        0 <= idx < v.areas.len(),
        v.areas[idx].start_vpn <= new_end,
        new_end <= v.areas[idx].end_vpn,
    ensures
        ms_inv(shrink_apply(v, idx, new_end)),
{
    let a = v.areas[idx];
    let e = a.end_vpn as int;
    let ax = MapArea { start_vpn: a.start_vpn, end_vpn: new_end as usize, perm: a.perm };
    let w = shrink_apply(v, idx, new_end);
    let rr = w.table;
    lemma_remove_range_props(v.table, new_end, e);
    assert(forall|j: int| 0 <= j < w.areas.len() && j != idx ==> w.areas[j] == v.areas[j]);
    assert(w.areas[idx] == ax);
    assert(areas_disjoint(w.areas)) by {
        assert forall|i: int, j: int|
            0 <= i < w.areas.len() && 0 <= j < w.areas.len() && i != j implies !overlaps(
            #[trigger] w.areas[i],
            #[trigger] w.areas[j],
        ) by {
            assert(!overlaps(v.areas[i], v.areas[j]));
        }
    }
    assert forall|k: int| 0 <= k < rr.len() implies covered(w, (#[trigger] rr[k]).vpn) by {
        let i = choose|i: int| 0 <= i < v.table.len() && v.table[i] == rr[k];
        assert(covered(v, v.table[i].vpn));
        let j = choose|j: int|
            0 <= j < v.areas.len() && area_contains(#[trigger] v.areas[j], v.table[i].vpn);
        if j != idx {
            assert(area_contains(w.areas[j], rr[k].vpn));
        } else {
            assert(pte_outside(rr[k], new_end, e));
            assert(area_contains(ax, rr[k].vpn));
            assert(area_contains(w.areas[idx], rr[k].vpn));
        }
    }
    assert forall|j: int, vp: int|
        0 <= j < w.areas.len() && #[trigger] area_contains(w.areas[j], vp) implies vpn_mapped(
        rr,
        vp,
    ) by {
        assert(area_contains(v.areas[j], vp)) by {
            if j == idx {
                assert(area_contains(a, vp));
            }
        }
        assert(vpn_mapped(v.table, vp));
        let i = choose|i: int| 0 <= i < v.table.len() && (#[trigger] v.table[i]).vpn == vp;
        assert(pte_outside(v.table[i], new_end, e)) by {
            if new_end <= vp < e {
                // vp would lie both in the dropped tail of the shrunk area and
                // in area j
                if j == idx {
                    assert(area_contains(ax, vp));
                } else {
                    assert(area_contains(v.areas[idx], vp));
                    assert(overlaps(v.areas[j], v.areas[idx]));
                }
            }
        }
        let k = choose|k: int| 0 <= k < rr.len() && rr[k] == v.table[i];
        assert(rr[k].vpn == vp);
    }
    assert forall|i: int, j: int|
        0 <= i < rr.len() && 0 <= j < w.areas.len() && area_contains(
            #[trigger] w.areas[j],
            (#[trigger] rr[i]).vpn,
        ) implies rr[i].perm == w.areas[j].perm by {
        let i0 = choose|i0: int| 0 <= i0 < v.table.len() && v.table[i0] == rr[i];
        if j == idx {
            assert(area_contains(a, v.table[i0].vpn));
        } else {
            assert(area_contains(v.areas[j], v.table[i0].vpn));
        }
    }
}

/// An address space that mirrors a well-formed one page for page (frames
/// free to differ) is itself well-formed.
pub proof fn lemma_same_structure_wf(v: MsView, w: MsView)
    requires
        ms_inv(v),
        w.areas == v.areas,
        w.table.len() == v.table.len(),
        forall|k: int|
            0 <= k < w.table.len() ==> (#[trigger] w.table[k]).vpn == v.table[k].vpn
                && w.table[k].perm == v.table[k].perm && w.table[k].data == v.table[k].data,
    ensures
        ms_inv(w),
        same_memory(w, v),
{
    assert forall|i: int| 0 <= i < w.table.len() implies covered(w, (#[trigger] w.table[i]).vpn) by {
        assert(covered(v, v.table[i].vpn));
        let j = choose|j: int|
            0 <= j < v.areas.len() && area_contains(#[trigger] v.areas[j], v.table[i].vpn);
        assert(area_contains(w.areas[j], w.table[i].vpn));
    }
    assert forall|j: int, vp: int|
        0 <= j < w.areas.len() && #[trigger] area_contains(w.areas[j], vp) implies vpn_mapped(
        w.table,
        vp,
    ) by {
        assert(area_contains(v.areas[j], vp));
        assert(vpn_mapped(v.table, vp));
        let i = choose|i: int| 0 <= i < v.table.len() && (#[trigger] v.table[i]).vpn == vp;
        assert(w.table[i].vpn == vp);
    }
}

/// After a fork-style copy, no physical frame backs a page in both address
/// spaces: the parent's frames all lie below the allocation bound, the
/// child's all at or above it.
pub proof fn lemma_fork_frames_disjoint(parent: Seq<PteV>, child: Seq<PteV>, bound: int)
    requires
        frames_below(parent, bound),
        forall|j: int| 0 <= j < child.len() ==> (#[trigger] child[j]).frame >= bound,
    ensures
        forall|i: int, j: int|
            0 <= i < parent.len() && 0 <= j < child.len() ==> (#[trigger] parent[i]).frame != (
            #[trigger] child[j]).frame,
{
}

/// A byte-for-byte copy of a buffer.
pub fn copy_bytes(src: &Vec<u8>) -> (r: Vec<u8>)
    ensures
        r@ == src@,
{
    let mut v: Vec<u8> = Vec::new();
    let mut i: usize = 0;
    while i < src.len()
        invariant
            i <= src@.len(),
            v@ =~= src@.take(i as int),
        decreases src@.len() - i,
    {
        v.push(src[i]);
        proof {
            assert(v@ =~= src@.take(i as int + 1));
        }
        i = i + 1;
    }
    proof {
        assert(src@.take(src@.len() as int) =~= src@);
    }
    v
}

/// A copy of a VMA list.
fn copy_areas(src: &Vec<MapArea>) -> (r: Vec<MapArea>)
    ensures
        r@ == src@,
{
    let mut v: Vec<MapArea> = Vec::new();
    let mut i: usize = 0;
    while i < src.len()
        invariant
            i <= src@.len(),
            v@ =~= src@.take(i as int),
        decreases src@.len() - i,
    {
        v.push(src[i]);
        proof {
            assert(v@ =~= src@.take(i as int + 1));
        }
        i = i + 1;
    }
    proof {
        assert(src@.take(src@.len() as int) =~= src@);
    }
    v
}

/// A zero-filled page buffer.
pub fn make_zero_page() -> (r: Vec<u8>)
    ensures
        r@ =~= zero_page(),
{
    let mut v: Vec<u8> = Vec::new();
    let mut i: usize = 0;
    while i < PAGE_SIZE
        invariant
            i <= PAGE_SIZE,
            v@.len() == i,
            forall|k: int| 0 <= k < i ==> v@[k] == 0u8,
        decreases PAGE_SIZE - i,
    {
        v.push(0u8);
        i = i + 1;
    }
    v
}

/// The view an insertion of a framed area leaves behind: the fresh pages are
/// appended to the table and the VMA record to the area list.
pub open spec fn mmap_apply(v: MsView, s: int, e: int, perm: MapPermission, f0: int) -> MsView {
    MsView {
        table: v.table + fresh_pages(s, e, perm, f0),
        areas: v.areas.push(MapArea { start_vpn: s as usize, end_vpn: e as usize, perm }),
    }
}

/// Under unique vpns, any index that maps `vpn` is `idx_of`.
pub proof fn lemma_idx_of_unique(t: Seq<PteV>, vpn: int, i: int)
    requires
        vpns_unique(t),
        0 <= i < t.len(),
        t[i].vpn == vpn,
    ensures
        idx_of(t, vpn) == i,
        page_at(t, vpn) == t[i],
        vpn_mapped(t, vpn),
{
    assert(0 <= i < t.len() && t[i].vpn == vpn);
    let j = idx_of(t, vpn);
    assert(0 <= j < t.len() && t[j].vpn == vpn);
}

/// A framed insertion over a free range preserves the invariant.
pub proof fn lemma_mmap_apply_wf(v: MsView, s: int, e: int, perm: MapPermission, f0: int)
    requires
        ms_inv(v),
        0 <= s <= e,
        e <= usize::MAX,
        range_free(v.table, s, e),
    ensures
        ms_inv(mmap_apply(v, s, e, perm, f0)),
{
    let w = mmap_apply(v, s, e, perm, f0);
    let a = MapArea { start_vpn: s as usize, end_vpn: e as usize, perm };
    let n = v.table.len() as int;
    let m = v.areas.len() as int;
    // The new area is disjoint from every old one: every vpn of an old area is
    // mapped in the old table, hence outside [s, e).
    assert forall|j: int| 0 <= j < m implies !overlaps(v.areas[j], a) by {
        if overlaps(v.areas[j], a) {
            // the two ranges share a vpn
            let vp = if s >= v.areas[j].start_vpn as int {
                s
            } else {
                v.areas[j].start_vpn as int
            };
            assert(area_contains(v.areas[j], vp));
            assert(vpn_mapped(v.table, vp));
            let i = choose|i: int| 0 <= i < v.table.len() && (#[trigger] v.table[i]).vpn == vp;
            assert(pte_outside(v.table[i], s, e));
        }
    }
    assert(areas_disjoint(w.areas)) by {
        assert forall|i: int, j: int|
            0 <= i < w.areas.len() && 0 <= j < w.areas.len() && i != j implies !overlaps(
            #[trigger] w.areas[i],
            #[trigger] w.areas[j],
        ) by {
            if i < m && j < m {
                assert(v.areas[i] == w.areas[i] && v.areas[j] == w.areas[j]);
            } else if i < m {
                assert(!overlaps(v.areas[i], a));
            } else {
                assert(!overlaps(v.areas[j], a));
            }
        }
    }
    assert(vpns_unique(w.table)) by {
        assert forall|i: int, j: int|
            0 <= i < w.table.len() && 0 <= j < w.table.len() && i != j implies (
        #[trigger] w.table[i]).vpn != (#[trigger] w.table[j]).vpn by {
            if i < n && j < n {
            } else if i >= n && j >= n {
                assert(w.table[i].vpn == s + (i - n));
                assert(w.table[j].vpn == s + (j - n));
            } else if i < n {
                assert(pte_outside(v.table[i], s, e));
                assert(w.table[j].vpn == s + (j - n));
            } else {
                assert(pte_outside(v.table[j], s, e));
                assert(w.table[i].vpn == s + (i - n));
            }
        }
    }
    assert forall|i: int| 0 <= i < w.table.len() implies covered(w, (#[trigger] w.table[i]).vpn) by {
        if i < n {
            assert(covered(v, v.table[i].vpn));
            let j = choose|j: int|
                0 <= j < v.areas.len() && area_contains(#[trigger] v.areas[j], v.table[i].vpn);
            assert(area_contains(w.areas[j], w.table[i].vpn));
        } else {
            assert(w.table[i].vpn == s + (i - n));
            assert(area_contains(w.areas[m], w.table[i].vpn));
        }
    }
    assert forall|j: int, vp: int|
        0 <= j < w.areas.len() && #[trigger] area_contains(w.areas[j], vp) implies vpn_mapped(
        w.table,
        vp,
    ) by {
        if j < m {
            assert(vpn_mapped(v.table, vp));
            let i = choose|i: int| 0 <= i < v.table.len() && (#[trigger] v.table[i]).vpn == vp;
            assert(w.table[i].vpn == vp);
        } else {
            let i = n + (vp - s);
            assert(w.table[i].vpn == vp);
        }
    }
    assert forall|i: int, j: int|
        0 <= i < w.table.len() && 0 <= j < w.areas.len() && area_contains(
            #[trigger] w.areas[j],
            (#[trigger] w.table[i]).vpn,
        ) implies w.table[i].perm == w.areas[j].perm by {
        if i < n && j < m {
        } else if i >= n && j >= m {
            assert(w.table[i].perm == perm);
        } else if i < n && j >= m {
            // an old page inside the new area contradicts freeness
            assert(pte_outside(v.table[i], s, e));
            assert(area_contains(a, w.table[i].vpn));
        } else {
            // a fresh page inside an old area contradicts the disjointness
            // shown above
            assert(w.table[i].vpn == s + (i - n));
            assert(s <= w.table[i].vpn < e);
            assert(area_contains(v.areas[j], w.table[i].vpn));
            assert(overlaps(v.areas[j], a));
        }
    }
}

} // verus!
