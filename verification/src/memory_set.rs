//! An address space: mapped areas and the page table that realises them.

use vstd::prelude::*;
use crate::config::{MemError, PAGE_SIZE, TABLE_SPAN};
use crate::frame::FrameAllocator;
use crate::page_table::{table_index, MapPermission, PageTable, PageTableEntry};

verus! {

/// The page that holds a byte address.
pub open spec fn floor_page(va: usize) -> usize {
    va / PAGE_SIZE
}

/// The first page at or after a byte address.
pub open spec fn ceil_page(va: usize) -> usize {
    if va % PAGE_SIZE == 0 {
        va / PAGE_SIZE
    } else {
        (va / PAGE_SIZE + 1) as usize
    }
}

/// Two half-open page ranges share at least one page.
pub open spec fn ranges_meet(s1: usize, e1: usize, s2: usize, e2: usize) -> bool {
    s1 < e1 && s2 < e2 && s1 < e2 && s2 < e1
}

/// The page that holds a byte address.
pub fn page_floor(va: usize) -> (r: usize)
    ensures
        r == floor_page(va),
{
    va / PAGE_SIZE
}

/// The first page at or after a byte address.
pub fn page_ceil(va: usize) -> (r: usize)
    ensures
        r == ceil_page(va),
{
    if va % PAGE_SIZE == 0 {
        va / PAGE_SIZE
    } else {
        va / PAGE_SIZE + 1
    }
}

/// Index of the first leaf table that the pages `[s, e)` need.
pub open spec fn span_lo(s: usize, e: usize) -> int {
    s as int / TABLE_SPAN as int
}

/// One past the index of the last leaf table that the pages `[s, e)` need.
pub open spec fn span_hi(s: usize, e: usize) -> int {
    if s < e {
        (e - 1) / TABLE_SPAN as int + 1
    } else {
        s as int / TABLE_SPAN as int
    }
}

/// Number of leaf tables with an index in `[lo, hi)` that do not exist.
pub open spec fn tables_missing(dirs: Map<usize, usize>, lo: int, hi: int) -> int
    decreases hi - lo,
{
    if hi <= lo {
        0
    } else {
        tables_missing(dirs, lo, hi - 1) + if dirs.contains_key((hi - 1) as usize) {
            0int
        } else {
            1int
        }
    }
}

/// The count of missing leaf tables is not negative and does not shrink as
/// the range of indices grows.
pub proof fn lemma_missing_grows(dirs: Map<usize, usize>, lo: int, a: int, b: int)
    requires
        a <= b,
    ensures
        0 <= tables_missing(dirs, lo, a) <= tables_missing(dirs, lo, b),
        tables_missing(dirs, lo, b) <= if b <= lo { 0 } else { b - lo },
    decreases b - lo,
{
    if b > lo {
        if a < b {
            lemma_missing_grows(dirs, lo, a, b - 1);
        } else {
            lemma_missing_grows(dirs, lo, a - 1, b - 1);
        }
    }
}

/// No leaf table with an index in `[lo, hi)` is missing where all of them
/// exist.
pub proof fn lemma_none_missing(dirs: Map<usize, usize>, lo: int, hi: int)
    requires
        0 <= lo,
        hi <= usize::MAX,
        forall|id: usize| lo <= id < hi ==> #[trigger] dirs.contains_key(id),
    ensures
        tables_missing(dirs, lo, hi) == 0,
    decreases hi - lo,
{
    if hi > lo {
        lemma_none_missing(dirs, lo, hi - 1);
        assert(dirs.contains_key((hi - 1) as usize));
    }
}

/// Fewer leaf tables are missing, or as many, once more of them exist.
pub proof fn lemma_missing_shrinks(
    dirs: Map<usize, usize>,
    more: Map<usize, usize>,
    lo: int,
    hi: int,
)
    requires
        forall|id: usize| #[trigger] dirs.contains_key(id) ==> more.contains_key(id),
    ensures
        tables_missing(more, lo, hi) <= tables_missing(dirs, lo, hi),
    decreases hi - lo,
{
    if hi > lo {
        lemma_missing_shrinks(dirs, more, lo, hi - 1);
    }
}

/// The leaf table of every mapped page exists, no frame holds both a leaf
/// table and a page, and no frame holds two leaf tables.
pub open spec fn tables_sound(table: Map<usize, PageTableEntry>, dirs: Map<usize, usize>) -> bool {
    &&& forall|vpn: usize| #[trigger] table.contains_key(vpn) ==> dirs.contains_key(table_index(vpn))
    &&& forall|vpn: usize, id: usize|
        #[trigger] table.contains_key(vpn) && #[trigger] dirs.contains_key(id) ==> table[vpn].ppn
            != dirs[id]
    &&& forall|a: usize, b: usize|
        a != b && #[trigger] dirs.contains_key(a) && #[trigger] dirs.contains_key(b) ==> dirs[a]
            != dirs[b]
}

/// The frame holds a leaf table that exists in `post` and not in `pre`.
pub open spec fn new_table_frame(pre: Map<usize, usize>, post: Map<usize, usize>, ppn: usize) -> bool {
    exists|id: usize| #[trigger] post.contains_key(id) && !pre.contains_key(id) && post[id] == ppn
}

/// No frame backs two pages of the table.
pub open spec fn one_frame_per_page(table: Map<usize, PageTableEntry>) -> bool {
    forall|v1: usize, v2: usize|
        v1 != v2 && #[trigger] table.contains_key(v1) && #[trigger] table.contains_key(v2)
            ==> table[v1].ppn != table[v2].ppn
}

/// The table maps the page to the frame.
pub open spec fn backs(table: Map<usize, PageTableEntry>, vpn: usize, ppn: usize) -> bool {
    table.contains_key(vpn) && table[vpn].ppn == ppn
}

/// The table maps some page of `[s, e)` to the frame.
pub open spec fn backs_within(
    table: Map<usize, PageTableEntry>,
    s: usize,
    e: usize,
    ppn: usize,
) -> bool {
    exists|vpn: usize| s <= vpn < e && #[trigger] backs(table, vpn, ppn)
}

/// A contiguous range of virtual pages, `[start_vpn, end_vpn)`, mapped with
/// one permission set. The frames behind its pages are the ones that the
/// page table names for them; the area owns them until it is torn down.
#[derive(Clone, Copy, Debug, PartialEq, Eq, Structural)]
pub struct MapArea {
    pub start_vpn: usize,
    pub end_vpn: usize,
    pub perm: MapPermission,
}

/// One task's address space.
pub struct MemorySet {
    pub(crate) page_table: PageTable,
    pub(crate) areas: Vec<MapArea>,
}

impl MemorySet {
    /// The translations in force.
    pub open(crate) spec fn table(&self) -> Map<usize, PageTableEntry> {
        self.page_table@
    }

    /// The recorded areas, in the order in which they were inserted.
    pub open(crate) spec fn areas(&self) -> Seq<MapArea> {
        self.areas@
    }

    /// The frame that roots the page table.
    pub open(crate) spec fn root(&self) -> usize {
        self.page_table.root()
    }

    /// The leaf tables of the page table, each with the frame that holds it.
    pub open(crate) spec fn dirs(&self) -> Map<usize, usize> {
        self.page_table.tables()
    }

    /// Frames that mapping the pages `[s, e)` takes: one for each page and
    /// one for each leaf table that does not exist yet.
    pub open spec fn frames_needed(&self, s: usize, e: usize) -> int {
        (e - s) + tables_missing(self.dirs(), span_lo(s, e), span_hi(s, e))
    }

    /// Area `i` exists and holds the page.
    pub open spec fn area_holds(&self, i: int, vpn: usize) -> bool {
        0 <= i < self.areas().len() && self.areas()[i].start_vpn <= vpn < self.areas()[i].end_vpn
    }

    /// Area `i` exists and shares a page with `[s, e)`.
    pub open spec fn area_meets(&self, i: int, s: usize, e: usize) -> bool {
        0 <= i < self.areas().len() && ranges_meet(
            self.areas()[i].start_vpn,
            self.areas()[i].end_vpn,
            s,
            e,
        )
    }

    /// Area `i` exists and starts at page `s`.
    pub open spec fn area_starts(&self, i: int, s: usize) -> bool {
        0 <= i < self.areas().len() && self.areas()[i].start_vpn == s
    }

    /// Some area holds the page.
    pub open spec fn covered(&self, vpn: usize) -> bool {
        exists|i: int| self.area_holds(i, vpn)
    }

    /// Some area shares a page with `[s, e)`.
    pub open spec fn meets(&self, s: usize, e: usize) -> bool {
        exists|i: int| self.area_meets(i, s, e)
    }

    /// Area `i` exists and is exactly `[s, e)`.
    pub open spec fn area_is(&self, i: int, s: usize, e: usize) -> bool {
        0 <= i < self.areas().len() && self.areas()[i].start_vpn == s && self.areas()[i].end_vpn
            == e
    }

    /// Some area starts at page `s`.
    pub open spec fn has_area_at(&self, s: usize) -> bool {
        exists|i: int| self.area_starts(i, s)
    }

    /// Some area is exactly `[s, e)`.
    pub open spec fn has_exact(&self, s: usize, e: usize) -> bool {
        exists|i: int| self.area_is(i, s, e)
    }

    /// Area `i` is the first one that is exactly `[s, e)`.
    pub open spec fn first_exact(&self, i: int, s: usize, e: usize) -> bool {
        &&& self.area_is(i, s, e)
        &&& forall|j: int| 0 <= j < i ==> !#[trigger] self.area_is(j, s, e)
    }

    /// Area `i` is the first one that starts at page `s`.
    pub open spec fn first_at(&self, i: int, s: usize) -> bool {
        &&& self.area_starts(i, s)
        &&& forall|j: int| 0 <= j < i ==> !#[trigger] self.area_starts(j, s)
    }

    /// Index of the first area that starts at page `s`, where there is one.
    pub open spec fn index_at(&self, s: usize) -> int {
        choose|i: int| self.first_at(i, s)
    }

    /// Index of the first area that is exactly `[s, e)`, where there is one.
    pub open spec fn index_of(&self, s: usize, e: usize) -> int {
        choose|i: int| self.first_exact(i, s, e)
    }

    /// The areas are proper ranges that share no page, the page table maps
    /// exactly the pages that some area holds, each with its area's
    /// permissions, no frame backs two pages, and the leaf tables are in
    /// order.
    pub open spec fn wf(&self) -> bool {
        &&& forall|i: int|
            0 <= i < self.areas().len() ==> (#[trigger] self.areas()[i]).start_vpn
                <= self.areas()[i].end_vpn
        &&& forall|i: int, j: int|
            0 <= i < j < self.areas().len() ==> !ranges_meet(
                (#[trigger] self.areas()[i]).start_vpn,
                self.areas()[i].end_vpn,
                (#[trigger] self.areas()[j]).start_vpn,
                self.areas()[j].end_vpn,
            )
        &&& forall|vpn: usize| #[trigger] self.table().contains_key(vpn) <==> self.covered(vpn)
        &&& forall|i: int, vpn: usize| #[trigger]
            self.area_holds(i, vpn) ==> self.table().contains_key(vpn) && self.table()[vpn].perm
                == self.areas()[i].perm
        &&& one_frame_per_page(self.table())
        &&& tables_sound(self.table(), self.dirs())
    }

    /// The page is mapped, to a frame of the pool that is in use.
    pub open spec fn resolves_in(&self, frames: &FrameAllocator, vpn: usize) -> bool {
        &&& self.table().contains_key(vpn)
        &&& frames.is_allocated(self.table()[vpn].ppn)
        &&& frames.lower() <= self.table()[vpn].ppn < frames.upper()
    }

    /// Every frame that the page table names or lies on is in use in the
    /// pool.
    pub open spec fn backed_by(&self, frames: &FrameAllocator) -> bool {
        &&& forall|vpn: usize| #[trigger]
            self.table().contains_key(vpn) ==> frames.is_allocated(self.table()[vpn].ppn)
        &&& forall|id: usize| #[trigger]
            self.dirs().contains_key(id) ==> frames.is_allocated(self.dirs()[id])
    }

    /// The pages `[s, e)` were mapped with `perm` to frames that were free,
    /// one each, the leaf tables that they need and that did not exist were
    /// put on frames that were free, and nothing else changed in the page
    /// table or the pool.
    pub open spec fn pages_added(
        pre: &MemorySet,
        pre_frames: &FrameAllocator,
        s: usize,
        e: usize,
        perm: MapPermission,
        post: &MemorySet,
        post_frames: &FrameAllocator,
    ) -> bool {
        &&& post.wf()
        &&& post_frames.wf()
        &&& post.backed_by(post_frames)
        &&& post.root() == pre.root()
        &&& forall|vpn: usize| #[trigger]
            post.table().contains_key(vpn) <==> pre.table().contains_key(vpn) || s <= vpn < e
        &&& forall|vpn: usize| #[trigger]
            pre.table().contains_key(vpn) ==> post.table()[vpn] == pre.table()[vpn]
        &&& forall|vpn: usize|
            s <= vpn < e ==> (#[trigger] post.table()[vpn]).perm == perm && pre_frames.is_free(
                post.table()[vpn].ppn,
            )
        &&& forall|id: usize| #[trigger]
            post.dirs().contains_key(id) <==> pre.dirs().contains_key(id) || span_lo(s, e) <= id
                < span_hi(s, e)
        &&& forall|id: usize| #[trigger]
            pre.dirs().contains_key(id) ==> post.dirs()[id] == pre.dirs()[id]
        &&& forall|id: usize|
            span_lo(s, e) <= id < span_hi(s, e) && !pre.dirs().contains_key(id)
                ==> pre_frames.is_free(#[trigger] post.dirs()[id])
        &&& post_frames.free_count() == pre_frames.free_count() - pre.frames_needed(s, e)
        &&& post_frames.lower() == pre_frames.lower()
        &&& post_frames.upper() == pre_frames.upper()
        &&& forall|q: usize| #[trigger] post_frames.is_free(q) ==> pre_frames.is_free(q)
        &&& forall|q: usize| #[trigger] pre_frames.is_allocated(q) ==> post_frames.is_allocated(q)
        &&& forall|q: usize|
            pre_frames.is_free(q) && !#[trigger] post_frames.is_free(q) ==> backs_within(
                post.table(),
                s,
                e,
                q,
            ) || new_table_frame(pre.dirs(), post.dirs(), q)
        &&& forall|q: usize|
            #[trigger] post_frames.is_allocated(q) && !pre_frames.is_allocated(q) ==> backs_within(
                post.table(),
                s,
                e,
                q,
            ) || new_table_frame(pre.dirs(), post.dirs(), q)
    }

    /// The pages `[s, e)` were unmapped and their frames went back to the
    /// pool, and nothing else changed in the page table or the pool: the
    /// leaf tables stay.
    pub open spec fn pages_removed(
        pre: &MemorySet,
        pre_frames: &FrameAllocator,
        s: usize,
        e: usize,
        post: &MemorySet,
        post_frames: &FrameAllocator,
    ) -> bool {
        &&& post.wf()
        &&& post_frames.wf()
        &&& post.backed_by(post_frames)
        &&& post.root() == pre.root()
        &&& forall|vpn: usize| #[trigger]
            post.table().contains_key(vpn) <==> pre.table().contains_key(vpn) && !(s <= vpn < e)
        &&& forall|vpn: usize| #[trigger]
            post.table().contains_key(vpn) ==> post.table()[vpn] == pre.table()[vpn]
        &&& forall|vpn: usize|
            s <= vpn < e ==> post_frames.is_free((#[trigger] pre.table()[vpn]).ppn)
        &&& post.dirs() == pre.dirs()
        &&& post_frames.free_count() == pre_frames.free_count() + (e - s)
        &&& post_frames.lower() == pre_frames.lower()
        &&& post_frames.upper() == pre_frames.upper()
        &&& forall|q: usize| #[trigger] pre_frames.is_free(q) ==> post_frames.is_free(q)
        &&& forall|q: usize| #[trigger] post_frames.is_allocated(q) ==> pre_frames.is_allocated(q)
        &&& forall|q: usize|
            #[trigger] post_frames.is_free(q) && !pre_frames.is_free(q) ==> backs_within(
                pre.table(),
                s,
                e,
                q,
            )
        &&& forall|q: usize|
            pre_frames.is_allocated(q) && !#[trigger] post_frames.is_allocated(q) ==> backs_within(
                pre.table(),
                s,
                e,
                q,
            )
    }

    /// What a successful insertion of `[s, e)` with `perm` leaves behind.
    pub open spec fn inserted(
        pre: &MemorySet,
        pre_frames: &FrameAllocator,
        s: usize,
        e: usize,
        perm: MapPermission,
        post: &MemorySet,
        post_frames: &FrameAllocator,
    ) -> bool {
        &&& Self::pages_added(pre, pre_frames, s, e, perm, post, post_frames)
        &&& post.areas() == pre.areas().push(MapArea { start_vpn: s, end_vpn: e, perm })
    }

    /// What a successful deletion of the area `[s, e)` leaves behind.
    pub open spec fn deleted(
        pre: &MemorySet,
        pre_frames: &FrameAllocator,
        s: usize,
        e: usize,
        post: &MemorySet,
        post_frames: &FrameAllocator,
    ) -> bool {
        &&& Self::pages_removed(pre, pre_frames, s, e, post, post_frames)
        &&& post.areas() == pre.areas().remove(pre.index_of(s, e))
    }

    /// What growing the area that starts at `s` to end at `e` leaves behind.
    pub open spec fn grown(
        pre: &MemorySet,
        pre_frames: &FrameAllocator,
        s: usize,
        e: usize,
        post: &MemorySet,
        post_frames: &FrameAllocator,
    ) -> bool {
        let i = pre.index_at(s);
        let a = pre.areas()[i];
        &&& Self::pages_added(pre, pre_frames, a.end_vpn, e, a.perm, post, post_frames)
        &&& post.areas() == pre.areas().update(
            i,
            MapArea { start_vpn: s, end_vpn: e, perm: a.perm },
        )
    }

    /// What cutting the area that starts at `s` back to end at `e` leaves
    /// behind.
    pub open spec fn shrunk(
        pre: &MemorySet,
        pre_frames: &FrameAllocator,
        s: usize,
        e: usize,
        post: &MemorySet,
        post_frames: &FrameAllocator,
    ) -> bool {
        let i = pre.index_at(s);
        let a = pre.areas()[i];
        &&& Self::pages_removed(pre, pre_frames, e, a.end_vpn, post, post_frames)
        &&& post.areas() == pre.areas().update(
            i,
            MapArea { start_vpn: s, end_vpn: e, perm: a.perm },
        )
    }

    /// The error, if any, with which growing the area at `start_va` to end
    /// at `new_end_va` is refused.
    pub open spec fn append_refusal(
        &self,
        frames: &FrameAllocator,
        start_va: usize,
        new_end_va: usize,
    ) -> Option<MemError> {
        let s = floor_page(start_va);
        let e = ceil_page(new_end_va);
        let old_end = self.areas()[self.index_at(s)].end_vpn;
        if !self.has_area_at(s) {
            Some(MemError::NotMapped)
        } else if e < old_end {
            Some(MemError::InvalidArgument)
        } else if self.meets(old_end, e) {
            Some(MemError::RegionOverlap)
        } else if frames.free_count() < self.frames_needed(old_end, e) {
            Some(MemError::OutOfMemory)
        } else {
            None
        }
    }

    /// The error, if any, with which cutting the area at `start_va` back to
    /// end at `new_end_va` is refused.
    pub open spec fn shrink_refusal(&self, start_va: usize, new_end_va: usize) -> Option<MemError> {
        let s = floor_page(start_va);
        let e = ceil_page(new_end_va);
        let old_end = self.areas()[self.index_at(s)].end_vpn;
        if !self.has_area_at(s) {
            Some(MemError::NotMapped)
        } else if e < s || e > old_end {
            Some(MemError::InvalidArgument)
        } else {
            None
        }
    }

    /// The error, if any, with which an insertion of the byte range
    /// `[start_va, end_va)` is refused.
    pub open spec fn insert_refusal(
        &self,
        frames: &FrameAllocator,
        start_va: usize,
        end_va: usize,
    ) -> Option<MemError> {
        if start_va > end_va {
            Some(MemError::InvalidArgument)
        } else if self.meets(floor_page(start_va), ceil_page(end_va)) {
            Some(MemError::RegionOverlap)
        } else if frames.free_count() < self.frames_needed(
            floor_page(start_va),
            ceil_page(end_va),
        ) {
            Some(MemError::OutOfMemory)
        } else {
            None
        }
    }

    /// An address space without areas, its page table rooted at the given
    /// frame.
    pub fn new_bare(root_ppn: usize) -> (r: Self)
        ensures
            r.wf(),
            r.areas() == Seq::<MapArea>::empty(),
            r.table() == Map::<usize, PageTableEntry>::empty(),
            r.dirs() == Map::<usize, usize>::empty(),
            r.root() == root_ppn,
            forall|frames: &FrameAllocator| r.backed_by(frames),
    {
        MemorySet { page_table: PageTable::new(root_ppn), areas: Vec::new() }
    }

    /// The root token of the page table.
    pub fn token(&self) -> (r: usize)
        ensures
            r == PageTable::token_of(self.root()),
    {
        self.page_table.token()
    }

    /// The entry of a page, if it is mapped.
    pub fn translate(&self, vpn: usize) -> (r: Option<PageTableEntry>)
        ensures
            r == (if self.table().contains_key(vpn) {
                Some(self.table()[vpn])
            } else {
                None
            }),
    {
        self.page_table.translate(vpn)
    }

    /// Number of recorded areas.
    pub fn area_count(&self) -> (r: usize)
        ensures
            r == self.areas().len(),
    {
        self.areas.len()
    }

    /// The `i`-th recorded area.
    pub fn area(&self, i: usize) -> (r: MapArea)
        requires
            i < self.areas().len(),
        ensures
            r == self.areas()[i as int],
    {
        self.areas[i]
    }

    /// The frames that the `i`-th area owns, in the order of its pages.
    pub fn area_frames(&self, i: usize) -> (r: Vec<usize>)
        requires
            self.wf(),
            i < self.areas().len(),
        ensures
            r@.len() == self.areas()[i as int].end_vpn - self.areas()[i as int].start_vpn,
            forall|k: int|
                0 <= k < r@.len() ==> #[trigger] r@[k] == self.table()[(
                self.areas()[i as int].start_vpn + k) as usize].ppn,
    {
        let area = self.areas[i];
        let mut out: Vec<usize> = Vec::new();
        let mut vpn: usize = area.start_vpn;
        while vpn < area.end_vpn
            invariant
                self.wf(),
                i < self.areas().len(),
                area == self.areas()[i as int],
                area.start_vpn <= vpn <= area.end_vpn,
                out@.len() == vpn - area.start_vpn,
                forall|k: int|
                    0 <= k < out@.len() ==> #[trigger] out@[k] == self.table()[(area.start_vpn
                        + k) as usize].ppn,
            decreases area.end_vpn - vpn,
        {
            assert(self.area_holds(i as int, vpn));
            let entry = self.page_table.translate(vpn).unwrap();
            out.push(entry.ppn);
            vpn += 1;
        }
        out
    }

    /// Every page of `[s, e)` is mapped.
    pub open spec fn pages_mapped(&self, s: usize, e: usize) -> bool {
        forall|vpn: usize| s <= vpn < e ==> #[trigger] self.table().contains_key(vpn)
    }

    /// The frames behind the pages `[s, e)`, in the order of the pages.
    pub open spec fn frames_behind(&self, s: usize, e: usize) -> Seq<usize> {
        Seq::new(
            if s <= e {
                (e - s) as nat
            } else {
                0
            },
            |k: int| self.table()[(s + k) as usize].ppn,
        )
    }

    /// The frames behind the pages `[s, e)`, in the order of the pages, or
    /// `None` where one of the pages is not mapped.
    pub fn frames_of_pages(&self, s: usize, e: usize) -> (r: Option<Vec<usize>>)
        ensures
            r is Some <==> self.pages_mapped(s, e),
            r is Some ==> r->Some_0@ == self.frames_behind(s, e),
    {
        let mut out: Vec<usize> = Vec::new();
        let mut vpn: usize = s;
        while vpn < e
            invariant
                s <= vpn <= e || (vpn == s && e < s),
                out@.len() == vpn - s,
                forall|v: usize| s <= v < vpn ==> #[trigger] self.table().contains_key(v),
                forall|k: int|
                    0 <= k < out@.len() ==> #[trigger] out@[k] == self.table()[(s + k) as usize].ppn,
            decreases e - vpn,
        {
            match self.page_table.translate(vpn) {
                Some(entry) => {
                    out.push(entry.ppn);
                },
                None => {
                    assert(!self.table().contains_key(vpn));
                    return None;
                },
            }
            vpn += 1;
        }
        assert(out@ =~= self.frames_behind(s, e));
        Some(out)
    }

    /// Whether some area shares a page with `[s, e)`.
    pub fn overlaps(&self, s: usize, e: usize) -> (r: bool)
        ensures
            r == self.meets(s, e),
    {
        let mut i: usize = 0;
        while i < self.areas.len()
            invariant
                i <= self.areas.len(),
                forall|j: int| 0 <= j < i ==> !#[trigger] self.area_meets(j, s, e),
            decreases self.areas.len() - i,
        {
            let a = self.areas[i];
            if a.start_vpn < a.end_vpn && s < e && a.start_vpn < e && s < a.end_vpn {
                assert(self.area_meets(i as int, s, e));
                return true;
            }
            i += 1;
        }
        false
    }

    /// Whether the pool has the frames that mapping the pages `[s, e)`
    /// takes.
    fn can_map(&self, frames: &FrameAllocator, s: usize, e: usize) -> (r: bool)
        requires
            s <= e <= usize::MAX / PAGE_SIZE + 1,
            frames.wf(),
        ensures
            r == (frames.free_count() >= self.frames_needed(s, e)),
    {
        let lo: usize = s / TABLE_SPAN;
        let hi: usize = if s < e {
            (e - 1) / TABLE_SPAN + 1
        } else {
            lo
        };
        let mut missing: usize = 0;
        let mut id: usize = lo;
        while id < hi
            invariant
                lo <= id <= hi,
                missing == tables_missing(self.dirs(), lo as int, id as int),
                missing <= id - lo,
            decreases hi - id,
        {
            if !self.page_table.has_table(id) {
                missing += 1;
            }
            id += 1;
        }
        frames.has_free(e - s + missing)
    }

    /// Maps the pages `[s, e)` to fresh frames, one each, and takes a frame
    /// for each leaf table that they need and that does not exist yet.
    fn map_pages(&mut self, frames: &mut FrameAllocator, s: usize, e: usize, perm: MapPermission)
        requires
            s <= e,
            old(frames).wf(),
            old(frames).free_count() >= old(self).frames_needed(s, e),
            old(self).backed_by(old(frames)),
            forall|vpn: usize| s <= vpn < e ==> !old(self).table().contains_key(vpn),
            one_frame_per_page(old(self).table()),
            tables_sound(old(self).table(), old(self).dirs()),
        ensures
            final(self).areas() == old(self).areas(),
            final(self).root() == old(self).root(),
            final(frames).wf(),
            final(self).backed_by(final(frames)),
            forall|vpn: usize| #[trigger]
                final(self).table().contains_key(vpn) <==> old(self).table().contains_key(vpn) || s
                    <= vpn < e,
            forall|vpn: usize| #[trigger]
                old(self).table().contains_key(vpn) ==> final(self).table()[vpn] == old(
                    self).table()[vpn],
            forall|vpn: usize|
                s <= vpn < e ==> (#[trigger] final(self).table()[vpn]).perm == perm && old(
                    frames).is_free(final(self).table()[vpn].ppn),
            one_frame_per_page(final(self).table()),
            tables_sound(final(self).table(), final(self).dirs()),
            forall|id: usize| #[trigger]
                final(self).dirs().contains_key(id) <==> old(self).dirs().contains_key(id)
                    || span_lo(s, e) <= id < span_hi(s, e),
            forall|id: usize| #[trigger]
                old(self).dirs().contains_key(id) ==> final(self).dirs()[id] == old(
                    self).dirs()[id],
            forall|id: usize|
                span_lo(s, e) <= id < span_hi(s, e) && !old(self).dirs().contains_key(id) ==> old(
                    frames).is_free(#[trigger] final(self).dirs()[id]),
            final(frames).free_count() == old(frames).free_count() - old(self).frames_needed(s, e),
            final(frames).lower() == old(frames).lower(),
            final(frames).upper() == old(frames).upper(),
            forall|q: usize| #[trigger] final(frames).is_free(q) ==> old(frames).is_free(q),
            forall|q: usize| #[trigger]
                old(frames).is_allocated(q) ==> final(frames).is_allocated(q),
            forall|q: usize|
                old(frames).is_free(q) && !#[trigger] final(frames).is_free(q) ==> backs_within(
                    final(self).table(),
                    s,
                    e,
                    q,
                ) || new_table_frame(old(self).dirs(), final(self).dirs(), q),
            forall|q: usize|
                #[trigger] final(frames).is_allocated(q) && !old(frames).is_allocated(q)
                    ==> backs_within(final(self).table(), s, e, q) || new_table_frame(
                    old(self).dirs(),
                    final(self).dirs(),
                    q,
                ),
    {
        let mut vpn: usize = s;
        while vpn < e
            invariant
                s <= vpn <= e,
                self.areas() == old(self).areas(),
                self.root() == old(self).root(),
                frames.wf(),
                self.backed_by(frames),
                forall|v: usize| #[trigger]
                    self.table().contains_key(v) <==> old(self).table().contains_key(v) || s <= v
                        < vpn,
                forall|v: usize| #[trigger]
                    old(self).table().contains_key(v) ==> self.table()[v] == old(self).table()[v],
                forall|v: usize|
                    s <= v < vpn ==> (#[trigger] self.table()[v]).perm == perm && old(
                        frames).is_free(self.table()[v].ppn),
                one_frame_per_page(self.table()),
                tables_sound(self.table(), self.dirs()),
                forall|v: usize| s <= v < e ==> !old(self).table().contains_key(v),
                forall|id: usize| #[trigger]
                    self.dirs().contains_key(id) <==> old(self).dirs().contains_key(id) || span_lo(
                        s,
                        vpn,
                    ) <= id < span_hi(s, vpn),
                forall|id: usize| #[trigger]
                    old(self).dirs().contains_key(id) ==> self.dirs()[id] == old(self).dirs()[id],
                forall|id: usize|
                    span_lo(s, vpn) <= id < span_hi(s, vpn) && !old(self).dirs().contains_key(id)
                        ==> old(frames).is_free(#[trigger] self.dirs()[id]),
                frames.free_count() == old(frames).free_count() - old(self).frames_needed(s, vpn),
                old(frames).free_count() >= old(self).frames_needed(s, e),
                frames.lower() == old(frames).lower(),
                frames.upper() == old(frames).upper(),
                forall|q: usize| #[trigger] frames.is_free(q) ==> old(frames).is_free(q),
                forall|q: usize| #[trigger] old(frames).is_allocated(q) ==> frames.is_allocated(q),
                forall|q: usize|
                    old(frames).is_free(q) && !#[trigger] frames.is_free(q) ==> backs_within(
                        self.table(),
                        s,
                        vpn,
                        q,
                    ) || new_table_frame(old(self).dirs(), self.dirs(), q),
                forall|q: usize|
                    #[trigger] frames.is_allocated(q) && !old(frames).is_allocated(q)
                        ==> backs_within(self.table(), s, vpn, q) || new_table_frame(
                        old(self).dirs(),
                        self.dirs(),
                        q,
                    ),
            decreases e - vpn,
        {
            let ghost table_before = self.table();
            let ghost dirs_before = self.dirs();
            let ghost frames_before = *frames;
            let ghost next: usize = (vpn + 1) as usize;
            proof {
                lemma_missing_grows(
                    old(self).dirs(),
                    span_lo(s, e),
                    span_hi(s, next),
                    span_hi(s, e),
                );
                lemma_missing_grows(
                    old(self).dirs(),
                    span_lo(s, e),
                    span_hi(s, vpn),
                    span_hi(s, next),
                );
                assert(span_hi(s, next) == table_index(vpn) + 1);
                assert(span_hi(s, vpn) == table_index(vpn) || span_hi(s, vpn) == table_index(vpn)
                    + 1);
            }
            let ppn: usize = frames.alloc_frame().unwrap();
            let ghost frames_mid = *frames;
            let mapped = self.page_table.map(frames, vpn, ppn, perm);
            assert(mapped is Ok);
            proof {
                let index = table_index(vpn);
                assert forall|v1: usize, v2: usize|
                    v1 != v2 && #[trigger] self.table().contains_key(v1)
                        && #[trigger] self.table().contains_key(v2) implies self.table()[v1].ppn
                    != self.table()[v2].ppn by {
                    if v1 != vpn {
                        assert(table_before.contains_key(v1));
                    }
                    if v2 != vpn {
                        assert(table_before.contains_key(v2));
                    }
                }
                assert forall|v: usize| #[trigger]
                    self.table().contains_key(v) implies frames.is_allocated(
                    self.table()[v].ppn,
                ) by {
                    if v != vpn {
                        assert(table_before.contains_key(v));
                    }
                }
                assert forall|id: usize| #[trigger]
                    self.dirs().contains_key(id) implies frames.is_allocated(self.dirs()[id]) by {
                    if dirs_before.contains_key(id) {
                        assert(frames_before.is_allocated(dirs_before[id]));
                    }
                }
                assert(tables_sound(self.table(), self.dirs())) by {
                    assert forall|v: usize| #[trigger]
                        self.table().contains_key(v) implies self.dirs().contains_key(
                        table_index(v),
                    ) by {
                        if v != vpn {
                            assert(table_before.contains_key(v));
                        }
                    }
                    assert forall|v: usize, id: usize|
                        #[trigger] self.table().contains_key(v) && #[trigger] self.dirs().contains_key(
                            id,
                        ) implies self.table()[v].ppn != self.dirs()[id] by {
                        if v != vpn {
                            assert(table_before.contains_key(v));
                        }
                        if dirs_before.contains_key(id) {
                            assert(frames_before.is_allocated(dirs_before[id]));
                        }
                    }
                    assert forall|a: usize, b: usize|
                        a != b && #[trigger] self.dirs().contains_key(a)
                            && #[trigger] self.dirs().contains_key(b) implies self.dirs()[a]
                        != self.dirs()[b] by {
                        if dirs_before.contains_key(a) {
                            assert(frames_before.is_allocated(dirs_before[a]));
                        }
                        if dirs_before.contains_key(b) {
                            assert(frames_before.is_allocated(dirs_before[b]));
                        }
                    }
                }
                assert forall|q: usize|
                    (old(frames).is_free(q) && !frames.is_free(q)) || (frames.is_allocated(q)
                        && !old(frames).is_allocated(q)) implies backs_within(
                    self.table(),
                    s,
                    next,
                    q,
                ) || new_table_frame(old(self).dirs(), self.dirs(), q) by {
                    if q == ppn {
                        assert(backs(self.table(), vpn, q));
                    } else if !dirs_before.contains_key(index) && q == self.dirs()[index] {
                        assert(self.dirs().contains_key(index));
                        assert(!old(self).dirs().contains_key(index));
                    } else {
                        assert(frames_mid.is_free(q) == frames_before.is_free(q));
                        assert(frames.is_free(q) == frames_mid.is_free(q));
                        assert(frames_mid.is_allocated(q) == frames_before.is_allocated(q));
                        assert(frames.is_allocated(q) == frames_mid.is_allocated(q));
                        if backs_within(table_before, s, vpn, q) {
                            let v = choose|v: usize|
                                s <= v < vpn && #[trigger] backs(table_before, v, q);
                            assert(backs(self.table(), v, q));
                        } else {
                            assert(new_table_frame(old(self).dirs(), dirs_before, q));
                            let id = choose|id: usize| #[trigger]
                                dirs_before.contains_key(id) && !old(self).dirs().contains_key(id)
                                    && dirs_before[id] == q;
                            assert(self.dirs().contains_key(id));
                        }
                    }
                }
            }
            vpn += 1;
        }
    }

    /// Maps the byte range `[start_va, end_va)`, rounded outwards to whole
    /// pages, to fresh frames and records it as a new area. Besides one
    /// frame for each page, this takes one for each leaf table that the
    /// range needs and that does not exist yet. Nothing changes when the
    /// insertion is refused.
    pub fn insert_framed_area(
        &mut self,
        frames: &mut FrameAllocator,
        start_va: usize,
        end_va: usize,
        perm: MapPermission,
    ) -> (r: Result<(), MemError>)
        requires
            old(self).wf(),
            old(frames).wf(),
            old(self).backed_by(old(frames)),
        ensures
            match old(self).insert_refusal(old(frames), start_va, end_va) {
                Some(err) => r == Err::<(), MemError>(err) && *final(self) == *old(self) && *final(
                    frames) == *old(frames),
                None => r is Ok && Self::inserted(
                    old(self),
                    old(frames),
                    floor_page(start_va),
                    ceil_page(end_va),
                    perm,
                    final(self),
                    final(frames),
                ),
            },
    {
        if start_va > end_va {
            return Err(MemError::InvalidArgument);
        }
        let s: usize = page_floor(start_va);
        let e: usize = page_ceil(end_va);
        if self.overlaps(s, e) {
            return Err(MemError::RegionOverlap);
        }
        if !self.can_map(frames, s, e) {
            return Err(MemError::OutOfMemory);
        }
        proof {
            assert forall|vpn: usize| s <= vpn < e implies !self.table().contains_key(vpn) by {
                if self.table().contains_key(vpn) {
                    assert(self.covered(vpn));
                    let i = choose|i: int| self.area_holds(i, vpn);
                    assert(self.area_meets(i, s, e));
                }
            }
        }
        self.map_pages(frames, s, e, perm);
        let ghost mapped = self.table();
        self.areas.push(MapArea { start_vpn: s, end_vpn: e, perm });
        proof {
            let n = old(self).areas().len() as int;
            assert(self.table() == mapped);
            assert(self.areas()[n] == MapArea { start_vpn: s, end_vpn: e, perm });
            assert(self.areas() == old(self).areas().push(MapArea { start_vpn: s, end_vpn: e, perm }));
            assert forall|i: int, j: int| 0 <= i < j < self.areas().len() implies !ranges_meet(
                (#[trigger] self.areas()[i]).start_vpn,
                self.areas()[i].end_vpn,
                (#[trigger] self.areas()[j]).start_vpn,
                self.areas()[j].end_vpn,
            ) by {
                if j == n {
                    assert(!old(self).area_meets(i, s, e));
                } else {
                    assert(self.areas()[i] == old(self).areas()[i]);
                    assert(self.areas()[j] == old(self).areas()[j]);
                }
            }
            assert forall|vpn: usize| #[trigger]
                self.table().contains_key(vpn) <==> self.covered(vpn) by {
                if self.table().contains_key(vpn) {
                    if old(self).table().contains_key(vpn) {
                        assert(old(self).covered(vpn));
                        let i = choose|i: int| old(self).area_holds(i, vpn);
                        assert(self.area_holds(i, vpn));
                    } else {
                        assert(mapped.contains_key(vpn));
                        assert(s <= vpn < e);
                        assert(self.area_holds(n, vpn));
                    }
                }
                if self.covered(vpn) {
                    let i = choose|i: int| self.area_holds(i, vpn);
                    if i < n {
                        assert(old(self).area_holds(i, vpn));
                        assert(old(self).covered(vpn));
                        assert(old(self).table().contains_key(vpn));
                    }
                    assert(mapped.contains_key(vpn));
                }
            }
            assert forall|i: int, vpn: usize| #[trigger] self.area_holds(i, vpn) implies self.table().contains_key(vpn)
                && self.table()[vpn].perm == self.areas()[i].perm by {
                if i < n {
                    assert(old(self).area_holds(i, vpn));
                }
            }
        }
        Ok(())
    }
}

impl MemorySet {
    /// Index of the first area that starts at page `s`.
    pub fn find_start(&self, s: usize) -> (r: Option<usize>)
        ensures
            r is Some <==> self.has_area_at(s),
            r is Some ==> self.first_at(r->Some_0 as int, s) && self.index_at(s) == r->Some_0,
    {
        let mut i: usize = 0;
        while i < self.areas.len()
            invariant
                i <= self.areas.len(),
                forall|j: int| 0 <= j < i ==> !#[trigger] self.area_starts(j, s),
            decreases self.areas.len() - i,
        {
            if self.areas[i].start_vpn == s {
                proof {
                    assert(self.area_starts(i as int, s));
                    assert(self.first_at(i as int, s));
                    let k = self.index_at(s);
                    assert(self.first_at(k, s));
                    if k < i {
                        assert(self.area_starts(k, s));
                    }
                }
                return Some(i);
            }
            i += 1;
        }
        None
    }

    /// Index of the first area that is exactly `[s, e)`.
    pub fn find_exact(&self, s: usize, e: usize) -> (r: Option<usize>)
        ensures
            r is Some <==> self.has_exact(s, e),
            r is Some ==> self.first_exact(r->Some_0 as int, s, e) && self.index_of(s, e)
                == r->Some_0,
    {
        let mut i: usize = 0;
        while i < self.areas.len()
            invariant
                i <= self.areas.len(),
                forall|j: int| 0 <= j < i ==> !#[trigger] self.area_is(j, s, e),
            decreases self.areas.len() - i,
        {
            if self.areas[i].start_vpn == s && self.areas[i].end_vpn == e {
                proof {
                    assert(self.area_is(i as int, s, e));
                    assert(self.first_exact(i as int, s, e));
                    let k = self.index_of(s, e);
                    assert(self.first_exact(k, s, e));
                    if k < i {
                        assert(self.area_is(k, s, e));
                    }
                }
                return Some(i);
            }
            i += 1;
        }
        None
    }

    /// Unmaps the pages `[s, e)` and hands their frames back.
    fn unmap_pages(&mut self, frames: &mut FrameAllocator, s: usize, e: usize)
        requires
            s <= e,
            old(frames).wf(),
            old(self).backed_by(old(frames)),
            forall|vpn: usize| s <= vpn < e ==> old(self).table().contains_key(vpn),
            one_frame_per_page(old(self).table()),
            tables_sound(old(self).table(), old(self).dirs()),
        ensures
            final(self).areas() == old(self).areas(),
            final(self).root() == old(self).root(),
            final(self).dirs() == old(self).dirs(),
            final(frames).wf(),
            final(self).backed_by(final(frames)),
            forall|vpn: usize| #[trigger]
                final(self).table().contains_key(vpn) <==> old(self).table().contains_key(vpn)
                    && !(s <= vpn < e),
            forall|vpn: usize| #[trigger]
                final(self).table().contains_key(vpn) ==> final(self).table()[vpn] == old(
                    self).table()[vpn],
            forall|vpn: usize|
                s <= vpn < e ==> final(frames).is_free((#[trigger] old(self).table()[vpn]).ppn),
            final(frames).free_count() == old(frames).free_count() + (e - s),
            final(frames).lower() == old(frames).lower(),
            final(frames).upper() == old(frames).upper(),
            forall|q: usize| #[trigger] old(frames).is_free(q) ==> final(frames).is_free(q),
            forall|q: usize| #[trigger]
                final(frames).is_allocated(q) ==> old(frames).is_allocated(q),
            forall|q: usize|
                #[trigger] final(frames).is_free(q) && !old(frames).is_free(q) ==> backs_within(
                    old(self).table(),
                    s,
                    e,
                    q,
                ),
            forall|q: usize|
                old(frames).is_allocated(q) && !#[trigger] final(frames).is_allocated(q)
                    ==> backs_within(old(self).table(), s, e, q),
    {
        let mut vpn: usize = s;
        while vpn < e
            invariant
                s <= vpn <= e,
                self.areas() == old(self).areas(),
                self.root() == old(self).root(),
                frames.wf(),
                self.backed_by(frames),
                forall|v: usize| #[trigger]
                    self.table().contains_key(v) <==> old(self).table().contains_key(v) && !(s <= v
                        < vpn),
                forall|v: usize| #[trigger]
                    self.table().contains_key(v) ==> self.table()[v] == old(self).table()[v],
                forall|v: usize|
                    s <= v < vpn ==> frames.is_free((#[trigger] old(self).table()[v]).ppn),
                forall|v: usize| s <= v < e ==> old(self).table().contains_key(v),
                one_frame_per_page(old(self).table()),
                tables_sound(old(self).table(), old(self).dirs()),
                self.dirs() == old(self).dirs(),
                frames.free_count() == old(frames).free_count() + (vpn - s),
                frames.lower() == old(frames).lower(),
                frames.upper() == old(frames).upper(),
                forall|q: usize| #[trigger] old(frames).is_free(q) ==> frames.is_free(q),
                forall|q: usize| #[trigger] frames.is_allocated(q) ==> old(frames).is_allocated(q),
                forall|q: usize|
                    #[trigger] frames.is_free(q) && !old(frames).is_free(q) ==> backs_within(
                        old(self).table(),
                        s,
                        vpn,
                        q,
                    ),
                forall|q: usize|
                    old(frames).is_allocated(q) && !#[trigger] frames.is_allocated(q)
                        ==> backs_within(old(self).table(), s, vpn, q),
            decreases e - vpn,
        {
            let ghost table_before = self.table();
            let ghost frames_before = *frames;
            assert(table_before.contains_key(vpn));
            let ppn: usize = self.page_table.translate(vpn).unwrap().ppn;
            self.page_table.unmap(vpn);
            frames.dealloc_frame(ppn);
            proof {
                assert forall|v: usize| #[trigger] self.table().contains_key(v) implies frames.is_allocated(
                    self.table()[v].ppn,
                ) by {
                    assert(table_before.contains_key(v));
                    assert(old(self).table().contains_key(v));
                    assert(old(self).table().contains_key(vpn));
                }
                assert forall|q: usize|
                    (frames.is_free(q) && !old(frames).is_free(q)) || (old(frames).is_allocated(q)
                        && !frames.is_allocated(q)) implies backs_within(
                    old(self).table(),
                    s,
                    (vpn + 1) as usize,
                    q,
                ) by {
                    if q == ppn {
                        assert(backs(old(self).table(), vpn, q));
                    } else {
                        assert(frames.is_free(q) == frames_before.is_free(q));
                        assert(frames.is_allocated(q) == frames_before.is_allocated(q));
                        assert(backs_within(old(self).table(), s, vpn, q));
                        let v = choose|v: usize|
                            s <= v < vpn && #[trigger] backs(old(self).table(), v, q);
                        assert(backs(old(self).table(), v, q));
                    }
                }
            }
            vpn += 1;
        }
    }

    /// Tears down the area whose range is exactly the byte range
    /// `[start_va, end_va)` rounded outwards to whole pages: unmaps its pages,
    /// hands its frames back and forgets the area. Areas are neither split
    /// nor merged: without an exact match nothing changes.
    pub fn delete_framed_area(
        &mut self,
        frames: &mut FrameAllocator,
        start_va: usize,
        end_va: usize,
    ) -> (r: Result<(), MemError>)
        requires
            old(self).wf(),
            old(frames).wf(),
            old(self).backed_by(old(frames)),
        ensures
            if old(self).has_exact(floor_page(start_va), ceil_page(end_va)) {
                r is Ok && Self::deleted(
                    old(self),
                    old(frames),
                    floor_page(start_va),
                    ceil_page(end_va),
                    final(self),
                    final(frames),
                )
            } else {
                r == Err::<(), MemError>(MemError::NotMapped) && *final(self) == *old(self)
                    && *final(frames) == *old(frames)
            },
    {
        let s: usize = page_floor(start_va);
        let e: usize = page_ceil(end_va);
        let i: usize = match self.find_exact(s, e) {
            Some(i) => i,
            None => {
                return Err(MemError::NotMapped);
            },
        };
        proof {
            assert(self.area_is(i as int, s, e));
            assert(self.areas()[i as int].start_vpn <= self.areas()[i as int].end_vpn);
            assert forall|vpn: usize| s <= vpn < e implies self.table().contains_key(vpn) by {
                assert(self.area_holds(i as int, vpn));
            }
        }
        self.unmap_pages(frames, s, e);
        let ghost unmapped = self.table();
        self.areas.remove(i);
        proof {
            let before = old(self).areas();
            assert(self.table() == unmapped);
            assert(self.areas() == before.remove(i as int));
            assert forall|j: int| 0 <= j < self.areas().len() implies (#[trigger] self.areas()[j])
                == before[if j < i { j } else { j + 1 }] by {}
            assert forall|a: int, b: int| 0 <= a < b < self.areas().len() implies !ranges_meet(
                (#[trigger] self.areas()[a]).start_vpn,
                self.areas()[a].end_vpn,
                (#[trigger] self.areas()[b]).start_vpn,
                self.areas()[b].end_vpn,
            ) by {
                let a0 = if a < i { a } else { a + 1 };
                let b0 = if b < i { b } else { b + 1 };
                assert(self.areas()[a] == before[a0]);
                assert(self.areas()[b] == before[b0]);
            }
            assert forall|vpn: usize| #[trigger]
                self.table().contains_key(vpn) <==> self.covered(vpn) by {
                if self.table().contains_key(vpn) {
                    assert(old(self).table().contains_key(vpn));
                    assert(old(self).covered(vpn));
                    let j = choose|j: int| old(self).area_holds(j, vpn);
                    assert(j != i);
                    let j1 = if j < i { j } else { j - 1 };
                    assert(self.areas()[j1] == before[j]);
                    assert(self.area_holds(j1, vpn));
                }
                if self.covered(vpn) {
                    let j1 = choose|j: int| self.area_holds(j, vpn);
                    let j = if j1 < i { j1 } else { j1 + 1 };
                    assert(self.areas()[j1] == before[j]);
                    assert(old(self).area_holds(j, vpn));
                    assert(old(self).covered(vpn));
                    assert(old(self).table().contains_key(vpn));
                    if s <= vpn < e {
                        if j < i {
                            assert(!ranges_meet(
                                before[j].start_vpn,
                                before[j].end_vpn,
                                before[i as int].start_vpn,
                                before[i as int].end_vpn,
                            ));
                        } else {
                            assert(!ranges_meet(
                                before[i as int].start_vpn,
                                before[i as int].end_vpn,
                                before[j].start_vpn,
                                before[j].end_vpn,
                            ));
                        }
                    }
                    assert(unmapped.contains_key(vpn));
                }
            }
            assert forall|j1: int, vpn: usize| #[trigger] self.area_holds(j1, vpn) implies self.table().contains_key(vpn)
                && self.table()[vpn].perm == self.areas()[j1].perm by {
                let j = if j1 < i { j1 } else { j1 + 1 };
                assert(self.areas()[j1] == before[j]);
                assert(old(self).area_holds(j, vpn));
                assert(self.covered(vpn));
                assert(self.table().contains_key(vpn));
                assert(unmapped.contains_key(vpn));
                assert(unmapped[vpn] == old(self).table()[vpn]);
                assert(old(self).table()[vpn].perm == before[j].perm);
            }
            assert forall|v1: usize, v2: usize|
                v1 != v2 && #[trigger] self.table().contains_key(v1) && #[trigger] self.table().contains_key(v2)
                implies self.table()[v1].ppn != self.table()[v2].ppn by {
                assert(old(self).table().contains_key(v1));
                assert(old(self).table().contains_key(v2));
            }
        }
        Ok(())
    }

    /// Grows the first area that starts at the page of `start_va` so that it
    /// ends at `new_end_va`, rounded up to a whole page, mapping the added
    /// pages to fresh frames. Nothing changes when the growth is refused.
    pub fn append_to(
        &mut self,
        frames: &mut FrameAllocator,
        start_va: usize,
        new_end_va: usize,
    ) -> (r: Result<(), MemError>)
        requires
            old(self).wf(),
            old(frames).wf(),
            old(self).backed_by(old(frames)),
        ensures
            match old(self).append_refusal(old(frames), start_va, new_end_va) {
                Some(err) => r == Err::<(), MemError>(err) && *final(self) == *old(self) && *final(
                    frames) == *old(frames),
                None => r is Ok && Self::grown(
                    old(self),
                    old(frames),
                    floor_page(start_va),
                    ceil_page(new_end_va),
                    final(self),
                    final(frames),
                ),
            },
    {
        let s: usize = page_floor(start_va);
        let e: usize = page_ceil(new_end_va);
        let i: usize = match self.find_start(s) {
            Some(i) => i,
            None => {
                return Err(MemError::NotMapped);
            },
        };
        let area = self.areas[i];
        let old_end: usize = area.end_vpn;
        if e < old_end {
            return Err(MemError::InvalidArgument);
        }
        if self.overlaps(old_end, e) {
            return Err(MemError::RegionOverlap);
        }
        if !self.can_map(frames, old_end, e) {
            return Err(MemError::OutOfMemory);
        }
        proof {
            assert(self.area_starts(i as int, s));
            assert forall|vpn: usize| old_end <= vpn < e implies !self.table().contains_key(
                vpn,
            ) by {
                if self.table().contains_key(vpn) {
                    assert(self.covered(vpn));
                    let j = choose|j: int| self.area_holds(j, vpn);
                    assert(self.area_meets(j, old_end, e));
                }
            }
        }
        self.map_pages(frames, old_end, e, area.perm);
        let ghost mapped = self.table();
        self.areas.set(i, MapArea { start_vpn: s, end_vpn: e, perm: area.perm });
        proof {
            let before = old(self).areas();
            assert(self.table() == mapped);
            assert(self.areas() == before.update(
                i as int,
                MapArea { start_vpn: s, end_vpn: e, perm: area.perm },
            ));
            assert(before[i as int].start_vpn <= before[i as int].end_vpn);
            assert forall|a: int, b: int| 0 <= a < b < self.areas().len() implies !ranges_meet(
                (#[trigger] self.areas()[a]).start_vpn,
                self.areas()[a].end_vpn,
                (#[trigger] self.areas()[b]).start_vpn,
                self.areas()[b].end_vpn,
            ) by {
                assert(!ranges_meet(
                    before[a].start_vpn,
                    before[a].end_vpn,
                    before[b].start_vpn,
                    before[b].end_vpn,
                ));
                assert(!old(self).area_meets(a, old_end, e));
                assert(!old(self).area_meets(b, old_end, e));
            }
            assert forall|vpn: usize| #[trigger]
                self.table().contains_key(vpn) <==> self.covered(vpn) by {
                if self.table().contains_key(vpn) {
                    if old(self).table().contains_key(vpn) {
                        assert(old(self).covered(vpn));
                        let j = choose|j: int| old(self).area_holds(j, vpn);
                        assert(self.area_holds(j, vpn));
                    } else {
                        assert(mapped.contains_key(vpn));
                        assert(old_end <= vpn < e);
                        assert(self.area_holds(i as int, vpn));
                    }
                }
                if self.covered(vpn) {
                    let j = choose|j: int| self.area_holds(j, vpn);
                    if j != i || vpn < old_end {
                        assert(old(self).area_holds(j, vpn));
                        assert(old(self).covered(vpn));
                        assert(old(self).table().contains_key(vpn));
                    }
                    assert(mapped.contains_key(vpn));
                }
            }
            assert forall|j: int, vpn: usize| #[trigger] self.area_holds(j, vpn) implies self.table().contains_key(
            vpn) && self.table()[vpn].perm == self.areas()[j].perm by {
                assert(self.covered(vpn));
                assert(mapped.contains_key(vpn));
                if j != i || vpn < old_end {
                    assert(old(self).area_holds(j, vpn));
                    assert(old(self).table().contains_key(vpn));
                    assert(mapped[vpn] == old(self).table()[vpn]);
                } else {
                    assert(mapped[vpn].perm == area.perm);
                }
            }
        }
        Ok(())
    }

    /// Cuts the first area that starts at the page of `start_va` back so that
    /// it ends at `new_end_va`, rounded up to a whole page, unmapping the
    /// pages behind that and handing their frames back. Nothing changes when
    /// the cut is refused.
    pub fn shrink_to(
        &mut self,
        frames: &mut FrameAllocator,
        start_va: usize,
        new_end_va: usize,
    ) -> (r: Result<(), MemError>)
        requires
            old(self).wf(),
            old(frames).wf(),
            old(self).backed_by(old(frames)),
        ensures
            match old(self).shrink_refusal(start_va, new_end_va) {
                Some(err) => r == Err::<(), MemError>(err) && *final(self) == *old(self) && *final(
                    frames) == *old(frames),
                None => r is Ok && Self::shrunk(
                    old(self),
                    old(frames),
                    floor_page(start_va),
                    ceil_page(new_end_va),
                    final(self),
                    final(frames),
                ),
            },
    {
        let s: usize = page_floor(start_va);
        let e: usize = page_ceil(new_end_va);
        let i: usize = match self.find_start(s) {
            Some(i) => i,
            None => {
                return Err(MemError::NotMapped);
            },
        };
        let area = self.areas[i];
        let old_end: usize = area.end_vpn;
        if e < s || e > old_end {
            return Err(MemError::InvalidArgument);
        }
        proof {
            assert(self.area_starts(i as int, s));
            assert forall|vpn: usize| e <= vpn < old_end implies self.table().contains_key(
                vpn,
            ) by {
                assert(self.area_holds(i as int, vpn));
            }
        }
        self.unmap_pages(frames, e, old_end);
        let ghost unmapped = self.table();
        self.areas.set(i, MapArea { start_vpn: s, end_vpn: e, perm: area.perm });
        proof {
            let before = old(self).areas();
            assert(self.table() == unmapped);
            assert(self.areas() == before.update(
                i as int,
                MapArea { start_vpn: s, end_vpn: e, perm: area.perm },
            ));
            assert forall|a: int, b: int| 0 <= a < b < self.areas().len() implies !ranges_meet(
                (#[trigger] self.areas()[a]).start_vpn,
                self.areas()[a].end_vpn,
                (#[trigger] self.areas()[b]).start_vpn,
                self.areas()[b].end_vpn,
            ) by {
                assert(!ranges_meet(
                    before[a].start_vpn,
                    before[a].end_vpn,
                    before[b].start_vpn,
                    before[b].end_vpn,
                ));
            }
            assert forall|vpn: usize| #[trigger]
                self.table().contains_key(vpn) <==> self.covered(vpn) by {
                if self.table().contains_key(vpn) {
                    assert(old(self).table().contains_key(vpn));
                    assert(old(self).covered(vpn));
                    let j = choose|j: int| old(self).area_holds(j, vpn);
                    assert(self.area_holds(j, vpn));
                }
                if self.covered(vpn) {
                    let j = choose|j: int| self.area_holds(j, vpn);
                    assert(old(self).area_holds(j, vpn));
                    assert(old(self).covered(vpn));
                    assert(old(self).table().contains_key(vpn));
                    if e <= vpn < old_end {
                        assert(old(self).area_holds(i as int, vpn));
                        if j < i {
                            assert(!ranges_meet(
                                before[j].start_vpn,
                                before[j].end_vpn,
                                before[i as int].start_vpn,
                                before[i as int].end_vpn,
                            ));
                        } else if j > i {
                            assert(!ranges_meet(
                                before[i as int].start_vpn,
                                before[i as int].end_vpn,
                                before[j].start_vpn,
                                before[j].end_vpn,
                            ));
                        }
                    }
                    assert(unmapped.contains_key(vpn));
                }
            }
            assert forall|j: int, vpn: usize| #[trigger] self.area_holds(j, vpn) implies self.table().contains_key(
            vpn) && self.table()[vpn].perm == self.areas()[j].perm by {
                assert(old(self).area_holds(j, vpn));
                assert(self.covered(vpn));
                assert(unmapped.contains_key(vpn));
                assert(unmapped[vpn] == old(self).table()[vpn]);
            }
            assert forall|v1: usize, v2: usize|
                v1 != v2 && #[trigger] self.table().contains_key(v1) && #[trigger] self.table().contains_key(
                v2) implies self.table()[v1].ppn != self.table()[v2].ppn by {
                assert(old(self).table().contains_key(v1));
                assert(old(self).table().contains_key(v2));
            }
        }
        Ok(())
    }

    /// Cuts the byte range `[ptr, ptr + len)` of this address space into the
    /// pieces in which it lies in physical memory, one per page that it
    /// touches, in ascending order of address. `None` when the range runs
    /// past the end of the address space or touches a page that is not
    /// mapped.
    pub fn translated_segments(&self, ptr: usize, len: usize) -> (r: Option<Vec<Segment>>)
        ensures
            r is Some <==> self.buffer_mapped(ptr, len),
            r is Some ==> r->Some_0@.len() == segment_count(ptr, len) && forall|k: int|
                0 <= k < segment_count(ptr, len) ==> #[trigger] r->Some_0@[k] == segment_of(
                    self.table(),
                    ptr,
                    len,
                    k,
                ),
    {
        let mut out: Vec<Segment> = Vec::new();
        if len > usize::MAX - ptr {
            return None;
        }
        if len == 0 {
            return Some(out);
        }
        let end: usize = ptr + len;
        let first: usize = ptr / PAGE_SIZE;
        let last: usize = (end - 1) / PAGE_SIZE;
        let mut vpn: usize = first;
        while vpn <= last
            invariant
                len > 0,
                end == ptr + len,
                first == ptr / PAGE_SIZE,
                last == (end - 1) / (PAGE_SIZE as int),
                first <= vpn <= last + 1,
                segment_count(ptr, len) == last - first + 1,
                out@.len() == vpn - first,
                forall|k: int|
                    0 <= k < vpn - first ==> self.table().contains_key(
                        #[trigger] page_at(ptr, k),
                    ),
                forall|k: int|
                    0 <= k < vpn - first ==> #[trigger] out@[k] == segment_of(
                        self.table(),
                        ptr,
                        len,
                        k,
                    ),
            decreases last + 1 - vpn,
        {
            let ghost k = vpn - first;
            assert(page_at(ptr, k) == vpn);
            let entry = match self.page_table.translate(vpn) {
                Some(entry) => entry,
                None => {
                    return None;
                },
            };
            let base: usize = vpn * PAGE_SIZE;
            let lo: usize = if vpn == first {
                ptr
            } else {
                base
            };
            let hi: usize = if vpn == last {
                end
            } else {
                base + PAGE_SIZE
            };
            out.push(Segment { ppn: entry.ppn, offset: lo - base, len: hi - lo });
            vpn += 1;
        }
        Some(out)
    }
}

impl MemorySet {
    /// Replacing the end of the first area that starts at `s` leaves it the
    /// first area that starts at `s`.
    pub proof fn lemma_update_keeps_first(&self, s: usize, e: usize, post: &MemorySet)
        requires
            self.has_area_at(s),
            post.areas() == self.areas().update(
                self.index_at(s),
                MapArea { start_vpn: s, end_vpn: e, perm: self.areas()[self.index_at(s)].perm },
            ),
        ensures
            post.has_area_at(s),
            post.index_at(s) == self.index_at(s),
            post.areas()[post.index_at(s)].end_vpn == e,
    {
        let w = choose|i: int| self.area_starts(i, s);
        self.lemma_first_exists(s, w);
        let i = self.index_at(s);
        assert(self.first_at(i, s));
        assert(post.area_starts(i, s));
        assert forall|j: int| 0 <= j < i implies !#[trigger] post.area_starts(j, s) by {
            assert(!self.area_starts(j, s));
        }
        assert(post.first_at(i, s));
        let k = post.index_at(s);
        assert(post.first_at(k, s));
        if k < i {
            assert(post.area_starts(k, s));
        }
        if i < k {
            assert(post.area_starts(i, s));
        }
    }

    /// Where some area starts at `s`, there is a first one.
    pub proof fn lemma_first_exists(&self, s: usize, w: int)
        requires
            self.area_starts(w, s),
        ensures
            self.first_at(self.index_at(s), s),
            self.index_at(s) <= w,
        decreases w,
    {
        if forall|j: int| 0 <= j < w ==> !#[trigger] self.area_starts(j, s) {
            assert(self.first_at(w, s));
            let k = self.index_at(s);
            assert(self.first_at(k, s));
            if w < k {
                assert(self.area_starts(w, s));
            }
        } else {
            let j = choose|j: int| 0 <= j < w && self.area_starts(j, s);
            self.lemma_first_exists(s, j);
        }
    }
}

impl MemorySet {
    /// Where every page of `[s, e)` is mapped, every leaf table that the
    /// range needs exists.
    pub proof fn lemma_mapped_range_has_tables(&self, s: usize, e: usize)
        requires
            tables_sound(self.table(), self.dirs()),
            forall|vpn: usize| s <= vpn < e ==> self.table().contains_key(vpn),
        ensures
            forall|id: usize|
                span_lo(s, e) <= id < span_hi(s, e) ==> #[trigger] self.dirs().contains_key(id),
            0 <= span_lo(s, e),
            span_hi(s, e) <= usize::MAX,
            tables_missing(self.dirs(), span_lo(s, e), span_hi(s, e)) == 0,
    {
        assert forall|id: usize| span_lo(s, e) <= id < span_hi(s, e) implies #[trigger]
            self.dirs().contains_key(id) by {
            let v: usize = if id * TABLE_SPAN < s {
                s
            } else {
                (id * TABLE_SPAN) as usize
            };
            assert(s <= v < e);
            assert(table_index(v) == id);
            assert(self.table().contains_key(v));
        }
        lemma_none_missing(self.dirs(), span_lo(s, e), span_hi(s, e));
    }
}

/// Two ranges that share no page can be inserted one after the other into
/// an address space none of whose areas meets either of them, provided that
/// the pool has the frames that both need: one for every page and one for
/// every leaf table that does not exist yet. Afterwards every page of either
/// range is mapped to a frame of the pool that is in use, and no two pages
/// share a frame.
pub proof fn lemma_disjoint_inserts_succeed(
    s0: &MemorySet,
    f0: &FrameAllocator,
    a_start: usize,
    a_end: usize,
    a_perm: MapPermission,
    s1: &MemorySet,
    f1: &FrameAllocator,
    b_start: usize,
    b_end: usize,
    b_perm: MapPermission,
    s2: &MemorySet,
    f2: &FrameAllocator,
)
    requires
        s0.wf(),
        f0.wf(),
        s0.backed_by(f0),
        a_start <= a_end,
        b_start <= b_end,
        !ranges_meet(floor_page(a_start), ceil_page(a_end), floor_page(b_start), ceil_page(b_end)),
        !s0.meets(floor_page(a_start), ceil_page(a_end)),
        !s0.meets(floor_page(b_start), ceil_page(b_end)),
        f0.free_count() >= s0.frames_needed(floor_page(a_start), ceil_page(a_end))
            + s0.frames_needed(floor_page(b_start), ceil_page(b_end)),
        s0.insert_refusal(f0, a_start, a_end) is None ==> MemorySet::inserted(
            s0,
            f0,
            floor_page(a_start),
            ceil_page(a_end),
            a_perm,
            s1,
            f1,
        ),
        s1.insert_refusal(f1, b_start, b_end) is None ==> MemorySet::inserted(
            s1,
            f1,
            floor_page(b_start),
            ceil_page(b_end),
            b_perm,
            s2,
            f2,
        ),
    ensures
        s0.insert_refusal(f0, a_start, a_end) is None,
        s1.insert_refusal(f1, b_start, b_end) is None,
        forall|vpn: usize|
            (floor_page(a_start) <= vpn < ceil_page(a_end) || floor_page(b_start) <= vpn
                < ceil_page(b_end)) ==> #[trigger] s2.resolves_in(f2, vpn),
        one_frame_per_page(s2.table()),
{
    let n = s0.areas().len() as int;
    assert(floor_page(a_start) <= ceil_page(a_end));
    assert(floor_page(b_start) <= ceil_page(b_end));
    lemma_missing_grows(
        s0.dirs(),
        span_lo(floor_page(b_start), ceil_page(b_end)),
        span_lo(floor_page(b_start), ceil_page(b_end)),
        span_hi(floor_page(b_start), ceil_page(b_end)),
    );
    assert(s0.insert_refusal(f0, a_start, a_end) is None);
    lemma_missing_shrinks(
        s0.dirs(),
        s1.dirs(),
        span_lo(floor_page(b_start), ceil_page(b_end)),
        span_hi(floor_page(b_start), ceil_page(b_end)),
    );
    assert forall|i: int| !s1.area_meets(i, floor_page(b_start), ceil_page(b_end)) by {
        if 0 <= i < n {
            assert(s1.areas()[i] == s0.areas()[i]);
            assert(!s0.area_meets(i, floor_page(b_start), ceil_page(b_end)));
        }
    }
    assert forall|vpn: usize|
        (floor_page(a_start) <= vpn < ceil_page(a_end) || floor_page(b_start) <= vpn < ceil_page(
            b_end,
        )) implies #[trigger] s2.resolves_in(f2, vpn) by {
        if floor_page(a_start) <= vpn < ceil_page(a_end) {
            assert(s1.table().contains_key(vpn));
        }
        assert(s2.table().contains_key(vpn));
        assert(f2.is_allocated(s2.table()[vpn].ppn));
    }
}

/// Once an area is deleted, none of its pages is mapped any more, their
/// frames are free, and a range of the same pages can be inserted again:
/// nothing is in its way, the leaf tables are still there, and the frames
/// that came back suffice.
pub proof fn lemma_deleted_range_is_free_again(
    s0: &MemorySet,
    f0: &FrameAllocator,
    start_va: usize,
    end_va: usize,
    s1: &MemorySet,
    f1: &FrameAllocator,
)
    requires
        s0.wf(),
        f0.wf(),
        s0.backed_by(f0),
        start_va <= end_va,
        s0.has_exact(floor_page(start_va), ceil_page(end_va)),
        MemorySet::deleted(s0, f0, floor_page(start_va), ceil_page(end_va), s1, f1),
    ensures
        forall|vpn: usize|
            floor_page(start_va) <= vpn < ceil_page(end_va) ==> !#[trigger] s1.table().contains_key(
                vpn,
            ),
        forall|vpn: usize|
            floor_page(start_va) <= vpn < ceil_page(end_va) ==> f1.is_free(
                (#[trigger] s0.table()[vpn]).ppn,
            ),
        s1.insert_refusal(f1, start_va, end_va) is None,
{
    let s = floor_page(start_va);
    let e = ceil_page(end_va);
    let held = choose|i: int| s0.area_is(i, s, e);
    assert forall|vpn: usize| s <= vpn < e implies s0.table().contains_key(vpn) by {
        assert(s0.area_holds(held, vpn));
    }
    s0.lemma_mapped_range_has_tables(s, e);
    assert forall|i: int| !s1.area_meets(i, s, e) by {
        if s1.area_meets(i, s, e) {
            let vpn = if s1.areas()[i].start_vpn < s {
                s
            } else {
                s1.areas()[i].start_vpn
            };
            assert(s1.area_holds(i, vpn));
            assert(s1.covered(vpn));
            assert(s1.table().contains_key(vpn));
        }
    }
}

impl MemorySet {
    /// No frame serves both this address space and the other, be it for a
    /// page or for a leaf table.
    pub open spec fn shares_no_frame(&self, other: &MemorySet) -> bool {
        &&& forall|v1: usize, v2: usize|
            #[trigger] self.table().contains_key(v1) && #[trigger] other.table().contains_key(v2)
                ==> self.table()[v1].ppn != other.table()[v2].ppn
        &&& forall|v1: usize, id: usize|
            #[trigger] self.table().contains_key(v1) && #[trigger] other.dirs().contains_key(id)
                ==> self.table()[v1].ppn != other.dirs()[id]
        &&& forall|id: usize, v2: usize|
            #[trigger] self.dirs().contains_key(id) && #[trigger] other.table().contains_key(v2)
                ==> self.dirs()[id] != other.table()[v2].ppn
        &&& forall|a: usize, b: usize|
            #[trigger] self.dirs().contains_key(a) && #[trigger] other.dirs().contains_key(b)
                ==> self.dirs()[a] != other.dirs()[b]
    }
}

/// Mapping pages in one address space leaves every other address space on
/// the same pool as it was: its frames stay in use, and it still shares no
/// frame with the one that changed.
pub proof fn lemma_adding_pages_spares_others(
    pre: &MemorySet,
    pre_frames: &FrameAllocator,
    s: usize,
    e: usize,
    perm: MapPermission,
    post: &MemorySet,
    post_frames: &FrameAllocator,
    other: &MemorySet,
)
    requires
        MemorySet::pages_added(pre, pre_frames, s, e, perm, post, post_frames),
        other.backed_by(pre_frames),
        pre.shares_no_frame(other),
    ensures
        other.backed_by(post_frames),
        post.shares_no_frame(other),
{
    assert forall|v1: usize, v2: usize|
        #[trigger] post.table().contains_key(v1) && #[trigger] other.table().contains_key(
            v2,
        ) implies post.table()[v1].ppn != other.table()[v2].ppn by {
        if pre.table().contains_key(v1) {
            assert(post.table()[v1] == pre.table()[v1]);
        } else {
            assert(s <= v1 < e);
            assert(pre_frames.is_free(post.table()[v1].ppn));
            assert(pre_frames.is_allocated(other.table()[v2].ppn));
        }
    }
}

/// Unmapping pages in one address space leaves every other address space on
/// the same pool as it was, provided the two shared no frame: its frames
/// stay in use, and the two still share none.
pub proof fn lemma_removing_pages_spares_others(
    pre: &MemorySet,
    pre_frames: &FrameAllocator,
    s: usize,
    e: usize,
    post: &MemorySet,
    post_frames: &FrameAllocator,
    other: &MemorySet,
)
    requires
        MemorySet::pages_removed(pre, pre_frames, s, e, post, post_frames),
        other.backed_by(pre_frames),
        pre.shares_no_frame(other),
    ensures
        other.backed_by(post_frames),
        post.shares_no_frame(other),
{
    assert forall|v2: usize| #[trigger] other.table().contains_key(v2) implies post_frames.is_allocated(
    other.table()[v2].ppn) by {
        let q = other.table()[v2].ppn;
        assert(pre_frames.is_allocated(q));
        if !post_frames.is_allocated(q) {
            assert(backs_within(pre.table(), s, e, q));
            let v = choose|v: usize| s <= v < e && #[trigger] backs(pre.table(), v, q);
            assert(pre.table().contains_key(v));
        }
    }
    assert forall|v1: usize, v2: usize|
        #[trigger] post.table().contains_key(v1) && #[trigger] other.table().contains_key(
            v2,
        ) implies post.table()[v1].ppn != other.table()[v2].ppn by {
        assert(pre.table().contains_key(v1));
        assert(post.table()[v1] == pre.table()[v1]);
    }
}

/// A piece of a buffer that lies within one physical frame: `len` bytes from
/// byte `offset` of frame `ppn`.
#[derive(Clone, Copy, Debug, PartialEq, Eq, Structural)]
pub struct Segment {
    pub ppn: usize,
    pub offset: usize,
    pub len: usize,
}

/// Number of pages that the byte range `[ptr, ptr + len)` touches.
pub open spec fn segment_count(ptr: usize, len: usize) -> int {
    if len == 0 {
        0
    } else {
        (ptr + len - 1) / (PAGE_SIZE as int) - ptr / PAGE_SIZE + 1
    }
}

/// The `k`-th page that a buffer at `ptr` touches.
pub open spec fn page_at(ptr: usize, k: int) -> usize {
    (ptr / PAGE_SIZE + k) as usize
}

/// The `k`-th piece of the byte range `[ptr, ptr + len)`: the part of it
/// that lies in the `k`-th page that it touches.
pub open spec fn segment_of(
    table: Map<usize, PageTableEntry>,
    ptr: usize,
    len: usize,
    k: int,
) -> Segment {
    let vpn = page_at(ptr, k);
    let base = vpn * PAGE_SIZE;
    let lo = if k == 0 {
        ptr as int
    } else {
        base
    };
    let hi = if k == segment_count(ptr, len) - 1 {
        ptr + len
    } else {
        base + PAGE_SIZE
    };
    Segment { ppn: table[vpn].ppn, offset: (lo - base) as usize, len: (hi - lo) as usize }
}

impl MemorySet {
    /// The byte range `[ptr, ptr + len)` lies within the address space and
    /// every page that it touches is mapped.
    pub open spec fn buffer_mapped(&self, ptr: usize, len: usize) -> bool {
        &&& ptr + len <= usize::MAX
        &&& forall|k: int|
            0 <= k < segment_count(ptr, len) ==> self.table().contains_key(
                #[trigger] page_at(ptr, k),
            )
    }
}

/// The pieces of a buffer are not empty, each stays within its page, each
/// but the first starts at the beginning of its page, each but the last runs
/// to the end of its page, and together they are as long as the buffer
/// from its first byte to the end of the piece's page.
pub proof fn lemma_segments_tile(table: Map<usize, PageTableEntry>, ptr: usize, len: usize, k: int)
    requires
        ptr + len <= usize::MAX,
        0 <= k < segment_count(ptr, len),
    ensures
        segment_of(table, ptr, len, k).len > 0,
        segment_of(table, ptr, len, k).offset + segment_of(table, ptr, len, k).len <= PAGE_SIZE,
        k > 0 ==> segment_of(table, ptr, len, k).offset == 0,
        k == 0 ==> segment_of(table, ptr, len, k).offset == ptr % PAGE_SIZE,
        k < segment_count(ptr, len) - 1 ==> segment_of(table, ptr, len, k).offset + segment_of(
            table,
            ptr,
            len,
            k,
        ).len == PAGE_SIZE,
        k == segment_count(ptr, len) - 1 ==> page_at(ptr, k) * PAGE_SIZE + segment_of(
            table,
            ptr,
            len,
            k,
        ).offset + segment_of(table, ptr, len, k).len == ptr + len,
{
}

} // verus!
