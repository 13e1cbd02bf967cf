//! Physical frame allocator over a bitmap, plus the virtual-page cursor used
//! to hand out runs of freshly mapped kernel pages.
use vstd::prelude::*;
use crate::bitmap::Bitmap;
use crate::paging::{PageTable, vpn};

verus! {

/// Size of a frame and of a page.
pub const PAGE_SIZE: usize = 4096;

/// First virtual address handed out by `alloc_multiple`.
pub const KER_LOWER_BOUND: usize = 0xc0000000;

/// Physical addresses are below 2^52.
pub open spec fn phys_limit() -> int {
    0x10_0000_0000_0000
}

/// A 4 KiB aligned physical address that a page-table entry can hold.
pub open spec fn is_frame(p: int) -> bool {
    p % 4096 == 0 && 0 <= p < phys_limit()
}

/// Every frame that `after` holds and `before` did not holds a table of
/// `pt` or backs one of the `cnt` pages from `base`: nothing was taken for
/// anything else.
pub open spec fn frames_accounted(
    before: FrameAllocator,
    after: FrameAllocator,
    pt: PageTable,
    base: int,
    cnt: int,
) -> bool {
    forall|q: int|
        #[trigger] after.owns(q) && !before.owns(q) ==> pt.table_frames().contains(q as u64) || exists|k: int|
            0 <= k < cnt && #[trigger] pt.translation(base + 4096 * k) == Some(q as u64)
}

/// Virtual addresses are below 2^48.
pub open spec fn virt_limit() -> int {
    0x1_0000_0000_0000
}

/// `cnt` pages from `cur` fit below the virtual limit and in a `usize`.
pub open spec fn range_fits(cur: int, cnt: int) -> bool {
    cur + 4096 * cnt <= usize::MAX && cur + 4096 * cnt <= virt_limit()
}

proof fn lemma_page_vpn(cur: int, j: int)
    requires
        cur % 4096 == 0,
        0 <= cur,
        0 <= j,
        cur + 4096 * j < virt_limit(),
    ensures
        vpn(cur + 4096 * j) == cur / 4096 + j,
{
    assert((cur + 4096 * j) / 4096 == cur / 4096 + j) by (nonlinear_arith)
        requires
            cur % 4096 == 0,
            0 <= cur,
            0 <= j,
    ;
}

/// A frame stays with its caller until it is given back: once `p` is
/// handed out, a later `alloc_frame`, which only returns frames not handed
/// out, returns some other frame; only `dealloc(p)` makes `p` free again.
pub proof fn lemma_alloc_never_repeats(fa: FrameAllocator, p: int, q: int)
    requires
        fa.owns(p),
        !fa.owns(q),
    ensures
        p != q,
{
}

/// First frame handed out for the region `[base, base + len)`: the page
/// boundary after the bitmap of `len / 4096` bits at `base`.
pub open spec fn first_frame(base: int, len: int) -> int {
    ((base + len / 32768) / 4096 + 1) * 4096
}

/// Number of frames managed for that region: as many as the bitmap has
/// bits, and no more than fit between the first frame and the region's end.
pub open spec fn frame_total(base: int, len: int) -> int {
    let bits = len / 4096 / 8 * 8;
    let room = if first_frame(base, len) <= base + len {
        (base + len - first_frame(base, len)) / 4096
    } else {
        0
    };
    if bits < room {
        bits
    } else {
        room
    }
}

/// Owns the frames `[available_base, upper)`; bit `k` of the map is set iff
/// frame `available_base + 4096 * k` is held by some caller.
pub struct FrameAllocator {
    available_base: usize,
    upper: usize,
    freemap: Bitmap,
    free_address: usize,
}

impl FrameAllocator {
    pub closed spec fn wf(self) -> bool {
        &&& self.freemap.wf()
        &&& self.available_base % 4096 == 0
        &&& self.upper < phys_limit()
        &&& self.upper + 4096 <= usize::MAX
        &&& self.free_address % 4096 == 0
    }

    /// Number of frames this allocator can hand out.
    pub closed spec fn frame_count(self) -> nat {
        let by_range = if self.available_base <= self.upper {
            ((self.upper - self.available_base) / 4096) as nat
        } else {
            0
        };
        if self.freemap@.len() < by_range {
            self.freemap@.len()
        } else {
            by_range
        }
    }

    /// `p` is one of the frames this allocator manages.
    pub closed spec fn in_range(self, p: int) -> bool {
        &&& self.available_base <= p
        &&& p < self.available_base + 4096 * self.frame_count()
        &&& (p - self.available_base) % 4096 == 0
    }

    /// `p` is a managed frame that is currently handed out.
    pub closed spec fn owns(self, p: int) -> bool {
        self.in_range(p) && self.freemap@[(p - self.available_base) / 4096]
    }

    /// Every managed frame is handed out.
    pub open spec fn full(self) -> bool {
        forall|p: int| self.in_range(p) ==> self.owns(p)
    }

    /// Next virtual address that `alloc_multiple` hands out.
    pub closed spec fn cursor(self) -> int {
        self.free_address as int
    }

    /// Same managed frames as `other`.
    pub open spec fn same_layout(self, other: FrameAllocator) -> bool {
        forall|p: int| self.in_range(p) == other.in_range(p)
    }

    /// An allocator for the RAM region `[base, base + len_bytes)`: a bitmap of
    /// one bit per 4 KiB of the region sits at `base`, and frames are handed
    /// out from the first page boundary after it. Nothing is handed out yet.
    pub fn new(base: usize, len_bytes: usize) -> (r: FrameAllocator)
        requires
            base + len_bytes < phys_limit(),
            base + len_bytes + PAGE_SIZE <= usize::MAX,
        ensures
            r.wf(),
            forall|p: int| !r.owns(p),
            forall|p: int| #[trigger] r.in_range(p) ==> is_frame(p),
            forall|p: int|
                #[trigger] r.in_range(p) == (first_frame(base as int, len_bytes as int) <= p < first_frame(
                    base as int,
                    len_bytes as int,
                ) + 4096 * frame_total(base as int, len_bytes as int) && (p - first_frame(
                    base as int,
                    len_bytes as int,
                )) % 4096 == 0),
            r.cursor() == KER_LOWER_BOUND,
    {
        let available_base = ((base + len_bytes / (4096 * 8)) / 4096 + 1) * 4096;
        assert(available_base % 4096 == 0);
        let r = FrameAllocator {
            freemap: Bitmap::new(len_bytes / 4096),
            available_base,
            upper: base + len_bytes,
            free_address: KER_LOWER_BOUND,
        };
        proof {
            r.lemma_frames();
        }
        r
    }

    proof fn lemma_run_accounted(self, orig: FrameAllocator, pt: PageTable, cur: int, cnt: int, got: Seq<usize>, k: int)
        requires
            0 <= k <= cnt,
            got.len() >= k,
            forall|q: int|
                #[trigger] self.owns(q) && !orig.owns(q) ==> pt.table_frames().contains(q as u64) || exists|j: int|
                    0 <= j < k && got[j] == q,
            forall|j: int| 0 <= j < k ==> #[trigger] pt.translation(cur + 4096 * j) == Some(got[j] as u64),
        ensures
            frames_accounted(orig, self, pt, cur, cnt),
    {
        assert forall|q: int| #[trigger] self.owns(q) && !orig.owns(q) implies pt.table_frames().contains(q as u64)
            || exists|j: int| 0 <= j < cnt && #[trigger] pt.translation(cur + 4096 * j) == Some(q as u64) by {
            if !pt.table_frames().contains(q as u64) {
                let j = choose|j: int| 0 <= j < k && got[j] == q;
                assert(pt.translation(cur + 4096 * j) == Some(got[j] as u64));
            }
        }
    }

    /// A `get_entry` step keeps the run's accounting: frames it took hold tables.
    proof fn lemma_accounted_step(self, start: FrameAllocator, orig: FrameAllocator, pt0: PageTable, pt1: PageTable)
        requires
            frames_accounted(start, self, pt1, 0, 0),
            forall|j: int|
                0 <= j < pt0.table_frames().len() ==> #[trigger] pt1.table_frames()[j] == pt0.table_frames()[j],
            pt1.table_frames().len() >= pt0.table_frames().len(),
        ensures
            forall|q: int|
                #[trigger] self.owns(q) && !start.owns(q) ==> pt1.table_frames().contains(q as u64),
            forall|q: int|
                pt0.table_frames().contains(q as u64) ==> #[trigger] pt1.table_frames().contains(q as u64),
    {
        assert forall|q: int| #[trigger] self.owns(q) && !start.owns(q) implies pt1.table_frames().contains(q as u64) by {
            if !pt1.table_frames().contains(q as u64) {
                assert(exists|k: int| 0 <= k < 0 && #[trigger] pt1.translation(0 + 4096 * k) == Some(q as u64));
            }
        }
        assert forall|q: int| pt0.table_frames().contains(q as u64) implies #[trigger] pt1.table_frames().contains(q as u64) by {
            let j = choose|j: int| 0 <= j < pt0.table_frames().len() && pt0.table_frames()[j] == q as u64;
            assert(pt1.table_frames()[j] == q as u64);
        }
    }

    pub proof fn lemma_frames(self)
        requires
            self.wf(),
        ensures
            forall|p: int| #[trigger] self.in_range(p) ==> is_frame(p) && p + 4096 <= usize::MAX,
    {
        assert forall|p: int| #[trigger] self.in_range(p) implies is_frame(p) && p + 4096 <= usize::MAX by {
            assert(self.frame_count() <= (self.upper - self.available_base) / 4096);
            assert(4096 * self.frame_count() <= self.upper - self.available_base) by (nonlinear_arith)
                requires
                    self.frame_count() <= (self.upper - self.available_base) / 4096,
                    self.available_base <= self.upper,
            ;
        }
    }

    /// Whether frame `addr` is currently handed out.
    pub fn is_allocated(&self, addr: usize) -> (r: bool)
        requires
            self.wf(),
        ensures
            r == self.owns(addr as int),
    {
        if addr < self.available_base || (addr - self.available_base) % 4096 != 0 {
            return false;
        }
        let pos = (addr - self.available_base) / 4096;
        if pos >= self.freemap.len() || self.upper < self.available_base
            || pos >= (self.upper - self.available_base) / 4096 {
            return false;
        }
        self.freemap.get(pos)
    }

    /// Hands out the lowest free frame; `None`, with nothing changed, when
    /// every frame is handed out.
    pub fn alloc_frame(&mut self) -> (r: Option<usize>)
        requires
            old(self).wf(),
        ensures
            final(self).wf(),
            final(self).same_layout(*old(self)),
            final(self).cursor() == old(self).cursor(),
            match r {
                Some(p) => {
                    &&& old(self).in_range(p as int)
                    &&& !old(self).owns(p as int)
                    &&& forall|q: int| #[trigger] old(self).in_range(q) && q < p ==> old(self).owns(q)
                    &&& is_frame(p as int)
                    &&& forall|q: int| #[trigger] final(self).owns(q) == (old(self).owns(q) || q == p)
                },
                None => {
                    &&& old(self).full()
                    &&& forall|q: int| #[trigger] final(self).owns(q) == old(self).owns(q)
                },
            },
    {
        proof {
            self.lemma_frames();
        }
        let ghost before = *self;
        match self.freemap.set_first_unused() {
            None => {
                assert forall|p: int| before.in_range(p) implies before.owns(p) by {
                    assert(0 <= (p - before.available_base) / 4096 < before.freemap@.len());
                }
                assert forall|q: int| #[trigger] self.owns(q) == before.owns(q) by {}
                None
            },
            Some(pos) => {
                if self.upper < self.available_base
                    || pos >= (self.upper - self.available_base) / 4096 {
                    self.freemap.set(pos, false);
                    assert(self.freemap@ =~= before.freemap@);
                    assert forall|p: int| before.in_range(p) implies before.owns(p) by {
                        let k = (p - before.available_base) / 4096;
                        assert(k < pos);
                    }
                    assert forall|q: int| #[trigger] self.owns(q) == before.owns(q) by {}
                    return None;
                }
                let ret = self.available_base + 4096 * pos;
                assert((ret - self.available_base) / 4096 == pos as int);
                assert forall|q: int| #[trigger] before.in_range(q) && q < ret implies before.owns(q) by {
                    let k = (q - before.available_base) / 4096;
                    assert(k < pos);
                }
                assert forall|q: int| #[trigger] self.owns(q) == (before.owns(q) || q == ret) by {
                    if self.in_range(q) && q != ret {
                        let k = (q - self.available_base) / 4096;
                        assert(k != pos) by {
                            if k == pos {
                                assert(q == self.available_base + 4096 * k);
                            }
                        }
                    }
                }
                Some(ret)
            },
        }
    }

    /// Takes back frame `addr`, which must be handed out.
    pub fn dealloc(&mut self, addr: usize)
        requires
            old(self).wf(),
            old(self).owns(addr as int),
        ensures
            final(self).wf(),
            final(self).same_layout(*old(self)),
            final(self).cursor() == old(self).cursor(),
            forall|q: int| #[trigger] final(self).owns(q) == (old(self).owns(q) && q != addr),
    {
        let ghost before = *self;
        let pos = (addr - self.available_base) / 4096;
        self.freemap.set(pos, false);
        assert forall|q: int| #[trigger] self.owns(q) == (before.owns(q) && q != addr) by {
            if self.in_range(q) && q != addr {
                let k = (q - self.available_base) / 4096;
                assert(k != pos) by {
                    if k == pos {
                        assert(q == self.available_base + 4096 * k);
                        assert(addr == self.available_base + 4096 * pos);
                    }
                }
            }
        }
    }

    /// Reserves `cnt` pages at the cursor and backs each with a fresh frame.
    /// `None` when the run would pass the end of the virtual address space,
    /// when one of its pages is already mapped (nothing changes then), or when
    /// frames ran out part way (the cursor has then moved past the run).
    pub fn alloc_multiple(&mut self, pt: &mut PageTable, cnt: usize) -> (r: Option<usize>)
        requires
            old(self).wf(),
            old(pt).wf(),
            old(pt).backed_by(*old(self)),
        ensures
            final(self).wf(),
            final(pt).wf(),
            final(pt).backed_by(*final(self)),
            final(self).same_layout(*old(self)),
            final(self).cursor() >= old(self).cursor(),
            forall|q: int| old(self).owns(q) ==> #[trigger] final(self).owns(q),
            frames_accounted(*old(self), *final(self), *final(pt), old(self).cursor(), cnt as int),
            match r {
                Some(v) => {
                    &&& v == old(self).cursor()
                    &&& v % 4096 == 0
                    &&& range_fits(v as int, cnt as int)
                    &&& final(self).cursor() == v + 4096 * cnt
                    &&& forall|k: int|
                        0 <= k < cnt ==> match #[trigger] final(pt).translation(v + 4096 * k) {
                            Some(p) => final(self).owns(p as int) && !old(self).owns(p as int),
                            None => false,
                        }
                    &&& forall|k1: int, k2: int|
                        0 <= k1 < cnt && 0 <= k2 < cnt && k1 != k2 ==> #[trigger] final(pt).translation(v + 4096 * k1)
                            != #[trigger] final(pt).translation(v + 4096 * k2)
                    &&& forall|w: usize|
                        (forall|k: int| 0 <= k < cnt ==> vpn(w as int) != #[trigger] vpn(v + 4096 * k))
                            ==> #[trigger] final(pt).translation(w as int) == old(pt).translation(w as int)
                },
                None => {
                    ||| !range_fits(old(self).cursor(), cnt as int)
                    ||| exists|k: int| 0 <= k < cnt && (#[trigger] old(pt).translation(old(self).cursor() + 4096 * k)) is Some
                    ||| final(self).full()
                },
            },
    {
        let cur = self.free_address;
        let bytes = match cnt.checked_mul(PAGE_SIZE) {
            Some(b) => b,
            None => {
                return None;
            },
        };
        let end = match cur.checked_add(bytes) {
            Some(e) => e,
            None => {
                return None;
            },
        };
        if end as u64 > 0x1_0000_0000_0000u64 {
            return None;
        }
        let mut j: usize = 0;
        while j < cnt
            invariant
                j <= cnt,
                *pt == *old(pt),
                *self == *old(self),
                self.wf(),
                pt.wf(),
                pt.backed_by(*self),
                cur == self.free_address,
                end == cur + 4096 * cnt,
                forall|k: int| 0 <= k < j ==> (#[trigger] pt.translation(cur + 4096 * k)) is None,
            decreases cnt - j,
        {
            assert(j * 4096 < end - cur) by (nonlinear_arith)
                requires
                    j < cnt,
                    end == cur + 4096 * cnt,
            ;
            if pt.translate(cur + j * 4096).is_some() {
                assert(pt.translation(cur + 4096 * j) is Some);
                return None;
            }
            j += 1;
        }
        self.free_address = end;
        let ghost got: Seq<usize> = Seq::empty();
        let mut k: usize = 0;
        while k < cnt
            invariant
                k <= cnt,
                self.wf(),
                pt.wf(),
                pt.backed_by(*self),
                self.same_layout(*old(self)),
                self.cursor() == end,
                cur == old(self).cursor(),
                cur % 4096 == 0,
                end == cur + 4096 * cnt,
                end <= virt_limit(),
                forall|q: int| old(self).owns(q) ==> #[trigger] self.owns(q),
                got.len() == k,
                forall|j: int|
                    0 <= j < k ==> #[trigger] pt.translation(cur + 4096 * j) == Some(got[j] as u64)
                        && self.owns(got[j] as int) && !old(self).owns(got[j] as int),
                forall|j1: int, j2: int| 0 <= j1 < k && 0 <= j2 < k && j1 != j2 ==> got[j1] != got[j2],
                forall|j: int| k <= j < cnt ==> (#[trigger] pt.translation(cur + 4096 * j)) is None,
                forall|w: usize|
                    (forall|j: int| 0 <= j < k ==> vpn(w as int) != #[trigger] vpn(cur + 4096 * j))
                        ==> #[trigger] pt.translation(w as int) == old(pt).translation(w as int),
                forall|q: int|
                    #[trigger] self.owns(q) && !old(self).owns(q) ==> pt.table_frames().contains(q as u64) || exists|j: int|
                        0 <= j < k && got[j] == q,
            decreases cnt - k,
        {
            assert(k * 4096 < end - cur) by (nonlinear_arith)
                requires
                    k < cnt,
                    end == cur + 4096 * cnt,
            ;
            let page = cur + k * 4096;
            assert(pt.translation(cur + 4096 * k) is None);
            let ghost fa_start = *self;
            let ghost pt_start = *pt;
            let got_entry = pt.get_entry(page, true, self);
            proof {
                self.lemma_accounted_step(fa_start, *old(self), pt_start, *pt);
                assert forall|w: int| #[trigger] pt.translation(w) == pt_start.translation(w) by {
                    assert(pt.leaf(w) == pt_start.leaf(w));
                }
                assert forall|j: int| 0 <= j < k implies #[trigger] pt.translation(cur + 4096 * j) == Some(got[j] as u64) by {
                    assert(pt_start.translation(cur + 4096 * j) == Some(got[j] as u64));
                }
                assert forall|q: int|
                    #[trigger] self.owns(q) && !old(self).owns(q) implies pt.table_frames().contains(q as u64) || exists|j: int|
                        0 <= j < k && got[j] == q by {
                    if fa_start.owns(q) {
                        if pt_start.table_frames().contains(q as u64) {
                            assert(pt.table_frames().contains(q as u64));
                        }
                    }
                }
                assert forall|j: int| 0 <= j < k implies fa_start.owns(got[j] as int) by {
                    assert(pt_start.translation(cur + 4096 * j) == Some(got[j] as u64));
                }
                assert forall|j: int| 0 <= j < k implies #[trigger] self.owns(got[j] as int) by {
                    assert(fa_start.owns(got[j] as int));
                }
                assert forall|j: int| k <= j < cnt implies (#[trigger] pt.translation(cur + 4096 * j)) is None by {
                    assert(pt_start.translation(cur + 4096 * j) is None);
                }
                assert forall|w: usize|
                    (forall|j: int| 0 <= j < k ==> vpn(w as int) != #[trigger] vpn(cur + 4096 * j))
                        implies #[trigger] pt.translation(w as int) == old(pt).translation(w as int) by {
                    assert(pt_start.translation(w as int) == old(pt).translation(w as int));
                }
            }
            if got_entry.is_none() {
                proof {
                    self.lemma_run_accounted(*old(self), *pt, cur as int, cnt as int, got, k as int);
                }
                return None;
            }
            let ghost before = *self;
            let ghost pt_before = *pt;
            let p = match self.alloc_frame() {
                Some(p) => p,
                None => {
                    proof {
                        self.lemma_run_accounted(*old(self), *pt, cur as int, cnt as int, got, k as int);
                    }
                    return None;
                },
            };
            proof {
                self.lemma_frames();
                assert(pt.backed_by(*self)) by {
                    assert forall|j: int| 0 <= j < pt.table_frames().len() implies self.owns(
                        #[trigger] pt.table_frames()[j] as int,
                    ) || !self.in_range(pt.table_frames()[j] as int) by {
                        assert(before.owns(pt.table_frames()[j] as int) || !before.in_range(pt.table_frames()[j] as int));
                    }
                }
            }
            let ghost fa_mapped = *self;
            match pt.page_map(page, p, self) {
                Some(_) => {},
                None => {
                    proof {
                        assert(pt_before.slot(page as int, 0) is Some);
                    }
                    return None;
                },
            }
            proof {
                lemma_page_vpn(cur as int, k as int);
                assert forall|j: int| 0 <= j < k implies #[trigger] vpn(cur + 4096 * j) != vpn(page as int) by {
                    lemma_page_vpn(cur as int, j);
                }
                assert forall|j: int| k < j < cnt implies #[trigger] vpn(cur + 4096 * j) != vpn(page as int) by {
                    lemma_page_vpn(cur as int, j);
                }
                assert forall|j: int| 0 <= j < k implies got[j] != p by {
                    assert(pt_before.translation(cur + 4096 * j) == Some(got[j] as u64));
                    assert(before.owns(got[j] as int));
                }
                let got0 = got;
                got = got.push(p);
                assert forall|q: int|
                    #[trigger] self.owns(q) && !old(self).owns(q) implies pt.table_frames().contains(q as u64) || exists|j: int|
                        0 <= j < k + 1 && got[j] == q by {
                    if q == p as int {
                        assert(got[k as int] == q);
                    } else if fa_mapped.owns(q) {
                        assert(before.owns(q));
                        if pt_before.table_frames().contains(q as u64) {
                            let j = choose|j: int| 0 <= j < pt_before.table_frames().len() && pt_before.table_frames()[j] == q as u64;
                            assert(pt.table_frames()[j] == q as u64);
                        } else {
                            let j = choose|j: int| 0 <= j < k && got0[j] == q;
                            assert(got[j] == q);
                        }
                    } else {
                        assert(pt.table_frames().contains(q as u64));
                    }
                }
                assert forall|j: int|
                    0 <= j < k + 1 implies #[trigger] pt.translation(cur + 4096 * j) == Some(got[j] as u64)
                    && self.owns(got[j] as int) && !old(self).owns(got[j] as int) by {
                    if j < k {
                        let wj = (cur + 4096 * j) as usize;
                        assert(vpn(wj as int) != vpn(page as int));
                    }
                }
                assert forall|j: int| k + 1 <= j < cnt implies (#[trigger] pt.translation(cur + 4096 * j)) is None by {
                    let wj = (cur + 4096 * j) as usize;
                    assert(vpn(wj as int) != vpn(page as int));
                }
                assert forall|w: usize|
                    (forall|j: int| 0 <= j < k + 1 ==> vpn(w as int) != #[trigger] vpn(cur + 4096 * j))
                        implies #[trigger] pt.translation(w as int) == old(pt).translation(w as int) by {
                    assert(vpn(w as int) != vpn(cur + 4096 * k));
                    assert(pt_before.translation(w as int) == old(pt).translation(w as int));
                }
            }
            k += 1;
        }
        assert forall|k1: int, k2: int|
            0 <= k1 < cnt && 0 <= k2 < cnt && k1 != k2 implies #[trigger] pt.translation(cur + 4096 * k1)
            != #[trigger] pt.translation(cur + 4096 * k2) by {
            assert(got[k1] != got[k2]);
        }
        assert forall|q: int| #[trigger] self.owns(q) && !old(self).owns(q) implies pt.table_frames().contains(q as u64)
            || exists|j: int| 0 <= j < cnt && #[trigger] pt.translation(cur + 4096 * j) == Some(q as u64) by {
            if !pt.table_frames().contains(q as u64) {
                let j = choose|j: int| 0 <= j < cnt && got[j] == q;
                assert(pt.translation(cur + 4096 * j) == Some(got[j] as u64));
            }
        }
        Some(cur)
    }

    /// A stack of `cnt_in_page` mapped pages under an unmapped guard page;
    /// returns the address just past the highest mapped page.
    pub fn alloc_stack(&mut self, pt: &mut PageTable, cnt_in_page: usize) -> (r: Option<usize>)
        requires
            old(self).wf(),
            old(pt).wf(),
            old(pt).backed_by(*old(self)),
        ensures
            final(self).wf(),
            final(pt).wf(),
            final(pt).backed_by(*final(self)),
            final(self).same_layout(*old(self)),
            final(self).cursor() >= old(self).cursor(),
            forall|q: int| old(self).owns(q) ==> #[trigger] final(self).owns(q),
            frames_accounted(*old(self), *final(self), *final(pt), old(self).cursor(), cnt_in_page + 1),
            match r {
                Some(top) => {
                    let base = old(self).cursor();
                    &&& top == base + 4096 * (cnt_in_page + 1)
                    &&& top >= 4096 * (cnt_in_page + 1)
                    &&& final(self).cursor() == top
                    &&& final(pt).translation(base) is None
                    &&& forall|k: int|
                        1 <= k <= cnt_in_page ==> match #[trigger] final(pt).translation(base + 4096 * k) {
                            Some(p) => final(self).owns(p as int) && !old(self).owns(p as int),
                            None => false,
                        }
                    &&& forall|k1: int, k2: int|
                        1 <= k1 <= cnt_in_page && 1 <= k2 <= cnt_in_page && k1 != k2 ==> #[trigger] final(pt).translation(
                            base + 4096 * k1,
                        ) != #[trigger] final(pt).translation(base + 4096 * k2)
                },
                None => {
                    ||| cnt_in_page == usize::MAX
                    ||| !range_fits(old(self).cursor(), cnt_in_page + 1)
                    ||| exists|k: int|
                        0 <= k <= cnt_in_page && (#[trigger] old(pt).translation(old(self).cursor() + 4096 * k)) is Some
                    ||| final(self).full()
                },
            },
    {
        if cnt_in_page == usize::MAX {
            return None;
        }
        let ret = match self.alloc_multiple(pt, cnt_in_page + 1) {
            Some(v) => v,
            None => {
                return None;
            },
        };
        let ghost mapped = *pt;
        let ghost fa_mapped = *self;
        let guard = pt.translate(ret);
        pt.page_unmap(ret);
        proof {
            self.lemma_frames();
            assert(mapped.translation(ret + 4096 * 0) is Some);
        }
        // the guard page's frame goes back
        if let Some(g) = guard {
            if self.is_allocated(g) && !pt.is_table_frame(g as u64) {
                self.dealloc(g);
            }
        }
        proof {
            assert(pt.backed_by(*self)) by {
                assert forall|j: int| 0 <= j < pt.table_frames().len() implies self.owns(
                    #[trigger] pt.table_frames()[j] as int,
                ) || !self.in_range(pt.table_frames()[j] as int) by {
                    assert(pt.table_frames()[j] == mapped.table_frames()[j]);
                }
            }
            assert forall|k: int| 1 <= k <= cnt_in_page implies match #[trigger] pt.translation(ret + 4096 * k) {
                Some(p) => self.owns(p as int) && !old(self).owns(p as int),
                None => false,
            } by {
                assert(4096 * k < 4096 * (cnt_in_page + 1)) by (nonlinear_arith)
                    requires
                        k <= cnt_in_page,
                ;
                lemma_page_vpn(ret as int, k);
                lemma_page_vpn(ret as int, 0);
                let wk = (ret + 4096 * k) as usize;
                assert(vpn(wk as int) != vpn(ret as int));
                assert(mapped.translation(ret + 4096 * k) is Some);
            }
            assert forall|k1: int, k2: int|
                1 <= k1 <= cnt_in_page && 1 <= k2 <= cnt_in_page && k1 != k2 implies #[trigger] pt.translation(
                ret + 4096 * k1,
            ) != #[trigger] pt.translation(ret + 4096 * k2) by {
                assert(4096 * k1 < 4096 * (cnt_in_page + 1)) by (nonlinear_arith)
                    requires
                        k1 <= cnt_in_page,
                ;
                assert(4096 * k2 < 4096 * (cnt_in_page + 1)) by (nonlinear_arith)
                    requires
                        k2 <= cnt_in_page,
                ;
                lemma_page_vpn(ret as int, k1);
                lemma_page_vpn(ret as int, k2);
                lemma_page_vpn(ret as int, 0);
                let w1 = (ret + 4096 * k1) as usize;
                let w2 = (ret + 4096 * k2) as usize;
                assert(vpn(w1 as int) != vpn(ret as int));
                assert(vpn(w2 as int) != vpn(ret as int));
                assert(mapped.translation(ret + 4096 * k1) != mapped.translation(ret + 4096 * k2));
            }
        }
        proof {
            fa_mapped.lemma_frames();
            assert forall|q: int| #[trigger] self.owns(q) && !old(self).owns(q) implies pt.table_frames().contains(
                q as u64,
            ) || exists|k: int| 0 <= k < cnt_in_page + 1 && #[trigger] pt.translation(ret + 4096 * k) == Some(q as u64) by {
                assert(fa_mapped.owns(q));
                assert(pt.table_frames() == mapped.table_frames());
                if !mapped.table_frames().contains(q as u64) {
                    let k = choose|k: int|
                        0 <= k < cnt_in_page + 1 && #[trigger] mapped.translation(ret + 4096 * k) == Some(q as u64);
                    if k == 0 {
                        assert(guard == Some(q as usize));
                        assert(false);
                    } else {
                        assert(4096 * k < 4096 * (cnt_in_page + 1)) by (nonlinear_arith)
                            requires
                                k <= cnt_in_page,
                        ;
                        lemma_page_vpn(ret as int, k);
                        lemma_page_vpn(ret as int, 0);
                        let wk = (ret + 4096 * k) as usize;
                        assert(vpn(wk as int) != vpn(ret as int));
                        assert(pt.translation(ret + 4096 * k) == Some(q as u64));
                    }
                }
            }
        }
        Some(ret + (cnt_in_page + 1) * PAGE_SIZE)
    }

    /// Unmaps the `cnt` pages from `vaddr` and takes back each frame they
    /// were mapped to, unless that frame holds a page table or is not one of
    /// this allocator's handed-out frames.
    pub fn dealloc_multiple(&mut self, pt: &mut PageTable, vaddr: usize, cnt: usize)
        requires
            old(self).wf(),
            old(pt).wf(),
            old(pt).backed_by(*old(self)),
            vaddr % 4096 == 0,
            range_fits(vaddr as int, cnt as int),
        ensures
            final(self).wf(),
            final(pt).wf(),
            final(pt).backed_by(*final(self)),
            final(self).same_layout(*old(self)),
            final(self).cursor() == old(self).cursor(),
            forall|q: int| #[trigger] final(self).owns(q) ==> old(self).owns(q),
            forall|k: int| 0 <= k < cnt ==> (#[trigger] final(pt).translation(vaddr + 4096 * k)) is None,
            forall|k: int|
                0 <= k < cnt ==> match #[trigger] old(pt).frame_at(vaddr + 4096 * k) {
                    Some(p) => old(self).owns(p as int) && !old(pt).table_frames().contains(p as u64)
                        ==> !final(self).owns(p as int),
                    None => true,
                },
            forall|w: usize|
                (forall|k: int| 0 <= k < cnt ==> vpn(w as int) != #[trigger] vpn(vaddr + 4096 * k))
                    ==> #[trigger] final(pt).translation(w as int) == old(pt).translation(w as int),
    {
        let mut k: usize = 0;
        while k < cnt
            invariant
                k <= cnt,
                self.wf(),
                pt.wf(),
                pt.backed_by(*self),
                self.same_layout(*old(self)),
                self.cursor() == old(self).cursor(),
                vaddr % 4096 == 0,
                range_fits(vaddr as int, cnt as int),
                forall|q: int| #[trigger] self.owns(q) ==> old(self).owns(q),
                pt.table_frames() == old(pt).table_frames(),
                forall|j: int| 0 <= j < k ==> (#[trigger] pt.translation(vaddr + 4096 * j)) is None,
                forall|j: int|
                    0 <= j < k ==> match #[trigger] old(pt).frame_at(vaddr + 4096 * j) {
                        Some(p) => old(self).owns(p as int) && !old(pt).table_frames().contains(p as u64) ==> !self.owns(
                            p as int,
                        ),
                        None => true,
                    },
                forall|w: usize|
                    (forall|j: int| 0 <= j < k ==> vpn(w as int) != #[trigger] vpn(vaddr + 4096 * j))
                        ==> #[trigger] pt.translation(w as int) == old(pt).translation(w as int),
            decreases cnt - k,
        {
            assert(k * 4096 < 4096 * cnt) by (nonlinear_arith)
                requires
                    k < cnt,
            ;
            let page = vaddr + k * 4096;
            let ghost pt_before = *pt;
            let ghost fa_before = *self;
            let target = pt.translate(page);
            proof {
                lemma_page_vpn(vaddr as int, k as int);
                assert forall|j: int| 0 <= j < k implies #[trigger] vpn(vaddr + 4096 * j) != vpn(page as int) by {
                    lemma_page_vpn(vaddr as int, j);
                }
                assert(pt.translation(page as int) == old(pt).translation(page as int));
            }
            pt.page_unmap(page);
            if let Some(p) = target {
                if self.is_allocated(p) && !pt.is_table_frame(p as u64) {
                    self.dealloc(p);
                }
            }
            proof {
                lemma_page_vpn(vaddr as int, k as int);
                assert(pt.backed_by(*self)) by {
                    assert forall|j: int| 0 <= j < pt.table_frames().len() implies self.owns(
                        #[trigger] pt.table_frames()[j] as int,
                    ) || !self.in_range(pt.table_frames()[j] as int) by {
                        assert(pt.table_frames()[j] == pt_before.table_frames()[j]);
                        assert(fa_before.owns(pt.table_frames()[j] as int) || !fa_before.in_range(pt.table_frames()[j] as int));
                        if let Some(p) = target {
                            if pt.table_frames()[j] as int == p as int {
                                assert(pt.table_frames().contains(p as u64));
                            }
                        }
                    }
                }
                assert forall|j: int| 0 <= j < k + 1 implies (#[trigger] pt.translation(vaddr + 4096 * j)) is None by {
                    if j < k {
                        lemma_page_vpn(vaddr as int, j);
                        let wj = (vaddr + 4096 * j) as usize;
                        assert(vpn(wj as int) != vpn(page as int));
                        assert(pt_before.translation(vaddr + 4096 * j) is None);
                    }
                }
                assert forall|w: usize|
                    (forall|j: int| 0 <= j < k + 1 ==> vpn(w as int) != #[trigger] vpn(vaddr + 4096 * j))
                        implies #[trigger] pt.translation(w as int) == old(pt).translation(w as int) by {
                    assert(vpn(w as int) != vpn(vaddr + 4096 * k));
                    assert(pt_before.translation(w as int) == old(pt).translation(w as int));
                }
                assert forall|j: int|
                    0 <= j < k + 1 implies match #[trigger] old(pt).frame_at(vaddr + 4096 * j) {
                    Some(p) => old(self).owns(p as int) && !old(pt).table_frames().contains(p as u64) ==> !self.owns(
                        p as int,
                    ),
                    None => true,
                } by {
                    if j < k {
                        assert(old(pt).frame_at(vaddr + 4096 * j) == old(pt).frame_at(vaddr + 4096 * j));
                        if let Some(p) = old(pt).frame_at(vaddr + 4096 * j) {
                            if !fa_before.owns(p as int) {
                                assert(!self.owns(p as int));
                            }
                        }
                    } else {
                        assert(old(pt).frame_at(page as int) == target);
                    }
                }
            }
            k += 1;
        }
    }
}

} // verus!
