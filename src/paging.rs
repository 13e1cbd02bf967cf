//! Four-level page-table editor. Tables are kept by the physical frame that
//! holds them; a present entry of a non-leaf table names the frame of the
//! next table down.
use vstd::prelude::*;
use crate::frame::{FrameAllocator, is_frame, frames_accounted};

verus! {

pub const PRESENT: u64 = 0x1;
pub const WRITABLE: u64 = 0x2;
pub const USER_ACCESSIBLE: u64 = 0x4;
pub const WRITE_THROUGH: u64 = 0x8;
pub const NO_CACHE: u64 = 0x10;
pub const ACCESSED: u64 = 0x20;
pub const DIRTY: u64 = 0x40;
pub const HUGE_PAGE: u64 = 0x80;
pub const GLOBAL: u64 = 0x100;
pub const NO_EXECUTE: u64 = 0x8000_0000_0000_0000;

/// Every flag bit that an entry may carry.
pub const FLAG_BITS: u64 = 0x8000_0000_0000_01ff;

/// The physical-address bits of an entry.
pub const ADDR_MASK: u64 = 0x000f_ffff_ffff_f000;

/// Entries per table.
pub const ENTRY_COUNT: usize = 512;

pub open spec fn present(e: u64) -> bool {
    e & PRESENT != 0
}

pub open spec fn entry_addr(e: u64) -> u64 {
    e & ADDR_MASK
}

pub open spec fn writable(e: u64) -> bool {
    e & WRITABLE != 0
}

pub open spec fn entry_flags(e: u64) -> u64 {
    e & FLAG_BITS
}

/// The entry that holds frame `p` with flags `f`.
pub open spec fn make_entry(p: u64, f: u64) -> u64 {
    p | f
}

proof fn lemma_make_entry(p: u64, f: u64)
    requires
        p % 4096 == 0,
        p < 0x10_0000_0000_0000,
        f & !FLAG_BITS == 0,
    ensures
        entry_addr(make_entry(p, f)) == p,
        entry_flags(make_entry(p, f)) == f,
        present(make_entry(p, f)) == (f & PRESENT != 0),
        writable(make_entry(p, f)) == (f & WRITABLE != 0),
{
    assert((p | f) & 0x000f_ffff_ffff_f000u64 == p) by (bit_vector)
        requires
            p % 4096 == 0,
            p < 0x10_0000_0000_0000,
            f & !0x8000_0000_0000_01ffu64 == 0,
    ;
    assert((p | f) & 0x8000_0000_0000_01ffu64 == f) by (bit_vector)
        requires
            p % 4096 == 0,
            p < 0x10_0000_0000_0000,
            f & !0x8000_0000_0000_01ffu64 == 0,
    ;
    assert(((p | f) & 1u64 != 0) == (f & 1u64 != 0)) by (bit_vector)
        requires
            p % 4096 == 0,
    ;
    assert(((p | f) & 2u64 != 0) == (f & 2u64 != 0)) by (bit_vector)
        requires
            p % 4096 == 0,
    ;
}

proof fn lemma_zero_entry()
    ensures
        !present(0u64),
{
    assert(0u64 & 1u64 == 0) by (bit_vector);
}

/// Index into the table of level `lvl` (3 is the root) for virtual address `v`.
pub open spec fn index_of(v: int, lvl: int) -> int {
    if lvl == 0 {
        (v / 0x1000) % 512
    } else if lvl == 1 {
        (v / 0x20_0000) % 512
    } else if lvl == 2 {
        (v / 0x4000_0000) % 512
    } else {
        (v / 0x80_0000_0000) % 512
    }
}

/// The 36-bit virtual page number that the four indices together select.
pub open spec fn vpn(v: int) -> int {
    (v / 0x1000) % 0x10_0000_0000
}

proof fn lemma_vpn_indices(v: u64, w: u64)
    requires
        index_of(v as int, 0) == index_of(w as int, 0),
        index_of(v as int, 1) == index_of(w as int, 1),
        index_of(v as int, 2) == index_of(w as int, 2),
        index_of(v as int, 3) == index_of(w as int, 3),
    ensures
        vpn(v as int) == vpn(w as int),
{
    assert((v / 0x1000) % 0x10_0000_0000 == (v / 0x1000) % 512 + 512 * ((v / 0x20_0000) % 512)
        + 0x4_0000 * ((v / 0x4000_0000) % 512) + 0x800_0000 * ((v / 0x80_0000_0000) % 512))
        by (bit_vector);
    assert((w / 0x1000) % 0x10_0000_0000 == (w / 0x1000) % 512 + 512 * ((w / 0x20_0000) % 512)
        + 0x4_0000 * ((w / 0x4000_0000) % 512) + 0x800_0000 * ((w / 0x80_0000_0000) % 512))
        by (bit_vector);
}

/// One page-table entry: a physical address and flag bits.
#[derive(Clone, Copy)]
pub struct Entry(pub u64);

impl Entry {
    /// The flag bits.
    pub fn flags(&self) -> (r: u64)
        ensures
            r == entry_flags(self.0),
    {
        self.0 & FLAG_BITS
    }

    /// The physical address.
    pub fn paddr(&self) -> (r: u64)
        ensures
            r == entry_addr(self.0),
    {
        self.0 & ADDR_MASK
    }

    /// Replaces the physical address, keeping the flags.
    pub fn set_paddr(&mut self, paddr: u64)
        requires
            paddr % 4096 == 0,
            paddr < 0x10_0000_0000_0000,
        ensures
            entry_addr(final(self).0) == paddr,
            entry_flags(final(self).0) == entry_flags(old(self).0),
    {
        let e = self.0;
        self.0 = (e & !ADDR_MASK) | paddr;
        assert(((e & !0x000f_ffff_ffff_f000u64) | paddr) & 0x000f_ffff_ffff_f000u64 == paddr)
            by (bit_vector)
            requires
                paddr % 4096 == 0,
                paddr < 0x10_0000_0000_0000,
        ;
        assert(((e & !0x000f_ffff_ffff_f000u64) | paddr) & 0x8000_0000_0000_01ffu64
            == e & 0x8000_0000_0000_01ffu64) by (bit_vector)
            requires
                paddr % 4096 == 0,
                paddr < 0x10_0000_0000_0000,
        ;
    }

    /// Replaces the flags (unknown bits are dropped), keeping the address.
    pub fn set_flags(&mut self, flags: u64)
        ensures
            final(self).0 == (flags & FLAG_BITS) | entry_addr(old(self).0),
    {
        self.0 = (flags & FLAG_BITS) | (self.0 & ADDR_MASK);
    }

    /// The raw entry word.
    pub fn to_int(&self) -> (r: u64)
        ensures
            r == self.0,
    {
        self.0
    }
}

/// Index into the table of level `level` for `vaddr`.
pub fn get_index(vaddr: usize, level: usize) -> (r: usize)
    requires
        level < 4,
    ensures
        r == index_of(vaddr as int, level as int),
        r < 512,
{
    if level == 0 {
        (vaddr / 0x1000) % 512
    } else if level == 1 {
        (vaddr / 0x20_0000) % 512
    } else if level == 2 {
        (vaddr / 0x4000_0000) % 512
    } else {
        proof {
            vstd::arithmetic::div_mod::lemma_div_denominator(vaddr as int, 0x4000_0000, 512);
        }
        (vaddr / 0x4000_0000) / 512 % 512
    }
}

/// The live page tables: table 0 is the root (level 3); each other table
/// was created under one non-leaf entry, recorded in `parent`.
pub struct PageTable {
    tables: Vec<Vec<u64>>,
    frames: Vec<u64>,
    parent: Ghost<Seq<(int, int)>>,
    level: Ghost<Seq<int>>,
}

impl PageTable {
    pub closed spec fn count(self) -> int {
        self.tables@.len() as int
    }

    pub closed spec fn entry(self, t: int, i: int) -> u64 {
        self.tables@[t]@[i]
    }

    /// The table stored in frame `a`.
    pub closed spec fn table_of(self, a: u64) -> Option<int> {
        if exists|j: int| 0 <= j < self.frames@.len() && self.frames@[j] == a {
            Some(choose|j: int| 0 <= j < self.frames@.len() && self.frames@[j] == a)
        } else {
            None
        }
    }

    /// The table that entry `i` of table `t` leads to.
    pub closed spec fn child(self, t: int, i: int) -> Option<int> {
        if present(self.entry(t, i)) {
            self.table_of(entry_addr(self.entry(t, i)))
        } else {
            None
        }
    }

    pub closed spec fn step(self, t: Option<int>, v: int, lvl: int) -> Option<int> {
        match t {
            Some(t) => self.child(t, index_of(v, lvl)),
            None => None,
        }
    }

    /// The table of level `lvl` that the walk for `v` reaches.
    pub closed spec fn slot(self, v: int, lvl: int) -> Option<int> {
        if lvl == 3 {
            Some(0)
        } else if lvl == 2 {
            self.step(Some(0), v, 3)
        } else if lvl == 1 {
            self.step(self.step(Some(0), v, 3), v, 2)
        } else {
            self.step(self.step(self.step(Some(0), v, 3), v, 2), v, 1)
        }
    }

    /// The present leaf entry for `v`, if the walk reaches one.
    pub closed spec fn leaf(self, v: int) -> Option<u64> {
        match self.slot(v, 0) {
            Some(t) => if present(self.entry(t, index_of(v, 0))) {
                Some(self.entry(t, index_of(v, 0)))
            } else {
                None
            },
            None => None,
        }
    }

    /// The physical address that `v`'s page is mapped to.
    pub open spec fn translation(self, v: int) -> Option<u64> {
        match self.leaf(v) {
            Some(e) => Some(entry_addr(e)),
            None => None,
        }
    }

    /// The frame `translate(v)` returns.
    pub open spec fn frame_at(self, v: int) -> Option<usize> {
        match self.translation(v) {
            Some(p) => Some(p as usize),
            None => None,
        }
    }

    /// The flags of `v`'s leaf entry, if it is mapped.
    pub open spec fn leaf_flags(self, v: int) -> Option<u64> {
        match self.leaf(v) {
            Some(e) => Some(entry_flags(e)),
            None => None,
        }
    }

    pub closed spec fn wf(self) -> bool {
        let n = self.tables@.len();
        &&& n >= 1
        &&& self.frames@.len() == n
        &&& self.parent@.len() == n
        &&& self.level@.len() == n
        &&& forall|t: int| 0 <= t < n ==> (#[trigger] self.tables@[t])@.len() == 512
        &&& forall|j: int, k: int|
            0 <= j < n && 0 <= k < n && #[trigger] self.frames@[j] == #[trigger] self.frames@[k] ==> j == k
        &&& self.level@[0] == 3
        &&& forall|t: int| 0 <= t < n ==> 0 <= #[trigger] self.level@[t] <= 3
        &&& forall|t: int, i: int|
            0 <= t < n && 0 <= i < 512 && self.level@[t] > 0 && present(#[trigger] self.entry(t, i))
                ==> match self.child(t, i) {
                Some(c) => 0 <= c < n && self.level@[c] == self.level@[t] - 1 && self.parent@[c] == (t, i),
                None => false,
            }
        &&& forall|t: int, i: int|
            0 <= t < n && 0 <= i < 512 && self.level@[t] > 0 && present(#[trigger] self.entry(t, i)) ==> writable(
                self.entry(t, i),
            )
    }

    /// Every non-leaf entry on the walk for `v` is present and writable.
    pub closed spec fn walk_writable(self, v: int) -> bool {
        forall|l: int|
            1 <= l <= 3 ==> match #[trigger] self.slot(v, l) {
                Some(t) => present(self.entry(t, index_of(v, l))) && writable(self.entry(t, index_of(v, l))),
                None => false,
            }
    }

    proof fn lemma_walk_writable(self, v: int)
        requires
            self.wf(),
            self.slot(v, 0) is Some,
        ensures
            self.walk_writable(v),
    {
        self.lemma_slot_level(v, 3);
        self.lemma_slot_level(v, 2);
        self.lemma_slot_level(v, 1);
        assert(0 <= index_of(v, 3) < 512);
        assert(0 <= index_of(v, 2) < 512);
        assert(0 <= index_of(v, 1) < 512);
        assert(self.slot(v, 1) is Some);
        assert(self.slot(v, 2) is Some);
    }

    /// The frames that hold the tables; the first is the root.
    pub closed spec fn table_frames(self) -> Seq<u64> {
        self.frames@
    }

    /// Every table frame is either handed out by `fa` or not one of its frames,
    /// so a frame that `fa` hands out next holds no table.
    pub open spec fn backed_by(self, fa: FrameAllocator) -> bool {
        forall|j: int|
            0 <= j < self.table_frames().len() ==> fa.owns(#[trigger] self.table_frames()[j] as int)
                || !fa.in_range(self.table_frames()[j] as int)
    }

    /// `new` differs from `self` only in entry `i` of table `t`.
    spec fn one_entry_changed(self, new: PageTable, t: int, i: int) -> bool {
        &&& new.tables@.len() == self.tables@.len()
        &&& new.frames@ == self.frames@
        &&& new.parent@ == self.parent@
        &&& new.level@ == self.level@
        &&& forall|u: int| 0 <= u < self.tables@.len() ==> (#[trigger] new.tables@[u])@.len() == 512
        &&& forall|u: int, k: int|
            0 <= u < self.tables@.len() && 0 <= k < 512 && (u != t || k != i) ==> #[trigger] new.entry(u, k)
                == self.entry(u, k)
    }

    /// `new` is `self` with an empty table in frame `f` hung under entry `i`
    /// of table `t`.
    spec fn grown(self, new: PageTable, t: int, i: int, f: u64) -> bool {
        let n = self.tables@.len() as int;
        &&& new.tables@.len() == n + 1
        &&& new.frames@ == self.frames@.push(f)
        &&& new.parent@ == self.parent@.push((t, i))
        &&& new.level@ == self.level@.push(self.level@[t] - 1)
        &&& forall|u: int| 0 <= u <= n ==> (#[trigger] new.tables@[u])@.len() == 512
        &&& forall|u: int, k: int|
            0 <= u < n && 0 <= k < 512 && (u != t || k != i) ==> #[trigger] new.entry(u, k) == self.entry(u, k)
        &&& new.entry(t, i) == make_entry(f, PRESENT | WRITABLE)
        &&& forall|k: int| 0 <= k < 512 ==> #[trigger] new.entry(n, k) == 0
    }

    /// A new empty table keeps the invariant and changes no translation.
    proof fn lemma_grow(self, new: PageTable, t: int, i: int, f: u64)
        requires
            self.wf(),
            0 <= t < self.count(),
            0 <= i < 512,
            self.level@[t] >= 1,
            !present(self.entry(t, i)),
            f % 4096 == 0,
            f < 0x10_0000_0000_0000,
            forall|j: int| 0 <= j < self.count() ==> self.frames@[j] != f,
            self.grown(new, t, i, f),
        ensures
            new.wf(),
            new.child(t, i) == Some(self.count()),
            forall|w: int| #[trigger] new.leaf(w) == self.leaf(w),
            forall|w: int, l: int|
                0 <= l <= 3 && self.slot(w, l) is Some ==> #[trigger] new.slot(w, l) == self.slot(w, l),
    {
        let n = self.count();
        assert(1u64 | 2u64 == 3u64 && 3u64 & !0x8000_0000_0000_01ffu64 == 0 && 3u64 & 1u64 != 0 && 3u64 & 2u64 != 0)
            by (bit_vector);
        lemma_make_entry(f, PRESENT | WRITABLE);
        lemma_zero_entry();
        assert forall|j: int, k: int|
            0 <= j <= n && 0 <= k <= n && #[trigger] new.frames@[j] == #[trigger] new.frames@[k] implies j == k by {
            if j < n && k < n {
                assert(self.frames@[j] == self.frames@[k]);
            }
        }
        assert forall|j: int| 0 <= j <= n implies #[trigger] new.table_of(new.frames@[j]) == Some(j) by {
            let a = new.frames@[j];
            assert(0 <= j < new.frames@.len() && new.frames@[j] == a);
        }
        assert(new.table_of(f) == Some(n)) by {
            assert(new.frames@[n] == f);
        }
        assert forall|u: int, k: int|
            0 <= u < n && 0 <= k < 512 && self.level@[u] > 0 && (u != t || k != i) implies #[trigger] new.child(u, k)
            == self.child(u, k) by {
            assert(new.entry(u, k) == self.entry(u, k));
            if present(self.entry(u, k)) {
                let c = self.child(u, k).unwrap();
                assert(self.table_of(self.frames@[c]) == Some(c));
                assert(new.frames@[c] == self.frames@[c]);
            }
        }
        assert forall|k: int| 0 <= k < 512 implies #[trigger] new.child(n, k) == None::<int> by {
            assert(new.entry(n, k) == 0);
        }
        assert forall|u: int, k: int|
            0 <= u <= n && 0 <= k < 512 && new.level@[u] > 0 && present(
                #[trigger] new.entry(u, k),
            ) implies match new.child(u, k) {
            Some(c) => 0 <= c <= n && new.level@[c] == new.level@[u] - 1 && new.parent@[c] == (u, k),
            None => false,
        } by {
            if u == n {
                assert(new.entry(n, k) == 0);
            } else if u == t && k == i {
            } else {
                assert(new.entry(u, k) == self.entry(u, k));
                assert(new.child(u, k) == self.child(u, k));
            }
        }
        assert forall|w: int| #[trigger] new.leaf(w) == self.leaf(w) by {
            self.lemma_slot_level(w, 3);
            self.lemma_slot_level(w, 2);
            self.lemma_slot_level(w, 1);
            self.lemma_slot_level(w, 0);
            assert(0 <= index_of(w, 3) < 512);
            assert(0 <= index_of(w, 2) < 512);
            assert(0 <= index_of(w, 1) < 512);
            assert(0 <= index_of(w, 0) < 512);
            let r2 = new.slot(w, 2) == self.slot(w, 2) || (self.slot(w, 2) is None && (new.slot(w, 2) is None
                || new.slot(w, 2) == Some(n)));
            assert(r2);
            let r1 = new.slot(w, 1) == self.slot(w, 1) || (self.slot(w, 1) is None && (new.slot(w, 1) is None
                || new.slot(w, 1) == Some(n)));
            assert(r1);
            let r0 = new.slot(w, 0) == self.slot(w, 0) || (self.slot(w, 0) is None && (new.slot(w, 0) is None
                || new.slot(w, 0) == Some(n)));
            assert(r0);
            match self.slot(w, 0) {
                Some(u) => {
                    assert(new.entry(u, index_of(w, 0)) == self.entry(u, index_of(w, 0)));
                },
                None => {},
            }
        }
        assert forall|w: int, l: int|
            0 <= l <= 3 && self.slot(w, l) is Some implies #[trigger] new.slot(w, l) == self.slot(w, l) by {
            self.lemma_slot_level(w, 3);
            self.lemma_slot_level(w, 2);
            self.lemma_slot_level(w, 1);
            assert(0 <= index_of(w, 3) < 512);
            assert(0 <= index_of(w, 2) < 512);
            assert(0 <= index_of(w, 1) < 512);
            let r2 = new.slot(w, 2) == self.slot(w, 2) || (self.slot(w, 2) is None && (new.slot(w, 2) is None
                || new.slot(w, 2) == Some(n)));
            assert(r2);
            let r1 = new.slot(w, 1) == self.slot(w, 1) || (self.slot(w, 1) is None && (new.slot(w, 1) is None
                || new.slot(w, 1) == Some(n)));
            assert(r1);
        }
    }

    /// Writing one leaf entry moves no walk and changes only the walks that
    /// end in that entry.
    proof fn lemma_leaf_write(self, new: PageTable, t: int, i: int)
        requires
            self.wf(),
            0 <= t < self.count(),
            0 <= i < 512,
            self.level@[t] == 0,
            self.one_entry_changed(new, t, i),
        ensures
            new.wf(),
            new.count() == self.count(),
            new.table_frames() == self.table_frames(),
            forall|w: int, l: int| 0 <= l <= 3 ==> #[trigger] new.slot(w, l) == self.slot(w, l),
            forall|w: int|
                !(self.slot(w, 0) == Some(t) && index_of(w, 0) == i) ==> #[trigger] new.leaf(w)
                    == self.leaf(w),
            forall|w: int|
                self.slot(w, 0) == Some(t) && index_of(w, 0) == i ==> #[trigger] new.leaf(w) == (if present(
                    new.entry(t, i),
                ) {
                    Some(new.entry(t, i))
                } else {
                    None
                }),
    {
        assert forall|a: u64| #[trigger] new.table_of(a) == self.table_of(a) by {}
        assert forall|u: int, k: int|
            0 <= u < self.count() && 0 <= k < 512 && self.level@[u] > 0 implies #[trigger] new.child(u, k)
            == self.child(u, k) by {
            assert(new.entry(u, k) == self.entry(u, k));
        }
        assert forall|w: int, l: int| 0 <= l <= 3 implies #[trigger] new.slot(w, l) == self.slot(w, l) by {
            self.lemma_slot_level(w, 3);
            self.lemma_slot_level(w, 2);
            self.lemma_slot_level(w, 1);
            assert(0 <= index_of(w, 3) < 512);
            assert(0 <= index_of(w, 2) < 512);
            assert(0 <= index_of(w, 1) < 512);
        }
        assert forall|w: int|
            !(self.slot(w, 0) == Some(t) && index_of(w, 0) == i) implies #[trigger] new.leaf(w)
            == self.leaf(w) by {
            assert(new.slot(w, 0) == self.slot(w, 0));
            self.lemma_slot_level(w, 0);
        }
        assert forall|w: int|
            self.slot(w, 0) == Some(t) && index_of(w, 0) == i implies #[trigger] new.leaf(w) == (if present(
                new.entry(t, i),
            ) {
                Some(new.entry(t, i))
            } else {
                None
            }) by {
            assert(new.slot(w, 0) == self.slot(w, 0));
        }
        assert forall|u: int, k: int|
            0 <= u < new.count() && 0 <= k < 512 && new.level@[u] > 0 && present(
                #[trigger] new.entry(u, k),
            ) implies match new.child(u, k) {
            Some(c) => 0 <= c < new.count() && new.level@[c] == new.level@[u] - 1 && new.parent@[c] == (u, k),
            None => false,
        } by {
            assert(new.entry(u, k) == self.entry(u, k));
        }
    }

    proof fn lemma_table_of(self, j: int)
        requires
            self.wf(),
            0 <= j < self.count(),
        ensures
            self.table_of(self.frames@[j]) == Some(j),
    {
    }

    proof fn lemma_slot_level(self, v: int, lvl: int)
        requires
            self.wf(),
            0 <= lvl <= 3,
        ensures
            match self.slot(v, lvl) {
                Some(t) => 0 <= t < self.count() && self.level@[t] == lvl,
                None => true,
            },
        decreases 3 - lvl,
    {
        if lvl < 3 {
            self.lemma_slot_level(v, lvl + 1);
            assert(self.slot(v, lvl) == self.step(self.slot(v, lvl + 1), v, lvl + 1));
            match self.slot(v, lvl + 1) {
                Some(t) => {
                    let i = index_of(v, lvl + 1);
                    assert(0 <= i < 512);
                    if present(self.entry(t, i)) {
                        assert(self.level@[t] > 0);
                    }
                },
                None => {},
            }
        }
    }

    /// Two walks that meet in one table took the same indices above it.
    proof fn lemma_walk_injective(self, v: usize, w: usize, lvl: int)
        requires
            self.wf(),
            0 <= lvl <= 3,
            self.slot(v as int, lvl) is Some,
            self.slot(v as int, lvl) == self.slot(w as int, lvl),
        ensures
            forall|k: int| lvl < k <= 3 ==> index_of(v as int, k) == index_of(w as int, k),
        decreases 3 - lvl,
    {
        if lvl < 3 {
            let c = self.slot(v as int, lvl).unwrap();
            self.lemma_slot_level(v as int, lvl + 1);
            self.lemma_slot_level(w as int, lvl + 1);
            assert(self.slot(v as int, lvl) == self.step(self.slot(v as int, lvl + 1), v as int, lvl + 1));
            assert(self.slot(w as int, lvl) == self.step(self.slot(w as int, lvl + 1), w as int, lvl + 1));
            let tv = self.slot(v as int, lvl + 1).unwrap();
            let tw = self.slot(w as int, lvl + 1).unwrap();
            let iv = index_of(v as int, lvl + 1);
            let iw = index_of(w as int, lvl + 1);
            assert(present(self.entry(tv, iv)));
            assert(present(self.entry(tw, iw)));
            assert(self.parent@[c] == (tv, iv));
            assert(self.parent@[c] == (tw, iw));
            self.lemma_walk_injective(v, w, lvl + 1);
        }
    }

    /// Walks that reach one leaf entry belong to the same page.
    proof fn lemma_same_leaf(self, v: usize, w: usize)
        requires
            self.wf(),
            self.slot(v as int, 0) is Some,
            self.slot(v as int, 0) == self.slot(w as int, 0),
            index_of(v as int, 0) == index_of(w as int, 0),
        ensures
            vpn(v as int) == vpn(w as int),
    {
        self.lemma_walk_injective(v, w, 0);
        lemma_vpn_indices(v as u64, w as u64);
    }
}

fn zero_table() -> (r: Vec<u64>)
    ensures
        r@.len() == 512,
        forall|k: int| 0 <= k < 512 ==> r@[k] == 0,
{
    let mut r: Vec<u64> = Vec::with_capacity(ENTRY_COUNT);
    let mut k: usize = 0;
    while k < ENTRY_COUNT
        invariant
            k <= 512,
            r@.len() == k,
            forall|j: int| 0 <= j < k ==> r@[j] == 0,
        decreases 512 - k,
    {
        r.push(0u64);
        k += 1;
    }
    r
}

impl PageTable {
    /// A page table whose root, still empty, sits in frame `root`.
    pub fn new(root: u64) -> (r: PageTable)
        ensures
            r.wf(),
            r.table_frames() == seq![root],
            forall|v: int| #[trigger] r.translation(v) is None,
    {
        let mut tables: Vec<Vec<u64>> = Vec::new();
        tables.push(zero_table());
        let mut frames: Vec<u64> = Vec::new();
        frames.push(root);
        let r = PageTable { tables, frames, parent: Ghost(Seq::empty().push((0int, 0int))), level: Ghost(Seq::empty().push(3int)) };
        proof {
            lemma_zero_entry();
            assert forall|v: int| #[trigger] r.translation(v) is None by {
                assert(0 <= index_of(v, 3) < 512);
                assert(r.entry(0, index_of(v, 3)) == 0);
            }
        }
        assert(r.frames@ =~= seq![root]);
        r
    }

    /// Number of tables.
    pub fn table_count(&self) -> (r: usize)
        requires
            self.wf(),
        ensures
            r == self.table_frames().len(),
    {
        self.frames.len()
    }

    /// The frame that holds table `j`, and its 512 entries, to be copied
    /// into that frame.
    pub fn table(&self, j: usize) -> (r: (u64, &Vec<u64>))
        requires
            self.wf(),
            j < self.table_frames().len(),
        ensures
            r.0 == self.table_frames()[j as int],
            r.1@.len() == 512,
            forall|i: int| 0 <= i < 512 ==> r.1@[i] == self.entry(j as int, i),
    {
        (self.frames[j], &self.tables[j])
    }

    /// Whether frame `a` holds one of the tables.
    pub fn is_table_frame(&self, a: u64) -> (r: bool)
        requires
            self.wf(),
        ensures
            r == self.table_frames().contains(a),
    {
        let r = self.find_table(a).is_some();
        proof {
            if self.table_frames().contains(a) {
                let j = choose|j: int| 0 <= j < self.table_frames().len() && self.table_frames()[j] == a;
                assert(self.frames@[j] == a);
            }
        }
        r
    }

    /// The table stored in frame `a`.
    fn find_table(&self, a: u64) -> (r: Option<usize>)
        requires
            self.wf(),
        ensures
            match r {
                Some(j) => self.table_of(a) == Some(j as int) && j < self.count(),
                None => self.table_of(a) is None,
            },
    {
        let mut j: usize = 0;
        while j < self.frames.len()
            invariant
                self.wf(),
                j <= self.frames@.len(),
                forall|k: int| 0 <= k < j ==> self.frames@[k] != a,
            decreases self.frames@.len() - j,
        {
            if self.frames[j] == a {
                proof {
                    self.lemma_table_of(j as int);
                }
                return Some(j);
            }
            j += 1;
        }
        None
    }

    /// The level-1 table (the one holding leaf entries) for `vaddr`, if the
    /// walk down to it finds every entry present.
    fn walk(&self, vaddr: usize) -> (r: Option<usize>)
        requires
            self.wf(),
        ensures
            match r {
                Some(t) => self.slot(vaddr as int, 0) == Some(t as int) && t < self.count(),
                None => self.slot(vaddr as int, 0) is None,
            },
    {
        let mut t: usize = 0;
        let mut lvl: usize = 3;
        while lvl > 0
            invariant
                self.wf(),
                lvl <= 3,
                t < self.count(),
                self.slot(vaddr as int, lvl as int) == Some(t as int),
            decreases lvl,
        {
            let i = get_index(vaddr, lvl);
            let e = self.tables[t][i];
            if e & PRESENT == 0 {
                return None;
            }
            match self.find_table(e & ADDR_MASK) {
                Some(c) => {
                    t = c;
                },
                None => {
                    return None;
                },
            }
            lvl -= 1;
        }
        Some(t)
    }

    fn set_entry(&mut self, t: usize, i: usize, e: u64)
        requires
            t < old(self).count(),
            i < 512,
            forall|u: int| 0 <= u < old(self).count() ==> (#[trigger] old(self).tables@[u])@.len() == 512,
        ensures
            old(self).one_entry_changed(*final(self), t as int, i as int),
            final(self).entry(t as int, i as int) == e,
    {
        self.tables[t].set(i, e);
        assert forall|u: int, k: int|
            0 <= u < old(self).count() && 0 <= k < 512 && (u != t || k != i) implies #[trigger] self.entry(u, k)
            == old(self).entry(u, k) by {}
    }

    /// Hangs a new empty table in frame `f` under entry `i` of table `t`.
    fn add_table(&mut self, t: usize, i: usize, f: u64)
        requires
            old(self).wf(),
            t < old(self).count(),
            i < 512,
            old(self).level@[t as int] >= 1,
            !present(old(self).entry(t as int, i as int)),
            f % 4096 == 0,
            f < 0x10_0000_0000_0000,
            forall|j: int| 0 <= j < old(self).count() ==> old(self).frames@[j] != f,
        ensures
            final(self).wf(),
            final(self).count() == old(self).count() + 1,
            final(self).table_frames() == old(self).table_frames().push(f),
            final(self).child(t as int, i as int) == Some(old(self).count()),
            forall|w: int| #[trigger] final(self).leaf(w) == old(self).leaf(w),
            forall|w: int, l: int|
                0 <= l <= 3 && old(self).slot(w, l) is Some ==> #[trigger] final(self).slot(w, l) == old(self).slot(w, l),
            forall|u: int, k: int|
                0 <= u < old(self).count() && 0 <= k < 512 && (u != t || k != i) ==> #[trigger] final(self).entry(u, k)
                    == old(self).entry(u, k),
    {
        let ghost before = *self;
        self.tables.push(zero_table());
        self.frames.push(f);
        self.parent = Ghost(self.parent@.push((t as int, i as int)));
        self.level = Ghost(self.level@.push(self.level@[t as int] - 1));
        let ghost mid = *self;
        assert forall|u: int, k: int|
            0 <= u < before.count() && 0 <= k < 512 implies #[trigger] mid.entry(u, k) == before.entry(u, k) by {
            assert(mid.tables@[u] == before.tables@[u]);
        }
        self.set_entry(t, i, f | (PRESENT | WRITABLE));
        proof {
            assert forall|k: int| 0 <= k < 512 implies #[trigger] self.entry(before.count(), k) == 0 by {
                assert(mid.entry(before.count(), k) == 0);
            }
            before.lemma_grow(*self, t as int, i as int, f);
        }
    }

    /// The level-1 table holding `vaddr`'s leaf entry. With `create`, missing
    /// tables on the way are taken from `fa` and hung in with present and
    /// writable set; `None` then means `fa` ran out. Without `create`, nothing
    /// changes and `None` means the walk hit a missing table.
    pub fn get_entry(&mut self, vaddr: usize, create: bool, fa: &mut FrameAllocator) -> (r: Option<usize>)
        requires
            old(self).wf(),
            old(fa).wf(),
            old(self).backed_by(*old(fa)),
        ensures
            final(self).wf(),
            final(fa).wf(),
            final(self).backed_by(*final(fa)),
            final(fa).same_layout(*old(fa)),
            final(fa).cursor() == old(fa).cursor(),
            forall|q: int| old(fa).owns(q) ==> #[trigger] final(fa).owns(q),
            frames_accounted(*old(fa), *final(fa), *final(self), 0, 0),
            forall|j: int|
                0 <= j < old(self).table_frames().len() ==> #[trigger] final(self).table_frames()[j]
                    == old(self).table_frames()[j],
            final(self).table_frames().len() >= old(self).table_frames().len(),
            old(self).slot(vaddr as int, 0) is Some ==> r == Some(old(self).slot(vaddr as int, 0).unwrap() as usize)
                && *final(self) == *old(self) && *final(fa) == *old(fa),
            forall|w: int| #[trigger] final(self).leaf(w) == old(self).leaf(w),
            match r {
                Some(t) => final(self).slot(vaddr as int, 0) == Some(t as int) && t < final(self).count()
                    && final(self).walk_writable(vaddr as int),
                None => if create {
                    final(fa).full()
                } else {
                    old(self).slot(vaddr as int, 0) is None
                },
            },
            !create ==> *final(self) == *old(self) && *final(fa) == *old(fa),
    {
        if !create {
            let r = self.walk(vaddr);
            proof {
                if r is Some {
                    self.lemma_walk_writable(vaddr as int);
                }
            }
            return r;
        }
        let mut t: usize = 0;
        let mut lvl: usize = 3;
        while lvl > 0
            invariant
                create,
                self.wf(),
                fa.wf(),
                self.backed_by(*fa),
                fa.same_layout(*old(fa)),
                fa.cursor() == old(fa).cursor(),
                forall|q: int| old(fa).owns(q) ==> #[trigger] fa.owns(q),
                frames_accounted(*old(fa), *fa, *self, 0, 0),
                forall|j: int|
                    0 <= j < old(self).table_frames().len() ==> #[trigger] self.table_frames()[j]
                        == old(self).table_frames()[j],
                self.table_frames().len() >= old(self).table_frames().len(),
                old(self).slot(vaddr as int, 0) is Some ==> *self == *old(self) && *fa == *old(fa),
                forall|w: int| #[trigger] self.leaf(w) == old(self).leaf(w),
                lvl <= 3,
                t < self.count(),
                self.slot(vaddr as int, lvl as int) == Some(t as int),
            decreases lvl,
        {
            let i = get_index(vaddr, lvl);
            let e = self.tables[t][i];
            proof {
                self.lemma_slot_level(vaddr as int, lvl as int);
            }
            if e & PRESENT == 0 {
                proof {
                    // a missing table means the walk had no leaf table to begin with
                    assert(self.slot(vaddr as int, lvl - 1) is None);
                    assert(self.slot(vaddr as int, 0) is None);
                }
                let ghost fa0 = *fa;
                let ghost pt0 = *self;
                let f = match fa.alloc_frame() {
                    Some(f) => f,
                    None => {
                        return None;
                    },
                };
                proof {
                    assert forall|j: int| 0 <= j < self.count() implies self.frames@[j] != f as u64 by {
                        assert(self.table_frames()[j] == self.frames@[j]);
                    }
                }
                self.add_table(t, i, f as u64);
                proof {
                    let n0 = pt0.table_frames().len() as int;
                    assert(self.table_frames()[n0] == f as u64);
                    assert forall|q: int| #[trigger] fa.owns(q) && !old(fa).owns(q) implies self.table_frames().contains(
                        q as u64,
                    ) || exists|k: int| 0 <= k < 0 && #[trigger] self.translation(0 + 4096 * k) == Some(q as u64) by {
                        if q == f as int {
                            assert(self.table_frames()[n0] == q as u64);
                        } else {
                            assert(fa0.owns(q));
                            assert(pt0.table_frames().contains(q as u64));
                            let j = choose|j: int| 0 <= j < n0 && pt0.table_frames()[j] == q as u64;
                            assert(self.table_frames()[j] == q as u64);
                        }
                    }
                    assert forall|j: int| 0 <= j < old(self).table_frames().len() implies #[trigger] self.table_frames()[j]
                        == old(self).table_frames()[j] by {
                        assert(pt0.table_frames()[j] == old(self).table_frames()[j]);
                    }
                    assert forall|j: int| 0 <= j < self.table_frames().len() implies fa.owns(
                        #[trigger] self.table_frames()[j] as int,
                    ) || !fa.in_range(self.table_frames()[j] as int) by {
                        if j < self.table_frames().len() - 1 {
                            assert(self.table_frames()[j] == self.frames@[j]);
                        }
                    }
                }
            }
            let e = self.tables[t][i];
            match self.find_table(e & ADDR_MASK) {
                Some(c) => {
                    t = c;
                },
                None => {
                    proof {
                        assert(present(self.entry(t as int, i as int)));
                    }
                    return None;
                },
            }
            lvl -= 1;
        }
        proof {
            self.lemma_walk_writable(vaddr as int);
        }
        Some(t)
    }

    /// Maps the page of `vaddr`, which must be unmapped, to frame `paddr`,
    /// present and writable. `None` means `fa` had no frame left for a table.
    /// The caller flushes the TLB entry for `vaddr` afterwards.
    pub fn page_map(&mut self, vaddr: usize, paddr: usize, fa: &mut FrameAllocator) -> (r: Option<usize>)
        requires
            old(self).wf(),
            old(fa).wf(),
            old(self).backed_by(*old(fa)),
            old(self).translation(vaddr as int) is None,
            paddr % 4096 == 0,
            paddr < 0x10_0000_0000_0000,
        ensures
            final(self).wf(),
            final(fa).wf(),
            final(self).backed_by(*final(fa)),
            final(fa).same_layout(*old(fa)),
            final(fa).cursor() == old(fa).cursor(),
            forall|q: int| old(fa).owns(q) ==> #[trigger] final(fa).owns(q),
            frames_accounted(*old(fa), *final(fa), *final(self), 0, 0),
            forall|j: int|
                0 <= j < old(self).table_frames().len() ==> #[trigger] final(self).table_frames()[j]
                    == old(self).table_frames()[j],
            final(self).table_frames().len() >= old(self).table_frames().len(),
            old(self).slot(vaddr as int, 0) is Some ==> r is Some,
            match r {
                Some(x) => {
                    &&& x == vaddr
                    &&& final(self).translation(vaddr as int) == Some(paddr as u64)
                    &&& final(self).leaf_flags(vaddr as int) == Some(PRESENT | WRITABLE)
                    &&& final(self).walk_writable(vaddr as int)
                    &&& forall|w: usize|
                        vpn(w as int) != vpn(vaddr as int) ==> #[trigger] final(self).translation(w as int)
                            == old(self).translation(w as int)
                },
                None => {
                    &&& final(fa).full()
                    &&& forall|w: int| #[trigger] final(self).translation(w) == old(self).translation(w)
                },
            },
    {
        let t = match self.get_entry(vaddr, true, fa) {
            Some(t) => t,
            None => {
                return None;
            },
        };
        let i = get_index(vaddr, 0);
        self.write_leaf(vaddr, t, i, (paddr as u64) | (PRESENT | WRITABLE));
        proof {
            assert(1u64 | 2u64 == 3u64 && 3u64 & !0x8000_0000_0000_01ffu64 == 0 && 3u64 & 1u64 != 0)
                by (bit_vector);
            lemma_make_entry(paddr as u64, PRESENT | WRITABLE);
        }
        Some(vaddr)
    }

    /// Stores `e` as the leaf entry of `vaddr`, found in table `t` at `i`.
    fn write_leaf(&mut self, vaddr: usize, t: usize, i: usize, e: u64)
        requires
            old(self).wf(),
            old(self).slot(vaddr as int, 0) == Some(t as int),
            i == index_of(vaddr as int, 0),
        ensures
            final(self).wf(),
            final(self).count() == old(self).count(),
            final(self).table_frames() == old(self).table_frames(),
            final(self).walk_writable(vaddr as int),
            final(self).leaf(vaddr as int) == (if present(e) {
                Some(e)
            } else {
                None
            }),
            forall|w: usize|
                vpn(w as int) != vpn(vaddr as int) ==> #[trigger] final(self).leaf(w as int) == old(self).leaf(w as int),
    {
        proof {
            self.lemma_slot_level(vaddr as int, 0);
        }
        let ghost before = *self;
        self.set_entry(t, i, e);
        proof {
            before.lemma_leaf_write(*self, t as int, i as int);
            assert(self.slot(vaddr as int, 0) == before.slot(vaddr as int, 0));
            self.lemma_walk_writable(vaddr as int);
            assert forall|w: usize|
                vpn(w as int) != vpn(vaddr as int) implies #[trigger] self.leaf(w as int) == before.leaf(w as int) by {
                if before.slot(w as int, 0) == Some(t as int) && index_of(w as int, 0) == i {
                    before.lemma_same_leaf(vaddr, w);
                }
            }
        }
    }

    /// Clears the flags of `vaddr`'s leaf entry if it is mapped; no other page
    /// changes.
    pub fn page_unmap(&mut self, vaddr: usize)
        requires
            old(self).wf(),
        ensures
            final(self).wf(),
            final(self).table_frames() == old(self).table_frames(),
            final(self).translation(vaddr as int) is None,
            forall|w: usize|
                vpn(w as int) != vpn(vaddr as int) ==> #[trigger] final(self).translation(w as int)
                    == old(self).translation(w as int),
    {
        let t = match self.walk(vaddr) {
            Some(t) => t,
            None => {
                return;
            },
        };
        let i = get_index(vaddr, 0);
        let e = self.tables[t][i];
        if e & PRESENT == 0 {
            return;
        }
        let cleared = e & ADDR_MASK;
        assert(cleared & 1u64 == 0) by (bit_vector)
            requires
                cleared == e & 0x000f_ffff_ffff_f000u64,
        ;
        self.write_leaf(vaddr, t, i, cleared);
    }

    /// The frame that `vaddr`'s page is mapped to.
    pub fn translate(&self, vaddr: usize) -> (r: Option<usize>)
        requires
            self.wf(),
        ensures
            match self.translation(vaddr as int) {
                Some(p) => r == Some(p as usize),
                None => r is None,
            },
    {
        let t = match self.walk(vaddr) {
            Some(t) => t,
            None => {
                return None;
            },
        };
        let e = self.tables[t][get_index(vaddr, 0)];
        if e & PRESENT == 0 {
            None
        } else {
            Some((e & ADDR_MASK) as usize)
        }
    }

    /// The flags of `vaddr`'s leaf entry, if it is mapped.
    pub fn flags_of(&self, vaddr: usize) -> (r: Option<u64>)
        requires
            self.wf(),
        ensures
            r == self.leaf_flags(vaddr as int),
    {
        let t = match self.walk(vaddr) {
            Some(t) => t,
            None => {
                return None;
            },
        };
        let e = self.tables[t][get_index(vaddr, 0)];
        if e & PRESENT == 0 {
            None
        } else {
            Some(e & FLAG_BITS)
        }
    }

    /// Maps the page at `addr` onto the frame of the same address, uncached
    /// and write-through, for device registers. `None` means `fa` had no frame
    /// left for a table. The caller flushes the TLB entry afterwards.
    pub fn map_volatile(&mut self, addr: usize, fa: &mut FrameAllocator) -> (r: Option<usize>)
        requires
            old(self).wf(),
            old(fa).wf(),
            old(self).backed_by(*old(fa)),
            addr % 4096 == 0,
            addr < 0x10_0000_0000_0000,
        ensures
            final(self).wf(),
            final(fa).wf(),
            final(self).backed_by(*final(fa)),
            final(fa).same_layout(*old(fa)),
            final(fa).cursor() == old(fa).cursor(),
            forall|q: int| old(fa).owns(q) ==> #[trigger] final(fa).owns(q),
            frames_accounted(*old(fa), *final(fa), *final(self), 0, 0),
            match r {
                Some(x) => {
                    &&& x == addr
                    &&& final(self).translation(addr as int) == Some(addr as u64)
                    &&& final(self).leaf_flags(addr as int) == Some(PRESENT | WRITABLE | NO_CACHE | WRITE_THROUGH)
                    &&& final(self).walk_writable(addr as int)
                    &&& forall|w: usize|
                        vpn(w as int) != vpn(addr as int) ==> #[trigger] final(self).translation(w as int)
                            == old(self).translation(w as int)
                },
                None => {
                    &&& final(fa).full()
                    &&& forall|w: int| #[trigger] final(self).translation(w) == old(self).translation(w)
                },
            },
    {
        let t = match self.get_entry(addr, true, fa) {
            Some(t) => t,
            None => {
                return None;
            },
        };
        let i = get_index(addr, 0);
        self.write_leaf(addr, t, i, (addr as u64) | (PRESENT | WRITABLE | NO_CACHE | WRITE_THROUGH));
        proof {
            assert(1u64 | 2u64 | 0x10u64 | 0x8u64 == 0x1bu64 && 0x1bu64 & !0x8000_0000_0000_01ffu64 == 0
                && 0x1bu64 & 1u64 != 0) by (bit_vector);
            lemma_make_entry(addr as u64, PRESENT | WRITABLE | NO_CACHE | WRITE_THROUGH);
        }
        Some(addr)
    }
}

} // verus!
