//! Slab-style kernel heap: 4 KiB arenas carved into blocks, served first fit,
//! and a path for requests above `MAX_BLOCK_SIZE` that takes whole pages.
use vstd::prelude::*;
use crate::frame::{FrameAllocator, PAGE_SIZE, range_fits, frames_accounted};
use crate::paging::PageTable;

verus! {

pub const BLOCK_MAGIC: usize = 0xdeadbeef;

/// Smallest payload a block is split down to.
pub const MIN_BLOCK_SIZE: usize = 8;

/// Largest request served from an arena.
pub const MAX_BLOCK_SIZE: usize = 3072;

/// Space taken by a block header, rounded up to 16 bytes.
pub const BLOCK_HEADER: usize = 48;

/// Space taken by an arena header, rounded up to 16 bytes.
pub const ARENA_HEADER: usize = 32;

/// A block header: the block starts at `addr`, its payload at
/// `addr + BLOCK_HEADER` and runs for `length` bytes.
#[derive(Clone, Copy, Debug, PartialEq, Eq, Structural)]
pub struct Block {
    pub addr: usize,
    pub length: usize,
    pub free: bool,
    pub magic: usize,
}

/// The request size actually served: at least `MIN_BLOCK_SIZE`, rounded up
/// to 16 bytes.
pub open spec fn rounded(len: int) -> int {
    let l = if len < MIN_BLOCK_SIZE {
        MIN_BLOCK_SIZE as int
    } else {
        len
    };
    ((l + 15) / 16) * 16
}

pub open spec fn fits(b: Block, len_r: int) -> bool {
    b.free && b.length >= len_r
}

/// The first block from index `k` on that can serve `len_r` bytes.
pub open spec fn first_fit_from(blocks: Seq<Block>, len_r: int, k: int) -> Option<int>
    decreases blocks.len() - k,
{
    if k < 0 || k >= blocks.len() {
        None
    } else if fits(blocks[k], len_r) {
        Some(k)
    } else {
        first_fit_from(blocks, len_r, k + 1)
    }
}

/// Block `k` handed out for `len_r` bytes: split when the rest can hold a
/// header and `MIN_BLOCK_SIZE` bytes, the rest staying free right after it.
pub open spec fn take_block(blocks: Seq<Block>, k: int, len_r: int) -> Seq<Block> {
    let b = blocks[k];
    if b.length >= BLOCK_HEADER + MIN_BLOCK_SIZE + len_r {
        blocks.take(k).push(Block { length: len_r as usize, free: false, ..b }).push(
            Block {
                addr: (b.addr + BLOCK_HEADER + len_r) as usize,
                length: (b.length - BLOCK_HEADER - len_r) as usize,
                free: true,
                magic: BLOCK_MAGIC,
            },
        ) + blocks.skip(k + 1)
    } else {
        blocks.update(k, Block { free: false, ..b })
    }
}

/// The block whose payload starts at `p` and is held by a caller.
pub open spec fn held_at(blocks: Seq<Block>, p: int) -> Option<int> {
    if exists|k: int| 0 <= k < blocks.len() && !blocks[k].free && blocks[k].addr + BLOCK_HEADER == p {
        Some(choose|k: int| 0 <= k < blocks.len() && !blocks[k].free && blocks[k].addr + BLOCK_HEADER == p)
    } else {
        None
    }
}

proof fn lemma_first_fit(blocks: Seq<Block>, len_r: int, k: int, m: int)
    requires
        0 <= k <= m < blocks.len(),
        fits(blocks[m], len_r),
        forall|j: int| k <= j < m ==> !fits(blocks[j], len_r),
    ensures
        first_fit_from(blocks, len_r, k) == Some(m),
    decreases m - k,
{
    if k < m {
        lemma_first_fit(blocks, len_r, k + 1, m);
    }
}

proof fn lemma_first_fit_shape(blocks: Seq<Block>, len_r: int, k: int)
    requires
        0 <= k <= blocks.len(),
    ensures
        match first_fit_from(blocks, len_r, k) {
            Some(m) => k <= m < blocks.len() && fits(blocks[m], len_r) && forall|j: int|
                k <= j < m ==> !fits(#[trigger] blocks[j], len_r),
            None => forall|j: int| k <= j < blocks.len() ==> !fits(#[trigger] blocks[j], len_r),
        },
    decreases blocks.len() - k,
{
    if k < blocks.len() {
        lemma_first_fit_shape(blocks, len_r, k + 1);
    }
}

/// A 4 KiB page at `base`: a header, then blocks that tile the rest of the
/// page in address order. The free ones, in that order, are its free list.
pub struct Arena {
    base: usize,
    blocks: Vec<Block>,
}

impl Arena {
    pub closed spec fn base_addr(self) -> int {
        self.base as int
    }

    pub closed spec fn block_seq(self) -> Seq<Block> {
        self.blocks@
    }

    /// The blocks tile `[base + ARENA_HEADER, base + 4096)`, every header is
    /// intact and every length is a multiple of 16 of at least
    /// `MIN_BLOCK_SIZE`.
    pub closed spec fn wf(self) -> bool {
        let b = self.blocks@;
        &&& self.base % 4096 == 0
        &&& self.base + 4096 <= usize::MAX
        &&& b.len() >= 1
        &&& b[0].addr == self.base + ARENA_HEADER
        &&& forall|k: int| 0 <= k < b.len() - 1 ==> #[trigger] b[k + 1].addr == b[k].addr + BLOCK_HEADER + b[k].length
        &&& b[b.len() - 1].addr + BLOCK_HEADER + b[b.len() - 1].length == self.base + 4096
        &&& forall|k: int| 0 <= k < b.len() ==> (#[trigger] b[k]).magic == BLOCK_MAGIC
        &&& forall|k: int| 0 <= k < b.len() ==> (#[trigger] b[k]).length % 16 == 0
        &&& forall|k: int| 0 <= k < b.len() ==> (#[trigger] b[k]).length >= MIN_BLOCK_SIZE
    }

    proof fn lemma_in_page(self, k: int)
        requires
            self.wf(),
            0 <= k < self.blocks@.len(),
        ensures
            self.base + ARENA_HEADER <= self.blocks@[k].addr,
            self.blocks@[k].addr + BLOCK_HEADER + self.blocks@[k].length <= self.base + 4096,
            self.blocks@[k].addr % 16 == 0,
        decreases k,
    {
        if k > 0 {
            let j = k - 1;
            self.lemma_in_page(j);
            let b = self.blocks@;
            assert(b[j + 1].addr == b[j].addr + BLOCK_HEADER + b[j].length);
            assert(b[k].addr % 16 == 0) by (nonlinear_arith)
                requires
                    b[k].addr == b[j].addr + 48 + b[j].length,
                    b[j].addr % 16 == 0,
                    b[j].length % 16 == 0,
            ;
        } else {
            assert(self.blocks@[0].addr % 16 == 0) by (nonlinear_arith)
                requires
                    self.blocks@[0].addr == self.base + 32,
                    self.base % 4096 == 0,
            ;
        }
        self.lemma_end(k);
    }

    proof fn lemma_end(self, k: int)
        requires
            self.wf(),
            0 <= k < self.blocks@.len(),
        ensures
            self.blocks@[k].addr + BLOCK_HEADER + self.blocks@[k].length <= self.base + 4096,
        decreases self.blocks@.len() - k,
    {
        if k < self.blocks@.len() - 1 {
            self.lemma_end(k + 1);
            assert(self.blocks@[k + 1].addr == self.blocks@[k].addr + BLOCK_HEADER + self.blocks@[k].length);
        }
    }

    /// A fresh arena in the page at `base`: one free block spanning it.
    pub fn new(base: usize) -> (r: Arena)
        requires
            base % 4096 == 0,
            base + 4096 <= usize::MAX,
        ensures
            r.wf(),
            r.base_addr() == base,
            r.block_seq() == seq![
                Block { addr: (base + ARENA_HEADER) as usize, length: (PAGE_SIZE - ARENA_HEADER - BLOCK_HEADER) as usize, free: true, magic: BLOCK_MAGIC },
            ],
    {
        let mut blocks: Vec<Block> = Vec::new();
        blocks.push(
            Block {
                addr: base + ARENA_HEADER,
                length: PAGE_SIZE - ARENA_HEADER - BLOCK_HEADER,
                free: true,
                magic: BLOCK_MAGIC,
            },
        );
        let r = Arena { base, blocks };
        assert(r.blocks@ =~= seq![
            Block { addr: (base + ARENA_HEADER) as usize, length: (PAGE_SIZE - ARENA_HEADER - BLOCK_HEADER) as usize, free: true, magic: BLOCK_MAGIC },
        ]);
        r
    }

    /// Splits block `k`, about to be handed out for `target` bytes, when the
    /// rest can hold a header and `MIN_BLOCK_SIZE` bytes; the rest becomes a
    /// free block right after it.
    fn shrink_to_fit(&mut self, k: usize, target: usize)
        requires
            old(self).wf(),
            k < old(self).block_seq().len(),
            old(self).block_seq()[k as int].length >= target,
            target % 16 == 0,
            target >= MIN_BLOCK_SIZE,
        ensures
            final(self).base_addr() == old(self).base_addr(),
            final(self).block_seq() == take_block(old(self).block_seq(), k as int, target as int).update(
                k as int,
                Block { free: old(self).block_seq()[k as int].free, ..take_block(old(self).block_seq(), k as int, target as int)[k as int] },
            ),
    {
        let n = self.blocks.len();
        let b = self.blocks[k];
        proof {
            self.lemma_in_page(k as int);
        }
        if b.length < BLOCK_HEADER + MIN_BLOCK_SIZE + target {
            assert(self.blocks@ =~= take_block(old(self).block_seq(), k as int, target as int).update(
                k as int,
                Block { free: b.free, ..take_block(old(self).block_seq(), k as int, target as int)[k as int] },
            ));
            return;
        }
        let rest = Block {
            addr: b.addr + BLOCK_HEADER + target,
            length: b.length - BLOCK_HEADER - target,
            free: true,
            magic: BLOCK_MAGIC,
        };
        self.blocks.set(k, Block { length: target, ..b });
        self.blocks.insert(k + 1, rest);
        assert(self.blocks@ =~= take_block(old(self).block_seq(), k as int, target as int).update(
            k as int,
            Block { free: b.free, ..take_block(old(self).block_seq(), k as int, target as int)[k as int] },
        ));
    }

    /// Hands out the first free block of at least `len_r` bytes, split down
    /// to size; returns its payload address.
    pub fn allocate(&mut self, len_r: usize) -> (r: Option<usize>)
        requires
            old(self).wf(),
            len_r % 16 == 0,
            len_r >= MIN_BLOCK_SIZE,
        ensures
            final(self).wf(),
            final(self).base_addr() == old(self).base_addr(),
            match first_fit_from(old(self).block_seq(), len_r as int, 0) {
                Some(k) => {
                    &&& r == Some((old(self).block_seq()[k].addr + BLOCK_HEADER) as usize)
                    &&& final(self).block_seq() == take_block(old(self).block_seq(), k, len_r as int)
                },
                None => r is None && *final(self) == *old(self),
            },
    {
        let mut k: usize = 0;
        while k < self.blocks.len()
            invariant
                *self == *old(self),
                self.wf(),
                len_r % 16 == 0,
                len_r >= MIN_BLOCK_SIZE,
                k <= self.blocks@.len(),
                first_fit_from(self.blocks@, len_r as int, 0) == first_fit_from(self.blocks@, len_r as int, k as int),
            decreases self.blocks@.len() - k,
        {
            let b = self.blocks[k];
            if b.free && b.length >= len_r {
                proof {
                    self.lemma_in_page(k as int);
                }
                self.shrink_to_fit(k, len_r);
                self.blocks.set(k, Block { free: false, ..self.blocks[k] });
                proof {
                    assert(self.blocks@ =~= take_block(old(self).block_seq(), k as int, len_r as int));
                    self.lemma_take_wf(*old(self), k as int, len_r as int);
                }
                return Some(b.addr + BLOCK_HEADER);
            }
            k += 1;
        }
        None
    }

    proof fn lemma_take_wf(self, before: Arena, k: int, len_r: int)
        requires
            before.wf(),
            0 <= k < before.blocks@.len(),
            fits(before.blocks@[k], len_r),
            len_r % 16 == 0,
            len_r >= MIN_BLOCK_SIZE,
            self.base == before.base,
            self.blocks@ == take_block(before.blocks@, k, len_r),
        ensures
            self.wf(),
    {
        let b = before.blocks@;
        let s = self.blocks@;
        before.lemma_in_page(k);
        if b[k].length >= BLOCK_HEADER + MIN_BLOCK_SIZE + len_r {
            let pre = b.take(k).push(Block { length: len_r as usize, free: false, ..b[k] }).push(
                Block {
                    addr: (b[k].addr + BLOCK_HEADER + len_r) as usize,
                    length: (b[k].length - BLOCK_HEADER - len_r) as usize,
                    free: true,
                    magic: BLOCK_MAGIC,
                },
            );
            assert(s == pre + b.skip(k + 1));
            assert(pre.len() == k + 2);
            assert(s.len() == b.len() + 1);
            assert forall|j: int| 0 <= j < k implies #[trigger] s[j] == b[j] by {
                assert(pre[j] == b[j]);
            }
            assert forall|j: int| k + 2 <= j < s.len() implies #[trigger] s[j] == b[j - 1] by {
                assert(s[j] == b.skip(k + 1)[j - (k + 2)]);
            }
            assert(s[k] == pre[k]);
            assert(s[k + 1] == pre[k + 1]);
            assert forall|j: int| 0 <= j < s.len() - 1 implies #[trigger] s[j + 1].addr == s[j].addr + BLOCK_HEADER
                + s[j].length by {
                if j < k {
                    assert(b[j + 1].addr == b[j].addr + BLOCK_HEADER + b[j].length);
                    if j + 1 < k {
                        assert(s[j + 1] == b[j + 1]);
                    }
                } else if j == k + 1 {
                    assert(s[k + 2] == b[k + 1]);
                    assert(b[k + 1].addr == b[k].addr + BLOCK_HEADER + b[k].length);
                } else if j > k + 1 {
                    let i = j - 1;
                    assert(s[j] == b[i]);
                    assert(s[j + 1] == b[i + 1]);
                    assert(b[i + 1].addr == b[i].addr + BLOCK_HEADER + b[i].length);
                }
            }
            assert forall|j: int| 0 <= j < s.len() implies (#[trigger] s[j]).magic == BLOCK_MAGIC && s[j].length % 16 == 0
                && s[j].length >= MIN_BLOCK_SIZE by {
                if j < k {
                    assert(s[j] == b[j]);
                } else if j > k + 1 {
                    assert(s[j] == b[j - 1]);
                } else if j == k + 1 {
                    assert((b[k].length - 48 - len_r) % 16 == 0) by (nonlinear_arith)
                        requires
                            b[k].length % 16 == 0,
                            len_r % 16 == 0,
                            b[k].length >= 48 + len_r,
                    ;
                }
            }
            if k == b.len() - 1 {
                assert(s[s.len() - 1] == s[k + 1]);
            } else {
                assert(s[s.len() - 1] == b[b.len() - 1]);
            }
            if k == 0 {
                assert(s[0].addr == b[0].addr);
            } else {
                assert(s[0] == b[0]);
            }
        } else {
            assert forall|j: int| 0 <= j < s.len() - 1 implies #[trigger] s[j + 1].addr == s[j].addr + BLOCK_HEADER
                + s[j].length by {
                assert(b[j + 1].addr == b[j].addr + BLOCK_HEADER + b[j].length);
            }
            assert forall|j: int| 0 <= j < s.len() implies (#[trigger] s[j]).magic == BLOCK_MAGIC && s[j].length % 16 == 0
                && s[j].length >= MIN_BLOCK_SIZE by {
                assert(b[j].magic == BLOCK_MAGIC);
            }
        }
    }

    /// Puts the held block whose payload is at `p` back on the free list;
    /// `false`, with nothing changed, when no held block of this arena has
    /// its payload there.
    pub fn free(&mut self, p: usize) -> (r: bool)
        requires
            old(self).wf(),
        ensures
            final(self).wf(),
            final(self).base_addr() == old(self).base_addr(),
            match held_at(old(self).block_seq(), p as int) {
                Some(k) => r && final(self).block_seq() == old(self).block_seq().update(
                    k,
                    Block { free: true, ..old(self).block_seq()[k] },
                ),
                None => !r && *final(self) == *old(self),
            },
    {
        if p < self.base || p >= self.base + PAGE_SIZE {
            proof {
                assert forall|k: int| 0 <= k < self.blocks@.len() implies !(!self.blocks@[k].free
                    && self.blocks@[k].addr + BLOCK_HEADER == p) by {
                    self.lemma_in_page(k);
                }
            }
            return false;
        }
        let mut k: usize = 0;
        while k < self.blocks.len()
            invariant
                *self == *old(self),
                self.wf(),
                k <= self.blocks@.len(),
                forall|j: int| 0 <= j < k ==> !(!self.blocks@[j].free && self.blocks@[j].addr + BLOCK_HEADER == p),
            decreases self.blocks@.len() - k,
        {
            let b = self.blocks[k];
            proof {
                self.lemma_in_page(k as int);
            }
            if !b.free && b.addr + BLOCK_HEADER == p {
                proof {
                    self.lemma_unique_block(k as int);
                }
                self.blocks.set(k, Block { free: true, ..b });
                proof {
                    let s = self.blocks@;
                    let o = old(self).block_seq();
                    assert forall|j: int| 0 <= j < s.len() - 1 implies #[trigger] s[j + 1].addr == s[j].addr
                        + BLOCK_HEADER + s[j].length by {
                        assert(o[j + 1].addr == o[j].addr + BLOCK_HEADER + o[j].length);
                    }
                    assert forall|j: int| 0 <= j < s.len() implies (#[trigger] s[j]).magic == BLOCK_MAGIC
                        && s[j].length % 16 == 0 && s[j].length >= MIN_BLOCK_SIZE by {
                        assert(o[j].magic == BLOCK_MAGIC);
                    }
                }
                return true;
            }
            k += 1;
        }
        false
    }

    /// Block addresses strictly increase.
    proof fn lemma_ascending(self, j: int, k: int)
        requires
            self.wf(),
            0 <= j < k < self.blocks@.len(),
        ensures
            self.blocks@[j].addr < self.blocks@[k].addr,
        decreases k - j,
    {
        let i = k - 1;
        if j < i {
            self.lemma_ascending(j, i);
        }
        assert(self.blocks@[i + 1].addr == self.blocks@[i].addr + BLOCK_HEADER + self.blocks@[i].length);
    }

    proof fn lemma_unique_block(self, k: int)
        requires
            self.wf(),
            0 <= k < self.blocks@.len(),
            !self.blocks@[k].free,
        ensures
            held_at(self.blocks@, self.blocks@[k].addr + BLOCK_HEADER) == Some(k),
    {
        let p = self.blocks@[k].addr + BLOCK_HEADER;
        assert forall|j: int| 0 <= j < self.blocks@.len() && j != k implies self.blocks@[j].addr != self.blocks@[k].addr by {
            if j < k {
                self.lemma_ascending(j, k);
            } else {
                self.lemma_ascending(k, j);
            }
        }
    }
}

/// The first arena from index `i` on with a block that can serve `len_r`
/// bytes, and that block.
pub open spec fn heap_first_fit(layout: Seq<Seq<Block>>, len_r: int, i: int) -> Option<(int, int)>
    decreases layout.len() - i,
{
    if i < 0 || i >= layout.len() {
        None
    } else {
        match first_fit_from(layout[i], len_r, 0) {
            Some(k) => Some((i, k)),
            None => heap_first_fit(layout, len_r, i + 1),
        }
    }
}

/// The first arena from index `i` on holding a handed-out block whose
/// payload is at `p`, and that block.
pub open spec fn heap_held_at(layout: Seq<Seq<Block>>, p: int, i: int) -> Option<(int, int)>
    decreases layout.len() - i,
{
    if i < 0 || i >= layout.len() {
        None
    } else {
        match held_at(layout[i], p) {
            Some(k) => Some((i, k)),
            None => heap_held_at(layout, p, i + 1),
        }
    }
}

/// The first huge block from index `k` on whose payload is at `p`.
pub open spec fn huge_at(huge: Seq<Block>, p: int, k: int) -> Option<int>
    decreases huge.len() - k,
{
    if k < 0 || k >= huge.len() {
        None
    } else if huge[k].addr + BLOCK_HEADER == p {
        Some(k)
    } else {
        huge_at(huge, p, k + 1)
    }
}

/// Block `k` of arena `i` put back on its free list.
pub open spec fn freed(layout: Seq<Seq<Block>>, i: int, k: int) -> Seq<Seq<Block>> {
    layout.update(i, layout[i].update(k, Block { free: true, ..layout[i][k] }))
}

/// Why `huge_pages(len)` pages could not be had: the byte count overflows,
/// the run would pass the end of the virtual address space or meet a mapped
/// page, or frames ran out (`fa_after` is the allocator afterwards).
pub open spec fn no_pages(len: int, fa: FrameAllocator, pt: PageTable, fa_after: FrameAllocator) -> bool {
    ||| len + BLOCK_HEADER - 1 > usize::MAX
    ||| !range_fits(fa.cursor(), huge_pages(len))
    ||| exists|k: int| 0 <= k < huge_pages(len) && (#[trigger] pt.translation(fa.cursor() + 4096 * k)) is Some
    ||| fa_after.full()
}

pub open spec fn disjoint(lo1: int, hi1: int, lo2: int, hi2: int) -> bool {
    hi1 <= lo2 || hi2 <= lo1
}

/// End of the pages a huge block takes.
pub open spec fn huge_end(b: Block) -> int {
    b.addr + 4096 * huge_pages(b.length as int)
}

/// Pages taken by a huge block of `len` payload bytes.
pub open spec fn huge_pages(len: int) -> int {
    (len + BLOCK_HEADER - 1) / 4096 + 1
}

/// The arenas, linked in order of creation, and the huge blocks handed out.
pub struct HeapAllocator {
    arenas: Vec<Arena>,
    huge: Vec<Block>,
}

impl HeapAllocator {
    /// The blocks of each arena.
    pub closed spec fn layout(self) -> Seq<Seq<Block>> {
        self.arenas@.map_values(|a: Arena| a.block_seq())
    }

    /// The page of each arena.
    pub closed spec fn bases(self) -> Seq<int> {
        self.arenas@.map_values(|a: Arena| a.base_addr())
    }

    /// The huge blocks handed out.
    pub closed spec fn huge_blocks(self) -> Seq<Block> {
        self.huge@
    }

    /// Each arena is well formed and no two share a page.
    pub closed spec fn wf(self) -> bool {
        &&& forall|i: int| 0 <= i < self.arenas@.len() ==> (#[trigger] self.arenas@[i]).wf()
        &&& forall|i: int, j: int|
            0 <= i < self.arenas@.len() && 0 <= j < self.arenas@.len() && i != j ==> (#[trigger] self.arenas@[i]).base
                != (#[trigger] self.arenas@[j]).base
        &&& forall|k: int| 0 <= k < self.huge@.len() ==> (#[trigger] self.huge@[k]).addr % 4096 == 0
            && self.huge@[k].addr + BLOCK_HEADER <= usize::MAX
            && self.huge@[k].length + BLOCK_HEADER - 1 <= usize::MAX
            && range_fits(self.huge@[k].addr as int, huge_pages(self.huge@[k].length as int))
        &&& forall|k1: int, k2: int|
            0 <= k1 < self.huge@.len() && 0 <= k2 < self.huge@.len() && k1 != k2 ==> disjoint(
                (#[trigger] self.huge@[k1]).addr as int,
                huge_end(self.huge@[k1]),
                (#[trigger] self.huge@[k2]).addr as int,
                huge_end(self.huge@[k2]),
            )
        &&& forall|k: int, i: int|
            0 <= k < self.huge@.len() && 0 <= i < self.arenas@.len() ==> disjoint(
                (#[trigger] self.huge@[k]).addr as int,
                huge_end(self.huge@[k]),
                (#[trigger] self.arenas@[i]).base as int,
                self.arenas@[i].base + 4096,
            )
    }

    /// `[lo, hi)` meets no arena page and no huge block's pages.
    pub open spec fn range_unused(self, lo: int, hi: int) -> bool {
        &&& forall|i: int| 0 <= i < self.bases().len() ==> disjoint(lo, hi, #[trigger] self.bases()[i], self.bases()[i] + 4096)
        &&& forall|k: int|
            0 <= k < self.huge_blocks().len() ==> disjoint(
                lo,
                hi,
                (#[trigger] self.huge_blocks()[k]).addr as int,
                huge_end(self.huge_blocks()[k]),
            )
    }

    /// Whether `[lo, hi)` meets no arena page and no huge block's pages.
    fn range_free(&self, lo: usize, hi: usize) -> (r: bool)
        requires
            self.wf(),
        ensures
            r == self.range_unused(lo as int, hi as int),
    {
        let n = self.arenas.len();
        let mut i: usize = 0;
        while i < n
            invariant
                self.wf(),
                n == self.arenas@.len(),
                i <= n,
                forall|a: int| 0 <= a < i ==> disjoint(lo as int, hi as int, #[trigger] self.bases()[a], self.bases()[a] + 4096),
            decreases n - i,
        {
            let base = self.arenas[i].base;
            assert(self.bases()[i as int] == base);
            assert(self.arenas@[i as int].wf());
            if !(hi <= base || base + PAGE_SIZE <= lo) {
                return false;
            }
            i += 1;
        }
        let m = self.huge.len();
        let mut k: usize = 0;
        while k < m
            invariant
                self.wf(),
                m == self.huge@.len(),
                k <= m,
                forall|a: int| 0 <= a < n ==> disjoint(lo as int, hi as int, #[trigger] self.bases()[a], self.bases()[a] + 4096),
                forall|a: int|
                    0 <= a < k ==> disjoint(
                        lo as int,
                        hi as int,
                        (#[trigger] self.huge_blocks()[a]).addr as int,
                        huge_end(self.huge_blocks()[a]),
                    ),
            decreases m - k,
        {
            let b = self.huge[k];
            let pages = (b.length + (BLOCK_HEADER - 1)) / PAGE_SIZE + 1;
            proof {
                assert(self.huge_blocks()[k as int] == b);
                assert(4096 * pages <= usize::MAX - b.addr);
            }
            let end = b.addr + PAGE_SIZE * pages;
            if !(hi <= b.addr || end <= lo) {
                return false;
            }
            k += 1;
        }
        true
    }

    /// An empty heap.
    pub fn new() -> (r: HeapAllocator)
        ensures
            r.wf(),
            r.layout() == Seq::<Seq<Block>>::empty(),
            r.huge_blocks() == Seq::<Block>::empty(),
    {
        let r = HeapAllocator { arenas: Vec::new(), huge: Vec::new() };
        assert(r.layout() =~= Seq::<Seq<Block>>::empty());
        r
    }

    proof fn lemma_fit_prefix(layout: Seq<Seq<Block>>, len_r: int, i: int, m: int)
        requires
            0 <= i <= m <= layout.len(),
            forall|j: int| i <= j < m ==> first_fit_from(#[trigger] layout[j], len_r, 0) is None,
        ensures
            heap_first_fit(layout, len_r, i) == heap_first_fit(layout, len_r, m),
        decreases m - i,
    {
        if i < m {
            Self::lemma_fit_prefix(layout, len_r, i + 1, m);
        }
    }

    proof fn lemma_held_prefix(layout: Seq<Seq<Block>>, p: int, i: int, m: int)
        requires
            0 <= i <= m <= layout.len(),
            forall|j: int| i <= j < m ==> held_at(#[trigger] layout[j], p) is None,
        ensures
            heap_held_at(layout, p, i) == heap_held_at(layout, p, m),
        decreases m - i,
    {
        if i < m {
            Self::lemma_held_prefix(layout, p, i + 1, m);
        }
    }

    /// Hands out `len` bytes, 16-byte aligned, and returns their address.
    /// Up to `MAX_BLOCK_SIZE` bytes come from the first arena with a block
    /// that fits, else from a new arena in a fresh frame; more take whole
    /// pages. `None` means frames or virtual pages ran out.
    #[verifier::rlimit(40)]
    pub fn allocate(&mut self, len: usize, fa: &mut FrameAllocator, pt: &mut PageTable) -> (r: Option<usize>)
        requires
            old(self).wf(),
            old(fa).wf(),
            old(pt).wf(),
            old(pt).backed_by(*old(fa)),
        ensures
            final(self).wf(),
            final(fa).wf(),
            final(pt).wf(),
            final(pt).backed_by(*final(fa)),
            final(fa).same_layout(*old(fa)),
            forall|q: int| old(fa).owns(q) ==> #[trigger] final(fa).owns(q),
            len <= MAX_BLOCK_SIZE ==> forall|q: int|
                #[trigger] final(fa).owns(q) && !old(fa).owns(q) ==> (r is Some && final(self).bases().len()
                    == old(self).bases().len() + 1 && q == final(self).bases().last()) || (r is None
                    && !old(self).range_unused(q, q + 4096)),
            len > MAX_BLOCK_SIZE ==> frames_accounted(
                *old(fa),
                *final(fa),
                *final(pt),
                old(fa).cursor(),
                huge_pages(len as int),
            ),
            r matches Some(p) ==> p % 16 == 0,
            len <= MAX_BLOCK_SIZE ==> final(self).huge_blocks() == old(self).huge_blocks() && match heap_first_fit(
                old(self).layout(),
                rounded(len as int),
                0,
            ) {
                Some((i, k)) => {
                    &&& r == Some((old(self).layout()[i][k].addr + BLOCK_HEADER) as usize)
                    &&& final(self).layout() == old(self).layout().update(
                        i,
                        take_block(old(self).layout()[i], k, rounded(len as int)),
                    )
                    &&& *final(fa) == *old(fa)
                },
                None => match r {
                    Some(p) => {
                        let base = final(self).bases().last();
                        let fresh = seq![
                            Block { addr: (base + ARENA_HEADER) as usize, length: (PAGE_SIZE - ARENA_HEADER - BLOCK_HEADER) as usize, free: true, magic: BLOCK_MAGIC },
                        ];
                        &&& !old(fa).owns(base)
                        &&& final(fa).owns(base)
                        &&& p == base + ARENA_HEADER + BLOCK_HEADER
                        &&& final(self).layout() == old(self).layout().push(take_block(fresh, 0, rounded(len as int)))
                    },
                    None => final(self).layout() == old(self).layout() && (final(fa).full() || exists|q: int|
                        !old(fa).owns(q) && #[trigger] final(fa).owns(q) && !old(self).range_unused(q, q + 4096)),
                },
            },
            len > MAX_BLOCK_SIZE ==> final(self).layout() == old(self).layout() && match r {
                Some(p) => {
                    &&& p >= BLOCK_HEADER
                    &&& final(self).huge_blocks() == old(self).huge_blocks().push(
                        Block { addr: (p - BLOCK_HEADER) as usize, length: len, free: false, magic: BLOCK_MAGIC },
                    )
                    &&& forall|k: int|
                        0 <= k < huge_pages(len as int) ==> (#[trigger] final(pt).translation(p - BLOCK_HEADER + 4096 * k)) is Some
                },
                None => final(self).huge_blocks() == old(self).huge_blocks() && (no_pages(
                    len as int,
                    *old(fa),
                    *old(pt),
                    *final(fa),
                ) || !old(self).range_unused(old(fa).cursor(), old(fa).cursor() + 4096 * huge_pages(len as int))),
            },
    {
        if len > MAX_BLOCK_SIZE {
            return self.allocate_huge(len, fa, pt);
        }
        let len_r = if len < MIN_BLOCK_SIZE {
            MIN_BLOCK_SIZE
        } else {
            len
        };
        let len_r = (len_r + 15) / 16 * 16;
        assert(len_r == rounded(len as int));
        let n = self.arenas.len();
        let mut i: usize = 0;
        while i < n
            invariant
                self.arenas@ == old(self).arenas@,
                self.huge@ == old(self).huge@,
                *fa == *old(fa),
                *pt == *old(pt),
                fa.wf(),
                pt.wf(),
                pt.backed_by(*fa),
                self.wf(),
                n == self.arenas@.len(),
                i <= n,
                len_r == rounded(len as int),
                len <= MAX_BLOCK_SIZE,
                len_r % 16 == 0,
                len_r >= MIN_BLOCK_SIZE,
                heap_first_fit(self.layout(), len_r as int, 0) == heap_first_fit(self.layout(), len_r as int, i as int),
            decreases n - i,
        {
            let ghost before = *self;
            assert(self.layout()[i as int] == self.arenas@[i as int].block_seq());
            match self.arenas[i].allocate(len_r) {
                Some(p) => {
                    proof {
                        self.lemma_arena_changed(before, i as int);
                        lemma_first_fit_shape(before.layout()[i as int], len_r as int, 0);
                        before.arenas@[i as int].lemma_in_page(
                            first_fit_from(before.layout()[i as int], len_r as int, 0).unwrap(),
                        );
                    }
                    return Some(p);
                },
                None => {
                    assert(self.arenas@ =~= before.arenas@);
                },
            }
            i += 1;
        }
        let frame = match fa.alloc_frame() {
            Some(f) => f,
            None => {
                return None;
            },
        };
        proof {
            fa.lemma_frames();
        }
        if !self.range_free(frame, frame + PAGE_SIZE) {
            proof {
                assert(self.bases() == old(self).bases());
                assert(self.huge_blocks() == old(self).huge_blocks());
                assert(fa.owns(frame as int) && !old(fa).owns(frame as int));
                assert(!old(self).range_unused(frame as int, frame + 4096));
            }
            return None;
        }
        let mut arena = Arena::new(frame);
        let p = match arena.allocate(len_r) {
            Some(p) => p,
            None => {
                return None;
            },
        };
        let ghost before = *self;
        self.arenas.push(arena);
        proof {
            assert(self.layout() =~= before.layout().push(arena.block_seq()));
            assert(self.bases().last() == frame);
            let n0 = before.arenas@.len() as int;
            assert forall|j: int| 0 <= j < n0 implies (#[trigger] before.arenas@[j]).base != frame by {
                assert(before.bases()[j] == before.arenas@[j].base);
                assert(before.arenas@[j].wf());
            }
            assert forall|k: int, i: int|
                0 <= k < self.huge@.len() && 0 <= i < self.arenas@.len() implies disjoint(
                (#[trigger] self.huge@[k]).addr as int,
                huge_end(self.huge@[k]),
                (#[trigger] self.arenas@[i]).base as int,
                self.arenas@[i].base + 4096,
            ) by {
                if i == n0 {
                    assert(before.huge_blocks()[k] == self.huge@[k]);
                } else {
                    assert(self.arenas@[i] == before.arenas@[i]);
                }
            }
            assert forall|i: int| 0 <= i < self.arenas@.len() implies (#[trigger] self.arenas@[i]).wf() by {
                if i < n0 {
                    assert(self.arenas@[i] == before.arenas@[i]);
                }
            }
            assert(p % 16 == 0) by (nonlinear_arith)
                requires
                    p == frame + 80,
                    frame % 4096 == 0,
            ;
        }
        Some(p)
    }

    /// Number of arenas.
    pub fn arena_count(&self) -> (r: usize)
        ensures
            r == self.layout().len(),
    {
        self.arenas.len()
    }

    /// The blocks of arena `i`, in address order.
    pub fn arena_blocks(&self, i: usize) -> (r: &Vec<Block>)
        requires
            i < self.layout().len(),
        ensures
            r@ == self.layout()[i as int],
    {
        &self.arenas[i].blocks
    }

    proof fn lemma_arena_changed(self, before: HeapAllocator, i: int)
        requires
            before.wf(),
            0 <= i < before.arenas@.len(),
            self.arenas@.len() == before.arenas@.len(),
            self.huge@ == before.huge@,
            self.arenas@[i].wf(),
            self.arenas@[i].base_addr() == before.arenas@[i].base_addr(),
            forall|j: int| 0 <= j < self.arenas@.len() && j != i ==> #[trigger] self.arenas@[j] == before.arenas@[j],
        ensures
            self.wf(),
            self.layout() == before.layout().update(i, self.arenas@[i].block_seq()),
            self.bases() == before.bases(),
    {
        assert(self.layout() =~= before.layout().update(i, self.arenas@[i].block_seq()));
        assert(self.bases() =~= before.bases());
        assert forall|a: int, b: int|
            0 <= a < self.arenas@.len() && 0 <= b < self.arenas@.len() && a != b implies (#[trigger] self.arenas@[a]).base
            != (#[trigger] self.arenas@[b]).base by {
            assert(before.arenas@[a].base != before.arenas@[b].base);
        }
    }

    /// Serves a request above `MAX_BLOCK_SIZE` from fresh pages: a header, then
    /// the payload.
    pub fn allocate_huge(&mut self, len: usize, fa: &mut FrameAllocator, pt: &mut PageTable) -> (r: Option<usize>)
        requires
            old(self).wf(),
            old(fa).wf(),
            old(pt).wf(),
            old(pt).backed_by(*old(fa)),
            len > MAX_BLOCK_SIZE,
        ensures
            final(self).wf(),
            final(fa).wf(),
            final(pt).wf(),
            final(pt).backed_by(*final(fa)),
            final(fa).same_layout(*old(fa)),
            forall|q: int| old(fa).owns(q) ==> #[trigger] final(fa).owns(q),
            frames_accounted(*old(fa), *final(fa), *final(pt), old(fa).cursor(), huge_pages(len as int)),
            final(self).layout() == old(self).layout(),
            match r {
                Some(p) => {
                    &&& p >= BLOCK_HEADER
                    &&& p % 16 == 0
                    &&& final(self).huge_blocks() == old(self).huge_blocks().push(
                        Block { addr: (p - BLOCK_HEADER) as usize, length: len, free: false, magic: BLOCK_MAGIC },
                    )
                    &&& forall|k: int|
                        0 <= k < huge_pages(len as int) ==> (#[trigger] final(pt).translation(p - BLOCK_HEADER + 4096 * k)) is Some
                },
                None => final(self).huge_blocks() == old(self).huge_blocks() && (no_pages(
                    len as int,
                    *old(fa),
                    *old(pt),
                    *final(fa),
                ) || !old(self).range_unused(old(fa).cursor(), old(fa).cursor() + 4096 * huge_pages(len as int))),
            },
    {
        let need = match len.checked_add(BLOCK_HEADER - 1) {
            Some(x) => x,
            None => {
                return None;
            },
        };
        let page_cnt = need / PAGE_SIZE + 1;
        let base = match fa.alloc_multiple(pt, page_cnt) {
            Some(v) => v,
            None => {
                return None;
            },
        };
        if !self.range_free(base, base + PAGE_SIZE * page_cnt) {
            return None;
        }
        proof {
            assert forall|k: int| 0 <= k < huge_pages(len as int) implies (#[trigger] pt.translation(base + 4096 * k)) is Some by {
                assert(pt.translation(base + 4096 * k) is Some);
            }
        }
        let ghost before = *self;
        self.huge.push(Block { addr: base, length: len, free: false, magic: BLOCK_MAGIC });
        proof {
            assert(self.layout() =~= before.layout());
            assert(page_cnt == huge_pages(len as int));
            let nh = before.huge@.len() as int;
            assert(self.huge@[nh] == Block { addr: base, length: len, free: false, magic: BLOCK_MAGIC });
            assert(huge_end(self.huge@[nh]) == base + 4096 * page_cnt);
            assert forall|k1: int, k2: int|
                0 <= k1 < self.huge@.len() && 0 <= k2 < self.huge@.len() && k1 != k2 implies disjoint(
                (#[trigger] self.huge@[k1]).addr as int,
                huge_end(self.huge@[k1]),
                (#[trigger] self.huge@[k2]).addr as int,
                huge_end(self.huge@[k2]),
            ) by {
                if k1 < nh && k2 < nh {
                    assert(before.huge@[k1] == self.huge@[k1] && before.huge@[k2] == self.huge@[k2]);
                } else if k1 < nh {
                    assert(before.huge_blocks()[k1] == self.huge@[k1]);
                } else {
                    assert(before.huge_blocks()[k2] == self.huge@[k2]);
                }
            }
            assert forall|k: int, i: int|
                0 <= k < self.huge@.len() && 0 <= i < self.arenas@.len() implies disjoint(
                (#[trigger] self.huge@[k]).addr as int,
                huge_end(self.huge@[k]),
                (#[trigger] self.arenas@[i]).base as int,
                self.arenas@[i].base + 4096,
            ) by {
                assert(before.bases()[i] == self.arenas@[i].base);
                if k < nh {
                    assert(before.huge@[k] == self.huge@[k]);
                }
            }
            assert forall|k: int| 0 <= k < self.huge@.len() implies (#[trigger] self.huge@[k]).addr % 4096 == 0
                && self.huge@[k].addr + BLOCK_HEADER <= usize::MAX
                && self.huge@[k].length + BLOCK_HEADER - 1 <= usize::MAX
                && range_fits(self.huge@[k].addr as int, huge_pages(self.huge@[k].length as int)) by {
                if k < before.huge@.len() {
                    assert(self.huge@[k] == before.huge@[k]);
                } else {
                    assert(base + 4096 * page_cnt >= base + BLOCK_HEADER) by (nonlinear_arith)
                        requires
                            page_cnt >= 1,
                    ;
                }
            }
            assert((base + BLOCK_HEADER) % 16 == 0) by (nonlinear_arith)
                requires
                    base % 4096 == 0,
            ;
            assert(base + 4096 * page_cnt >= base + BLOCK_HEADER) by (nonlinear_arith)
                requires
                    page_cnt >= 1,
            ;
        }
        Some(base + BLOCK_HEADER)
    }

    /// Takes back the block whose payload is at `ptr`: an arena block goes
    /// back on its arena's free list, a huge block's pages are unmapped and
    /// their frames returned to `fa`. `false`, with nothing changed, when
    /// `ptr` is not the payload of a block handed out (a stray or repeated
    /// free).
    pub fn deallocate(&mut self, ptr: usize, fa: &mut FrameAllocator, pt: &mut PageTable) -> (r: bool)
        requires
            old(self).wf(),
            old(fa).wf(),
            old(pt).wf(),
            old(pt).backed_by(*old(fa)),
        ensures
            final(self).wf(),
            final(fa).wf(),
            final(pt).wf(),
            final(pt).backed_by(*final(fa)),
            final(fa).same_layout(*old(fa)),
            match heap_held_at(old(self).layout(), ptr as int, 0) {
                Some((i, k)) => {
                    &&& r
                    &&& final(self).layout() == freed(old(self).layout(), i, k)
                    &&& final(self).huge_blocks() == old(self).huge_blocks()
                    &&& *final(fa) == *old(fa)
                    &&& *final(pt) == *old(pt)
                },
                None => final(self).layout() == old(self).layout() && match huge_at(old(self).huge_blocks(), ptr as int, 0) {
                    Some(k) => {
                        let b = old(self).huge_blocks()[k];
                        &&& r
                        &&& final(self).huge_blocks() == old(self).huge_blocks().remove(k)
                        &&& forall|j: int|
                            0 <= j < huge_pages(b.length as int) ==> (#[trigger] final(pt).translation(b.addr + 4096 * j)) is None
                        &&& forall|q: int| #[trigger] final(fa).owns(q) ==> old(fa).owns(q)
                    },
                    None => !r && final(self).huge_blocks() == old(self).huge_blocks() && *final(fa) == *old(fa)
                        && *final(pt) == *old(pt),
                },
            },
    {
        let n = self.arenas.len();
        let mut i: usize = 0;
        while i < n
            invariant
                self.arenas@ == old(self).arenas@,
                self.huge@ == old(self).huge@,
                *fa == *old(fa),
                *pt == *old(pt),
                fa.wf(),
                pt.wf(),
                pt.backed_by(*fa),
                self.wf(),
                n == self.arenas@.len(),
                i <= n,
                heap_held_at(self.layout(), ptr as int, 0) == heap_held_at(self.layout(), ptr as int, i as int),
            decreases n - i,
        {
            let ghost before = *self;
            assert(self.layout()[i as int] == self.arenas@[i as int].block_seq());
            if self.arenas[i].free(ptr) {
                proof {
                    self.lemma_arena_changed(before, i as int);
                    let k = held_at(before.layout()[i as int], ptr as int).unwrap();
                    assert(self.layout() =~= freed(before.layout(), i as int, k));
                }
                return true;
            }
            assert(self.arenas@ =~= before.arenas@);
            i += 1;
        }
        let m = self.huge.len();
        let mut k: usize = 0;
        while k < m
            invariant
                self.arenas@ == old(self).arenas@,
                self.huge@ == old(self).huge@,
                *fa == *old(fa),
                *pt == *old(pt),
                fa.wf(),
                pt.wf(),
                pt.backed_by(*fa),
                self.wf(),
                heap_held_at(old(self).layout(), ptr as int, 0) is None,
                m == self.huge@.len(),
                k <= m,
                huge_at(self.huge@, ptr as int, 0) == huge_at(self.huge@, ptr as int, k as int),
            decreases m - k,
        {
            let b = self.huge[k];
            if b.addr + BLOCK_HEADER == ptr {
                let ghost before = *self;
                self.huge.remove(k);
                let pages = (b.length + (BLOCK_HEADER - 1)) / PAGE_SIZE + 1;
                assert(pages == huge_pages(b.length as int));
                fa.dealloc_multiple(pt, b.addr, pages);
                proof {
                    assert(self.layout() =~= before.layout());
                    assert forall|j: int| 0 <= j < self.huge@.len() implies (#[trigger] self.huge@[j]).addr % 4096 == 0
                        && self.huge@[j].addr + BLOCK_HEADER <= usize::MAX
                        && range_fits(self.huge@[j].addr as int, huge_pages(self.huge@[j].length as int)) by {
                        if j < k {
                            assert(self.huge@[j] == before.huge@[j]);
                        } else {
                            assert(self.huge@[j] == before.huge@[j + 1]);
                        }
                    }
                }
                return true;
            }
            k += 1;
        }
        false
    }

    proof fn lemma_heap_fit_shape(layout: Seq<Seq<Block>>, len_r: int, i: int)
        requires
            0 <= i <= layout.len(),
            heap_first_fit(layout, len_r, i) is Some,
        ensures
            ({
                let (a, k) = heap_first_fit(layout, len_r, i).unwrap();
                &&& i <= a < layout.len()
                &&& first_fit_from(layout[a], len_r, 0) == Some(k)
                &&& forall|j: int| i <= j < a ==> first_fit_from(#[trigger] layout[j], len_r, 0) is None
            }),
        decreases layout.len() - i,
    {
        if first_fit_from(layout[i], len_r, 0) is None {
            Self::lemma_heap_fit_shape(layout, len_r, i + 1);
        }
    }

    /// Freeing a block makes its bytes reusable as they were: when a request
    /// of `len` bytes is served from an existing arena, the block handed out
    /// is found again by its payload address, and once it is freed the same
    /// request is served by the same block, at the same address, with its
    /// header intact.
    pub proof fn lemma_free_then_reuse(h: HeapAllocator, len: int)
        requires
            h.wf(),
            0 <= len <= MAX_BLOCK_SIZE,
            heap_first_fit(h.layout(), rounded(len), 0) is Some,
        ensures
            ({
                let (i, k) = heap_first_fit(h.layout(), rounded(len), 0).unwrap();
                let taken = h.layout().update(i, take_block(h.layout()[i], k, rounded(len)));
                let p = h.layout()[i][k].addr + BLOCK_HEADER;
                &&& p % 16 == 0
                &&& heap_held_at(taken, p, 0) == Some((i, k))
                &&& heap_first_fit(freed(taken, i, k), rounded(len), 0) == Some((i, k))
                &&& freed(taken, i, k)[i][k].addr + BLOCK_HEADER == p
                &&& freed(taken, i, k)[i][k].magic == BLOCK_MAGIC
            }),
    {
        let len_r = rounded(len);
        let layout = h.layout();
        Self::lemma_heap_fit_shape(layout, len_r, 0);
        let (i, k) = heap_first_fit(layout, len_r, 0).unwrap();
        let b = layout[i];
        let ar = h.arenas@[i];
        assert(b == ar.blocks@);
        lemma_first_fit_shape(b, len_r, 0);
        ar.lemma_in_page(k);
        let t = take_block(b, k, len_r);
        let taken = layout.update(i, t);
        let p = b[k].addr + BLOCK_HEADER;
        assert(p % 16 == 0) by (nonlinear_arith)
            requires
                b[k].addr % 16 == 0,
                p == b[k].addr + 48,
        ;
        // the block at k is the only one in arena i with that address
        if b[k].length >= BLOCK_HEADER + MIN_BLOCK_SIZE + len_r {
            assert forall|j: int| 0 <= j < k implies #[trigger] t[j] == b[j] by {}
            assert forall|j: int| k + 2 <= j < t.len() implies #[trigger] t[j] == b[j - 1] by {
                assert(t[j] == b.skip(k + 1)[j - (k + 2)]);
            }
        } else {
            assert forall|j: int| 0 <= j < t.len() && j != k implies #[trigger] t[j] == b[j] by {}
        }
        assert(t[k].addr == b[k].addr && !t[k].free && t[k].magic == BLOCK_MAGIC);
        assert forall|j: int| 0 <= j < t.len() && j != k implies #[trigger] t[j].addr != b[k].addr by {
            if b[k].length >= BLOCK_HEADER + MIN_BLOCK_SIZE + len_r {
                if j < k {
                    ar.lemma_ascending(j, k);
                } else if j > k + 1 {
                    ar.lemma_ascending(k, j - 1);
                }
            } else {
                if j < k {
                    ar.lemma_ascending(j, k);
                } else {
                    ar.lemma_ascending(k, j);
                }
            }
        }
        assert(held_at(t, p) == Some(k));
        assert forall|j: int| 0 <= j < i implies held_at(#[trigger] taken[j], p) is None by {
            let aj = h.arenas@[j];
            assert(taken[j] == aj.blocks@);
            assert forall|m: int| 0 <= m < aj.blocks@.len() implies aj.blocks@[m].addr != b[k].addr by {
                aj.lemma_in_page(m);
                assert(aj.base != ar.base);
                assert(aj.base % 4096 == 0 && ar.base % 4096 == 0);
            }
        }
        Self::lemma_held_prefix(taken, p, 0, i);
        let f = freed(taken, i, k);
        assert(f[i] == t.update(k, Block { free: true, ..t[k] }));
        assert forall|j: int| 0 <= j < k implies !fits(#[trigger] f[i][j], len_r) by {
            assert(f[i][j] == b[j]);
        }
        lemma_first_fit(f[i], len_r, 0, k);
        assert forall|j: int| 0 <= j < i implies first_fit_from(#[trigger] f[j], len_r, 0) is None by {
            assert(f[j] == layout[j]);
        }
        Self::lemma_fit_prefix(f, len_r, 0, i);
    }
}

} // verus!
