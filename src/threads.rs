//! Kernel threads: a stack from the frame allocator, the saved stack
//! pointer, and the running, started and dead flags.
use vstd::prelude::*;
use crate::frame::{FrameAllocator, range_fits, frames_accounted};
use crate::paging::PageTable;

verus! {

/// Pages of stack each thread gets, under one guard page.
pub const STACK_PAGES: usize = 3;

/// Why a stack could not be had: the run of pages would pass the end of the
/// virtual address space, one of them was already mapped in `pt`, or
/// frames ran out (`fa_after` is the allocator afterwards).
pub open spec fn no_stack(fa: FrameAllocator, pt: PageTable, fa_after: FrameAllocator) -> bool {
    ||| !range_fits(fa.cursor(), STACK_PAGES + 1)
    ||| exists|k: int| 0 <= k <= STACK_PAGES && (#[trigger] pt.translation(fa.cursor() + 4096 * k)) is Some
    ||| fa_after.full()
}

/// A kernel thread. Its first dispatch pops `entry_point` off its stack;
/// when that function returns it lands in the exit trampoline, which marks
/// the thread dead.
pub struct KThread {
    pub name: String,
    /// Address of the entry function.
    pub entry_point: usize,
    /// Saved stack pointer while the thread is not running.
    pub rsp: usize,
    /// Address just past the highest stack page.
    pub stack_top: usize,
    pub running: bool,
    /// The thread has been dispatched at least once.
    pub started: bool,
    pub dead: bool,
}

impl KThread {
    /// A thread that will enter `entry_point` on its first dispatch, with a
    /// fresh stack whose top holds, from high to low, the thread object's
    /// address, the exit trampoline and the entry point (see `stack_words`).
    /// `None` when the stack could not be had.
    pub fn create(entry_point: usize, name: &str, fa: &mut FrameAllocator, pt: &mut PageTable) -> (r: Option<KThread>)
        requires
            old(fa).wf(),
            old(pt).wf(),
            old(pt).backed_by(*old(fa)),
        ensures
            final(fa).wf(),
            final(pt).wf(),
            final(pt).backed_by(*final(fa)),
            final(fa).same_layout(*old(fa)),
            forall|q: int| old(fa).owns(q) ==> #[trigger] final(fa).owns(q),
            frames_accounted(*old(fa), *final(fa), *final(pt), old(fa).cursor(), STACK_PAGES + 1),
            match r {
                Some(t) => {
                    &&& t.name@ == name@
                    &&& t.entry_point == entry_point
                    &&& t.stack_top == old(fa).cursor() + 4096 * (STACK_PAGES + 1)
                    &&& t.rsp == t.stack_top - 32
                    &&& !t.running && !t.started && !t.dead
                    &&& forall|k: int|
                        1 <= k <= STACK_PAGES ==> (#[trigger] final(pt).translation(old(fa).cursor() + 4096 * k)) is Some
                },
                None => no_stack(*old(fa), *old(pt), *final(fa)),
            },
    {
        let top = match fa.alloc_stack(pt, STACK_PAGES) {
            Some(top) => top,
            None => {
                return None;
            },
        };
        Some(
            KThread {
                name: name.to_owned(),
                entry_point,
                rsp: top - 32,
                stack_top: top,
                running: false,
                started: false,
                dead: false,
            },
        )
    }

    /// The three words to store before the first dispatch, as (address,
    /// value): the thread object `obj`, the exit trampoline `exit_stub`, and
    /// the entry point, pushed in that order below `stack_top - 8`.
    pub fn stack_words(&self, exit_stub: usize, obj: usize) -> (r: Vec<(usize, usize)>)
        requires
            self.stack_top >= 32,
        ensures
            r@ == seq![
                ((self.stack_top - 16) as usize, obj),
                ((self.stack_top - 24) as usize, exit_stub),
                ((self.stack_top - 32) as usize, self.entry_point),
            ],
    {
        let mut r: Vec<(usize, usize)> = Vec::new();
        r.push((self.stack_top - 16, obj));
        r.push((self.stack_top - 24, exit_stub));
        r.push((self.stack_top - 32, self.entry_point));
        assert(r@ =~= seq![
            ((self.stack_top - 16) as usize, obj),
            ((self.stack_top - 24) as usize, exit_stub),
            ((self.stack_top - 32) as usize, self.entry_point),
        ]);
        r
    }

    /// The thread that stands for the stack a CPU booted on: already
    /// running, with nothing to enter.
    pub fn boot_strap_thread() -> (r: KThread)
        ensures
            r.name@ == "bootstrap"@,
            r.running && r.started && !r.dead,
            r.rsp == 0 && r.entry_point == 0 && r.stack_top == 0,
    {
        proof {
            reveal_strlit("bootstrap");
        }
        KThread {
            name: "bootstrap".to_owned(),
            entry_point: 0,
            rsp: 0,
            stack_top: 0,
            running: true,
            started: true,
            dead: false,
        }
    }

    /// Hands the CPU from this thread to `other`, whose stack pointer is
    /// returned for the caller to load; this thread's own is `saved_rsp`.
    /// `None`, with nothing changed, while `other` is still running on
    /// another CPU: the caller tries again until it gets through.
    pub fn switch_to(&mut self, other: &mut KThread, saved_rsp: usize) -> (r: Option<usize>)
        ensures
            old(other).running ==> r is None && *final(self) == *old(self) && *final(other) == *old(other),
            !old(other).running ==> {
                &&& r == Some(old(other).rsp)
                &&& final(other).running && final(other).started && final(other).rsp == 0
                &&& !final(self).running && final(self).rsp == saved_rsp
                &&& final(other).dead == old(other).dead && final(self).dead == old(self).dead
                &&& final(other).name == old(other).name && final(self).name == old(self).name
            },
    {
        if other.running {
            return None;
        }
        other.running = true;
        other.started = true;
        let next_rsp = other.rsp;
        other.rsp = 0;
        self.rsp = saved_rsp;
        self.running = false;
        Some(next_rsp)
    }

    /// Called through the exit trampoline with the entry function's return
    /// value: the thread is dead from now on.
    pub fn on_exit(&mut self, ret: usize)
        ensures
            final(self).dead,
            final(self).name == old(self).name,
            final(self).started == old(self).started,
            final(self).running == old(self).running,
    {
        self.dead = true;
    }

    pub fn is_dead(&self) -> (r: bool)
        ensures
            r == self.dead,
    {
        self.dead
    }
}

} // verus!
