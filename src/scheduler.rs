//! Round-robin scheduler shared by all CPUs: one ready queue, and per CPU
//! the current thread, a lazily made idle thread and whether it is idling.
//! `schedule` decides; the caller performs the context switch it asks for.
use vstd::prelude::*;
use crate::cpu_local::CPULocal;
use crate::frame::{FrameAllocator, frames_accounted};
use crate::paging::PageTable;
use crate::queue::Queue;
use crate::threads::{KThread, no_stack, STACK_PAGES};

verus! {

/// What the CPU that called `schedule` does next.
#[derive(Debug, PartialEq, Eq, Structural)]
pub enum Decision {
    /// Save the running context into thread `prev` and resume `next`; when
    /// `fresh`, `next` has never run and its stack enters its entry point.
    Switch { prev: usize, next: usize, fresh: bool },
    /// Keep running the same thread: acknowledge the interrupt and go on.
    Resume,
}

/// Threads are named by their index in the thread table.
pub struct Scheduler {
    threads: Vec<KThread>,
    thread_current: CPULocal<usize>,
    ready_queue: Queue<usize>,
    idle_thread: CPULocal<usize>,
    is_idling: CPULocal<bool>,
    idle_entry: usize,
}

impl Scheduler {
    pub closed spec fn count(self) -> int {
        self.threads@.len() as int
    }

    pub closed spec fn thread(self, t: int) -> KThread {
        self.threads@[t]
    }

    /// The thread running on `cpu`.
    pub closed spec fn current(self, cpu: int) -> Option<usize> {
        self.thread_current.slot(cpu)
    }

    /// The idle thread of `cpu`, once made.
    pub closed spec fn idle(self, cpu: int) -> Option<usize> {
        self.idle_thread.slot(cpu)
    }

    pub closed spec fn idling(self, cpu: int) -> bool {
        self.is_idling.slot(cpu) == Some(true)
    }

    /// Threads waiting to run, head first.
    pub closed spec fn ready(self) -> Seq<usize> {
        self.ready_queue@
    }

    /// Address of the idle threads' entry function.
    pub closed spec fn idle_entry_point(self) -> usize {
        self.idle_entry
    }

    /// `t` runs nowhere and is no CPU's idle thread.
    pub open spec fn unclaimed(self, t: usize) -> bool {
        forall|c: int| #[trigger] self.current(c) != Some(t) && self.idle(c) != Some(t)
    }

    /// The ready queue holds distinct live threads that run nowhere and are
    /// no CPU's idle thread; no thread runs on two CPUs; an idle thread runs
    /// only on its own CPU, and while it does that CPU is idling; idle
    /// threads never die.
    pub closed spec fn wf(self) -> bool {
        self.ready_ok() && self.cpus_ok()
    }

    pub closed spec fn ready_ok(self) -> bool {
        let q = self.ready();
        &&& forall|i: int| 0 <= i < q.len() ==> (#[trigger] q[i]) < self.count() && !self.thread(q[i] as int).dead
        &&& forall|i: int, c: int|
            0 <= i < q.len() ==> #[trigger] self.current(c) != Some(#[trigger] q[i]) && self.idle(c) != Some(q[i])
        &&& forall|i: int, j: int| 0 <= i < q.len() && 0 <= j < q.len() && i != j ==> q[i] != q[j]
    }

    pub closed spec fn cpus_ok(self) -> bool {
        &&& forall|c: int| #[trigger] self.current(c) is Some ==> self.current(c).unwrap() < self.count()
        &&& forall|c: int|
            #[trigger] self.idle(c) is Some ==> self.idle(c).unwrap() < self.count() && !self.thread(
                self.idle(c).unwrap() as int,
            ).dead
        &&& forall|c1: int, c2: int|
            #[trigger] self.current(c1) is Some && self.current(c1) == #[trigger] self.current(c2) ==> c1 == c2
        &&& forall|c1: int, c2: int|
            #[trigger] self.current(c1) is Some && self.current(c1) == #[trigger] self.idle(c2) ==> c1 == c2
        &&& forall|c: int| #[trigger] self.current(c) is Some && self.current(c) == self.idle(c) ==> self.idling(c)
        &&& forall|c1: int, c2: int|
            #[trigger] self.idle(c1) is Some && self.idle(c1) == #[trigger] self.idle(c2) ==> c1 == c2
    }

    /// A scheduler with no threads yet, for `num_cpu` CPUs; idle threads
    /// will enter `idle_entry`.
    pub fn new(num_cpu: usize, idle_entry: usize) -> (r: Scheduler)
        ensures
            r.wf(),
            r.count() == 0,
            r.ready() == Seq::<usize>::empty(),
            r.idle_entry_point() == idle_entry,
            forall|c: int| #[trigger] r.current(c) is None && r.idle(c) is None,
    {
        Scheduler {
            threads: Vec::new(),
            thread_current: CPULocal::create(num_cpu),
            ready_queue: Queue::create(),
            idle_thread: CPULocal::create(num_cpu),
            is_idling: CPULocal::create(num_cpu),
            idle_entry,
        }
    }

    /// The thread running on `cpu`.
    pub fn current_thread(&self, cpu: usize) -> (r: Option<usize>)
        ensures
            r == self.current(cpu as int),
    {
        match self.thread_current.get(cpu) {
            Some(t) => Some(*t),
            None => None,
        }
    }

    /// Whether `t` is some CPU's idle thread.
    pub fn is_idle(&self, t: usize) -> (r: bool)
        ensures
            r == exists|c: int| #[trigger] self.idle(c) == Some(t),
    {
        let n = self.idle_thread.len();
        let mut c: usize = 0;
        while c < n
            invariant
                n == self.idle_thread@.len(),
                c <= n,
                forall|d: int| 0 <= d < c ==> #[trigger] self.idle(d) != Some(t),
            decreases n - c,
        {
            if let Some(i) = self.idle_thread.get(c) {
                if *i == t {
                    assert(self.idle(c as int) == Some(t));
                    return true;
                }
            }
            c += 1;
        }
        assert forall|d: int| #[trigger] self.idle(d) != Some(t) by {
            if 0 <= d < c {
            }
        }
        false
    }

    /// Number of threads waiting.
    pub fn ready_len(&self) -> (r: usize)
        ensures
            r == self.ready().len(),
    {
        self.ready_queue.len()
    }

    /// Number of threads made so far.
    pub fn thread_count(&self) -> (r: usize)
        ensures
            r == self.count(),
    {
        self.threads.len()
    }

    /// Thread `t`.
    pub fn get_thread(&self, t: usize) -> (r: &KThread)
        requires
            t < self.count(),
        ensures
            *r == self.thread(t as int),
    {
        &self.threads[t]
    }

    /// The invariant survives new threads, idle flags switched on, and
    /// nothing else changed.
    proof fn lemma_wf_transfer(self, old: Scheduler)
        requires
            old.wf(),
            self.count() >= old.count(),
            forall|u: int| 0 <= u < old.count() ==> #[trigger] self.thread(u).dead == old.thread(u).dead,
            forall|c: int| #[trigger] self.current(c) == old.current(c),
            forall|c: int| #[trigger] self.idle(c) == old.idle(c),
            forall|c: int| old.idling(c) ==> #[trigger] self.idling(c),
            self.ready() == old.ready() || self.ready_ok(),
        ensures
            self.wf(),
    {
        let q = self.ready();
        if self.ready() == old.ready() {
        assert forall|i: int| 0 <= i < q.len() implies (#[trigger] q[i]) < self.count() && !self.thread(q[i] as int).dead by {
            assert(old.ready()[i] < old.count());
        }
        assert forall|i: int, c: int|
            0 <= i < q.len() implies #[trigger] self.current(c) != Some(#[trigger] q[i]) && self.idle(c) != Some(q[i]) by {
            assert(old.current(c) != Some(old.ready()[i]));
        }
        }
        assert forall|c: int| #[trigger] self.idle(c) is Some implies self.idle(c).unwrap() < self.count() && !self.thread(
            self.idle(c).unwrap() as int,
        ).dead by {
            assert(old.idle(c) is Some);
        }
        assert forall|c: int| #[trigger] self.current(c) is Some implies self.current(c).unwrap() < self.count() by {
            assert(old.current(c) is Some);
        }
        assert forall|c1: int, c2: int|
            #[trigger] self.current(c1) is Some && self.current(c1) == #[trigger] self.current(c2) implies c1 == c2 by {
            assert(old.current(c1) == old.current(c2));
        }
        assert forall|c1: int, c2: int|
            #[trigger] self.current(c1) is Some && self.current(c1) == #[trigger] self.idle(c2) implies c1 == c2 by {
            assert(old.current(c1) == old.idle(c2));
        }
        assert forall|c: int| #[trigger] self.current(c) is Some && self.current(c) == self.idle(c) implies self.idling(c) by {
            assert(old.current(c) == old.idle(c));
        }
        assert forall|c1: int, c2: int|
            #[trigger] self.idle(c1) is Some && self.idle(c1) == #[trigger] self.idle(c2) implies c1 == c2 by {
            assert(old.idle(c1) == old.idle(c2));
        }
    }

    /// The invariant survives a new thread made `cpu`'s idle thread while
    /// `cpu` runs nothing.
    proof fn lemma_wf_new_idle(self, old: Scheduler, cpu: int, t: usize)
        requires
            old.wf(),
            t as int == old.count(),
            self.count() == old.count() + 1,
            forall|u: int| 0 <= u < old.count() ==> #[trigger] self.thread(u) == old.thread(u),
            !self.thread(old.count()).dead,
            old.current(cpu) is None,
            forall|c: int| #[trigger] self.current(c) == old.current(c),
            forall|c: int| c != cpu ==> #[trigger] self.idle(c) == old.idle(c),
            self.idle(cpu) == Some(t),
            forall|c: int| #[trigger] self.idling(c) == old.idling(c),
            self.ready() == old.ready(),
        ensures
            self.wf(),
    {
        let q = self.ready();
        let n = old.count();
        assert forall|i: int| 0 <= i < q.len() implies (#[trigger] q[i]) < self.count() && !self.thread(q[i] as int).dead by {
            assert(old.ready()[i] < old.count());
        }
        assert forall|i: int, c: int|
            0 <= i < q.len() implies #[trigger] self.current(c) != Some(#[trigger] q[i]) && self.idle(c) != Some(q[i]) by {
            assert(old.current(c) != Some(old.ready()[i]));
            assert(old.ready()[i] < n);
            if c != cpu {
                assert(old.idle(c) != Some(old.ready()[i]));
            }
        }
        assert forall|c: int| #[trigger] self.idle(c) is Some implies self.idle(c).unwrap() < self.count() && !self.thread(
            self.idle(c).unwrap() as int,
        ).dead by {
            if c != cpu {
                assert(old.idle(c) is Some);
                assert(self.thread(old.idle(c).unwrap() as int) == old.thread(old.idle(c).unwrap() as int));
            }
        }
        assert forall|c: int| #[trigger] self.current(c) is Some implies self.current(c).unwrap() < self.count() by {
            assert(old.current(c) is Some);
        }
        assert forall|c1: int, c2: int|
            #[trigger] self.current(c1) is Some && self.current(c1) == #[trigger] self.current(c2) implies c1 == c2 by {
            assert(old.current(c1) == old.current(c2));
        }
        assert forall|c1: int, c2: int|
            #[trigger] self.current(c1) is Some && self.current(c1) == #[trigger] self.idle(c2) implies c1 == c2 by {
            assert(old.current(c1) == self.current(c1));
            assert(old.current(c1) is Some);
            assert(old.current(c1).unwrap() < n);
            if c2 != cpu {
                assert(old.current(c1) == old.idle(c2));
            }
        }
        assert forall|c: int| #[trigger] self.current(c) is Some && self.current(c) == self.idle(c) implies self.idling(c) by {
            assert(old.current(c) is Some);
            if c != cpu {
                assert(old.current(c) == old.idle(c));
            }
        }
        assert forall|c1: int, c2: int|
            #[trigger] self.idle(c1) is Some && self.idle(c1) == #[trigger] self.idle(c2) implies c1 == c2 by {
            if c1 != cpu && c2 != cpu {
                assert(old.idle(c1) == old.idle(c2));
            } else if c1 != cpu {
                assert(old.idle(c1) is Some);
            } else if c2 != cpu {
                assert(old.idle(c2) is Some);
            }
        }
    }

    /// Everything but the ready queue is as in `old`.
    pub open spec fn same_but_ready(self, old: Scheduler) -> bool {
        &&& self.count() == old.count()
        &&& forall|t: int| 0 <= t < old.count() ==> #[trigger] self.thread(t) == old.thread(t)
        &&& forall|c: int| #[trigger] self.current(c) == old.current(c)
        &&& forall|c: int| #[trigger] self.idle(c) == old.idle(c)
        &&& forall|c: int| #[trigger] self.idling(c) == old.idling(c)
        &&& self.idle_entry_point() == old.idle_entry_point()
    }

    /// Queues thread `t`, which must be live, waiting nowhere else, running
    /// nowhere and no CPU's idle thread.
    pub fn insert_thread(&mut self, t: usize)
        requires
            old(self).wf(),
            t < old(self).count(),
            !old(self).thread(t as int).dead,
            old(self).unclaimed(t),
            !old(self).ready().contains(t),
        ensures
            final(self).wf(),
            final(self).ready() == old(self).ready().push(t),
            final(self).same_but_ready(*old(self)),
    {
        self.ready_queue.enqueue(t);
        proof {
            let q = self.ready();
            let o = old(self).ready();
            assert(q == o.push(t));
            assert forall|i: int, j: int| 0 <= i < q.len() && 0 <= j < q.len() && i != j implies q[i] != q[j] by {
                if i < o.len() && j < o.len() {
                    assert(q[i] == o[i] && q[j] == o[j]);
                } else if i < o.len() {
                    assert(q[i] == o[i]);
                    if o[i] == t {
                        assert(o.contains(t));
                    }
                } else {
                    assert(q[j] == o[j]);
                    if o[j] == t {
                        assert(o.contains(t));
                    }
                }
            }
            assert forall|i: int| 0 <= i < q.len() implies (#[trigger] q[i]) < self.count() && !self.thread(q[i] as int).dead by {
                if i < o.len() {
                    assert(q[i] == o[i]);
                }
            }
            assert forall|i: int, c: int|
                0 <= i < q.len() implies #[trigger] self.current(c) != Some(#[trigger] q[i]) && self.idle(c) != Some(q[i]) by {
                if i < o.len() {
                    assert(q[i] == o[i]);
                    assert(old(self).current(c) != Some(o[i]));
                } else {
                    assert(old(self).current(c) != Some(t));
                }
            }
            assert forall|c: int| #[trigger] self.current(c) == old(self).current(c) && self.idle(c) == old(self).idle(c)
                && self.idling(c) == old(self).idling(c) by {}
            assert(self.ready_ok());
            self.lemma_wf_transfer(*old(self));
        }
    }

    /// Makes a thread entering `entry_point` and queues it; returns its
    /// number. `None` when its stack could not be had.
    pub fn new_thread(&mut self, entry_point: usize, name: &str, fa: &mut FrameAllocator, pt: &mut PageTable) -> (r:
        Option<usize>)
        requires
            old(self).wf(),
            old(fa).wf(),
            old(pt).wf(),
            old(pt).backed_by(*old(fa)),
        ensures
            final(self).wf(),
            final(fa).wf(),
            final(pt).wf(),
            final(pt).backed_by(*final(fa)),
            final(fa).same_layout(*old(fa)),
            forall|q: int| old(fa).owns(q) ==> #[trigger] final(fa).owns(q),
            frames_accounted(*old(fa), *final(fa), *final(pt), old(fa).cursor(), STACK_PAGES + 1),
            match r {
                Some(t) => {
                    &&& t == old(self).count()
                    &&& final(self).count() == old(self).count() + 1
                    &&& final(self).ready() == old(self).ready().push(t)
                    &&& final(self).thread(t as int).entry_point == entry_point
                    &&& final(self).thread(t as int).name@ == name@
                    &&& !final(self).thread(t as int).started
                    &&& !final(self).thread(t as int).dead
                    &&& forall|u: int| 0 <= u < old(self).count() ==> #[trigger] final(self).thread(u) == old(self).thread(u)
                    &&& forall|c: int| #[trigger] final(self).current(c) == old(self).current(c)
                    &&& forall|c: int| #[trigger] final(self).idle(c) == old(self).idle(c)
                },
                None => *final(self) == *old(self) && no_stack(*old(fa), *old(pt), *final(fa)),
            },
    {
        let thread = match KThread::create(entry_point, name, fa, pt) {
            Some(t) => t,
            None => {
                return None;
            },
        };
        let ghost before = *self;
        self.threads.push(thread);
        let t = self.threads.len() - 1;
        proof {
            assert(self.thread(t as int) == thread);
            assert forall|u: int| 0 <= u < before.count() implies #[trigger] self.thread(u) == before.thread(u) by {}
            assert forall|i: int| 0 <= i < self.ready().len() implies self.ready()[i] != t by {
                assert(before.ready()[i] < before.count());
            }
            assert(self.unclaimed(t)) by {
                assert forall|c: int| #[trigger] self.current(c) != Some(t) && self.idle(c) != Some(t) by {
                    assert(before.current(c) is Some ==> before.current(c).unwrap() < before.count());
                    assert(before.idle(c) is Some ==> before.idle(c).unwrap() < before.count());
                }
            }
            self.lemma_wf_transfer(before);
        }
        self.insert_thread(t);
        Some(t)
    }

    /// `cpu`'s idle thread, made now if it has none yet; `cpu` is marked
    /// idling. `None` when the idle thread's stack could not be had.
    pub fn get_idle(&mut self, cpu: usize, fa: &mut FrameAllocator, pt: &mut PageTable) -> (r: Option<usize>)
        requires
            old(self).wf(),
            old(fa).wf(),
            old(pt).wf(),
            old(pt).backed_by(*old(fa)),
            old(self).current(cpu as int) is None,
            cpu < usize::MAX,
        ensures
            final(self).wf(),
            final(fa).wf(),
            final(pt).wf(),
            final(pt).backed_by(*final(fa)),
            final(fa).same_layout(*old(fa)),
            forall|q: int| old(fa).owns(q) ==> #[trigger] final(fa).owns(q),
            frames_accounted(*old(fa), *final(fa), *final(pt), old(fa).cursor(), STACK_PAGES + 1),
            final(self).ready() == old(self).ready(),
            forall|c: int| #[trigger] final(self).current(c) == old(self).current(c),
            forall|c: int| c != cpu ==> #[trigger] final(self).idle(c) == old(self).idle(c),
            forall|c: int| c != cpu ==> #[trigger] final(self).idling(c) == old(self).idling(c),
            forall|u: int| 0 <= u < old(self).count() ==> #[trigger] final(self).thread(u) == old(self).thread(u),
            final(self).count() >= old(self).count(),
            final(self).idle_entry_point() == old(self).idle_entry_point(),
            match r {
                Some(t) => {
                    &&& final(self).idle(cpu as int) == Some(t)
                    &&& final(self).idling(cpu as int)
                    &&& !final(self).thread(t as int).dead
                    &&& t < final(self).count()
                    &&& old(self).idle(cpu as int) is Some ==> Some(t) == old(self).idle(cpu as int) && final(self).count()
                        == old(self).count()
                    &&& old(self).idle(cpu as int) is None ==> t == old(self).count() && !final(self).thread(t as int).started
                },
                None => old(self).idle(cpu as int) is None && no_stack(*old(fa), *old(pt), *final(fa)),
            },
    {
        let t = match self.idle_thread.get(cpu) {
            Some(t) => *t,
            None => {
                let thread = match KThread::create(self.idle_entry, "idle", fa, pt) {
                    Some(th) => th,
                    None => {
                        return None;
                    },
                };
                let ghost before = *self;
                self.threads.push(thread);
                let t = self.threads.len() - 1;
                self.idle_thread.set(cpu, t);
                proof {
                    assert forall|u: int| 0 <= u < before.count() implies #[trigger] self.thread(u) == before.thread(u) by {}
                    self.lemma_wf_new_idle(before, cpu as int, t);
                }
                t
            },
        };
        let ghost before = *self;
        self.is_idling.set(cpu, true);
        proof {
            assert forall|c: int| before.idling(c) implies #[trigger] self.idling(c) by {}
            self.lemma_wf_transfer(before);
        }
        Some(t)
    }

    /// Step one of `schedule`: takes `cpu`'s current thread out (making a
    /// bootstrap thread when it has none) and puts it back on the ready
    /// queue unless the CPU was idling or the thread is dead.
    fn take_prev(&mut self, cpu: usize) -> (prev: usize)
        requires
            old(self).wf(),
        ensures
            final(self).wf(),
            final(self).current(cpu as int) is None,
            forall|c: int| c != cpu ==> #[trigger] final(self).current(c) == old(self).current(c),
            forall|c: int| #[trigger] final(self).idle(c) == old(self).idle(c),
            forall|c: int| c != cpu ==> #[trigger] final(self).idling(c) == old(self).idling(c),
            forall|u: int| 0 <= u < old(self).count() ==> #[trigger] final(self).thread(u) == old(self).thread(u),
            final(self).idle_entry_point() == old(self).idle_entry_point(),
            prev < final(self).count(),
            match old(self).current(cpu as int) {
                Some(p) => {
                    &&& prev == p
                    &&& final(self).count() == old(self).count()
                    &&& final(self).ready() == if !old(self).idling(cpu as int) && !old(self).thread(p as int).dead {
                        old(self).ready().push(p)
                    } else {
                        old(self).ready()
                    }
                },
                None => {
                    &&& prev == old(self).count()
                    &&& final(self).count() == old(self).count() + 1
                    &&& final(self).thread(prev as int).started
                    &&& !final(self).thread(prev as int).dead
                    &&& final(self).ready() == old(self).ready()
                },
            },
    {
        let ghost before = *self;
        match self.thread_current.into_inner(cpu) {
            None => {
                self.threads.push(KThread::boot_strap_thread());
                let prev = self.threads.len() - 1;
                proof {
                    assert forall|u: int| 0 <= u < before.count() implies #[trigger] self.thread(u) == before.thread(u) by {}
                    assert forall|c: int| #[trigger] self.current(c) == before.current(c) by {}
                    self.lemma_wf_transfer(before);
                }
                prev
            },
            Some(p) => {
                let was_idling = match self.is_idling.into_inner(cpu) {
                    Some(b) => b,
                    None => false,
                };
                proof {
                    assert(self.ready() == before.ready());
                    assert(forall|c: int| c != cpu ==> #[trigger] self.current(c) == before.current(c));
                    assert(forall|c: int| #[trigger] self.idle(c) == before.idle(c));
                    assert(self.current(cpu as int) is None);
                    assert(before.current(cpu as int) == Some(p));
                    assert(was_idling == before.idling(cpu as int));
                    assert(self.wf()) by {
                        let q = self.ready();
                        assert forall|i: int, c: int|
                            0 <= i < q.len() implies #[trigger] self.current(c) != Some(#[trigger] q[i]) && self.idle(c) != Some(q[i]) by {
                            assert(q[i] == before.ready()[i]);
                            assert(before.current(c) != Some(before.ready()[i]));
                            assert(before.idle(c) != Some(before.ready()[i]));
                        }
                        assert forall|i: int| 0 <= i < q.len() implies (#[trigger] q[i]) < self.count() && !self.thread(q[i] as int).dead by {
                            assert(q[i] == before.ready()[i]);
                        }
                        assert forall|c1: int, c2: int|
                            #[trigger] self.current(c1) is Some && self.current(c1) == #[trigger] self.current(c2) implies c1 == c2 by {
                            assert(before.current(c1) == before.current(c2));
                        }
                        assert forall|c: int| #[trigger] self.idle(c) is Some implies self.idle(c).unwrap() < self.count() && !self.thread(
                            self.idle(c).unwrap() as int,
                        ).dead by {
                            assert(before.idle(c) is Some);
                        }
                        assert forall|c1: int, c2: int|
                            #[trigger] self.current(c1) is Some && self.current(c1) == #[trigger] self.idle(c2) implies c1 == c2 by {
                            assert(before.current(c1) == before.idle(c2));
                        }
                        assert forall|c: int| #[trigger] self.current(c) is Some && self.current(c) == self.idle(c) implies self.idling(c) by {
                            assert(before.current(c) == before.idle(c));
                        }
                        assert forall|c: int| #[trigger] self.current(c) is Some implies self.current(c).unwrap() < self.count() by {
                            assert(before.current(c) is Some);
                        }
                    }
                }
                if !was_idling && !self.threads[p].dead {
                    proof {
                        // an idle thread running on `cpu` would have `cpu` idling
                        assert forall|c: int| #[trigger] self.idle(c) != Some(p) by {
                            if before.idle(c) == Some(p) {
                                assert(before.current(cpu as int) == before.idle(c));
                            }
                        }
                        assert forall|i: int| 0 <= i < self.ready().len() implies self.ready()[i] != p by {
                            assert(before.current(cpu as int) != Some(before.ready()[i]));
                        }
                        assert(!self.ready().contains(p));
                    }
                    self.insert_thread(p);
                }
                proof {
                    assert forall|u: int| 0 <= u < before.count() implies #[trigger] self.thread(u) == before.thread(u) by {}
                }
                p
            },
        }
    }

    /// Step two of `schedule`: the head of the ready queue, or else `cpu`'s
    /// idle thread with `cpu` marked idling.
    fn pick_next(&mut self, cpu: usize, fa: &mut FrameAllocator, pt: &mut PageTable) -> (r: Option<usize>)
        requires
            old(self).wf(),
            old(fa).wf(),
            old(pt).wf(),
            old(pt).backed_by(*old(fa)),
            old(self).current(cpu as int) is None,
            cpu < usize::MAX,
        ensures
            final(self).wf(),
            final(fa).wf(),
            final(pt).wf(),
            final(pt).backed_by(*final(fa)),
            final(fa).same_layout(*old(fa)),
            forall|q: int| old(fa).owns(q) ==> #[trigger] final(fa).owns(q),
            frames_accounted(*old(fa), *final(fa), *final(pt), old(fa).cursor(), STACK_PAGES + 1),
            forall|c: int| #[trigger] final(self).current(c) == old(self).current(c),
            forall|c: int| c != cpu ==> #[trigger] final(self).idle(c) == old(self).idle(c),
            forall|c: int| c != cpu ==> #[trigger] final(self).idling(c) == old(self).idling(c),
            forall|u: int| 0 <= u < old(self).count() ==> #[trigger] final(self).thread(u) == old(self).thread(u),
            final(self).count() >= old(self).count(),
            final(self).idle_entry_point() == old(self).idle_entry_point(),
            match r {
                Some(next) => {
                    &&& next < final(self).count()
                    &&& !final(self).thread(next as int).dead
                    &&& !final(self).ready().contains(next)
                    &&& forall|c: int| #[trigger] final(self).current(c) != Some(next)
                    &&& old(self).ready().len() > 0 ==> {
                        &&& next == old(self).ready()[0]
                        &&& final(self).ready() == old(self).ready().drop_first()
                        &&& !final(self).idling(cpu as int)
                        &&& final(self).idle(cpu as int) == old(self).idle(cpu as int)
                        &&& final(self).count() == old(self).count()
                    }
                    &&& old(self).ready().len() == 0 ==> {
                        &&& final(self).idle(cpu as int) == Some(next)
                        &&& final(self).idling(cpu as int)
                        &&& final(self).ready() == old(self).ready()
                        &&& old(self).idle(cpu as int) is None ==> next == old(self).count() && !final(self).thread(next as int).started
                        &&& old(self).idle(cpu as int) is Some ==> final(self).count() == old(self).count()
                    }
                },
                None => old(self).ready().len() == 0 && old(self).idle(cpu as int) is None && no_stack(
                    *old(fa),
                    *old(pt),
                    *final(fa),
                ),
            },
    {
        let ghost before = *self;
        match self.ready_queue.dequeue() {
            Some(t) => {
                self.is_idling.set(cpu, false);
                proof {
                    let q = before.ready();
                    assert(q[0] == t);
                    assert(self.ready() == q.drop_first());
                    assert(forall|c: int| #[trigger] self.current(c) == before.current(c));
                    assert(forall|c: int| #[trigger] self.idle(c) == before.idle(c));
                    assert(forall|c: int| c != cpu ==> #[trigger] self.idling(c) == before.idling(c));
                    assert forall|i: int| 0 <= i < self.ready().len() implies self.ready()[i] != t by {
                        assert(self.ready()[i] == q[i + 1]);
                    }
                    assert(forall|c: int| #[trigger] self.current(c) == before.current(c) && self.idle(c) == before.idle(c));
                    assert forall|c: int| #[trigger] self.current(c) != Some(t) by {
                        assert(before.current(c) != Some(q[0]));
                    }
                    assert(self.wf()) by {
                        let s = self.ready();
                        assert forall|i: int| 0 <= i < s.len() implies (#[trigger] s[i]) < self.count() && !self.thread(s[i] as int).dead by {
                            assert(s[i] == q[i + 1]);
                        }
                        assert forall|i: int, c: int|
                            0 <= i < s.len() implies #[trigger] self.current(c) != Some(#[trigger] s[i]) && self.idle(c) != Some(s[i]) by {
                            assert(s[i] == q[i + 1]);
                            assert(before.current(c) != Some(q[i + 1]));
                        }
                        assert forall|i: int, j: int| 0 <= i < s.len() && 0 <= j < s.len() && i != j implies s[i] != s[j] by {
                            assert(s[i] == q[i + 1] && s[j] == q[j + 1]);
                        }
                        assert forall|c: int| #[trigger] self.idle(c) is Some implies self.idle(c).unwrap() < self.count() && !self.thread(
                            self.idle(c).unwrap() as int,
                        ).dead by {
                            assert(before.idle(c) is Some);
                        }
                        assert forall|c: int| #[trigger] self.current(c) is Some implies self.current(c).unwrap() < self.count() by {
                            assert(before.current(c) is Some);
                        }
                        assert forall|c: int| #[trigger] self.current(c) is Some && self.current(c) == self.idle(c) implies self.idling(c) by {
                            assert(before.current(c) == before.idle(c));
                            assert(before.idling(c));
                            assert(c != cpu);
                        }
                        assert forall|c1: int, c2: int|
                            #[trigger] self.current(c1) is Some && self.current(c1) == #[trigger] self.current(c2) implies c1 == c2 by {
                            assert(before.current(c1) == before.current(c2));
                        }
                        assert forall|c1: int, c2: int|
                            #[trigger] self.current(c1) is Some && self.current(c1) == #[trigger] self.idle(c2) implies c1 == c2 by {
                            assert(before.current(c1) == before.idle(c2));
                        }
                    }
                }
                Some(t)
            },
            None => {
                proof {
                    assert(forall|c: int| #[trigger] self.current(c) == before.current(c));
                    assert(forall|c: int| #[trigger] self.idle(c) == before.idle(c));
                    assert(forall|c: int| #[trigger] self.idling(c) == before.idling(c));
                    assert(forall|u: int| 0 <= u < before.count() ==> #[trigger] self.thread(u) == before.thread(u));
                    self.lemma_wf_transfer(before);
                }
                let r = self.get_idle(cpu, fa, pt);
                proof {
                    if let Some(t) = r {
                        assert forall|i: int| 0 <= i < self.ready().len() implies self.ready()[i] != t by {
                            assert(self.idle(cpu as int) != Some(self.ready()[i]));
                        }
                        assert forall|c: int| #[trigger] self.current(c) != Some(t) by {
                            if self.current(c) == Some(t) {
                                assert(c == cpu);
                            }
                        }
                    }
                }
                r
            },
        }
    }

    /// Picks what `cpu` runs next. The thread it ran goes back on the ready
    /// queue unless the CPU was idling or the thread is dead (a CPU with no
    /// current thread gets a bootstrap thread standing for its boot stack);
    /// then the head of the queue runs, or else the CPU's idle thread. A
    /// thread switched to is running and started from then on; `fresh` tells
    /// its first dispatch. `None` when an idle thread was needed and its stack
    /// could not be had.
    pub fn schedule(&mut self, cpu: usize, fa: &mut FrameAllocator, pt: &mut PageTable) -> (r: Option<Decision>)
        requires
            old(self).wf(),
            old(fa).wf(),
            old(pt).wf(),
            old(pt).backed_by(*old(fa)),
            cpu < usize::MAX,
        ensures
            final(self).wf(),
            final(fa).wf(),
            final(pt).wf(),
            final(pt).backed_by(*final(fa)),
            final(fa).same_layout(*old(fa)),
            forall|q: int| old(fa).owns(q) ==> #[trigger] final(fa).owns(q),
            frames_accounted(*old(fa), *final(fa), *final(pt), old(fa).cursor(), STACK_PAGES + 1),
            forall|c: int| c != cpu ==> #[trigger] final(self).current(c) == old(self).current(c),
            final(self).count() >= old(self).count(),
            forall|u: int| 0 <= u < old(self).count() ==> #[trigger] final(self).thread(u).dead == old(self).thread(u).dead,
            forall|u: int| 0 <= u < old(self).count() && old(self).thread(u).started ==> #[trigger] final(self).thread(u).started,
            ({
                let prev = match old(self).current(cpu as int) {
                    Some(p) => p,
                    None => old(self).count() as usize,
                };
                let requeued = old(self).current(cpu as int) is Some && !old(self).idling(cpu as int) && !old(
                    self,
                ).thread(prev as int).dead;
                let q1 = if requeued {
                    old(self).ready().push(prev)
                } else {
                    old(self).ready()
                };
                match r {
                    Some(d) => {
                        let next = final(self).current(cpu as int).unwrap();
                        &&& final(self).current(cpu as int) is Some
                        &&& !final(self).thread(next as int).dead
                        &&& q1.len() > 0 ==> next == q1[0] && final(self).ready() == q1.drop_first() && !final(self).idling(
                            cpu as int,
                        )
                        &&& q1.len() == 0 ==> final(self).idle(cpu as int) == Some(next) && final(self).idling(cpu as int)
                            && final(self).ready() == q1
                        &&& d == if next == prev {
                            Decision::Resume
                        } else {
                            Decision::Switch {
                                prev,
                                next,
                                fresh: !(next < old(self).count() && old(self).thread(next as int).started),
                            }
                        }
                        &&& next != prev ==> final(self).thread(next as int).started && final(self).thread(
                            next as int,
                        ).running && !final(self).thread(prev as int).running
                    },
                    None => q1.len() == 0 && old(self).idle(cpu as int) is None && no_stack(
                        *old(fa),
                        *old(pt),
                        *final(fa),
                    ),
                }
            }),
    {
        let prev = self.take_prev(cpu);
        let ghost after_prev = *self;
        let next = match self.pick_next(cpu, fa, pt) {
            Some(n) => n,
            None => {
                return None;
            },
        };
        let ghost picked = *self;
        self.thread_current.set(cpu, next);
        proof {
            assert(forall|c: int| c != cpu ==> #[trigger] self.current(c) == picked.current(c));
            assert(forall|c: int| #[trigger] self.idle(c) == picked.idle(c));
            assert(forall|c: int| #[trigger] self.idling(c) == picked.idling(c));
            assert(self.ready() == picked.ready());
            assert(forall|c: int| c != cpu ==> #[trigger] picked.idle(c) != Some(next)) by {
                assert forall|c: int| c != cpu implies #[trigger] picked.idle(c) != Some(next) by {
                    if after_prev.ready().len() > 0 {
                        assert(after_prev.ready()[0] == next);
                        assert(after_prev.current(c) != Some(after_prev.ready()[0]));
                        assert(after_prev.idle(c) != Some(after_prev.ready()[0]));
                    } else {
                        assert(picked.idle(cpu as int) == Some(next));
                    }
                }
            }
            assert(self.wf()) by {
                let q = self.ready();
                assert forall|i: int, c: int|
                    0 <= i < q.len() implies #[trigger] self.current(c) != Some(#[trigger] q[i]) && self.idle(c) != Some(q[i]) by {
                    assert(picked.current(c) != Some(q[i]));
                    if c == cpu {
                        assert(q.contains(q[i]));
                    }
                }
                assert forall|i: int| 0 <= i < q.len() implies (#[trigger] q[i]) < self.count() && !self.thread(q[i] as int).dead by {
                    assert(q[i] == picked.ready()[i]);
                }
                assert forall|c1: int, c2: int|
                    #[trigger] self.current(c1) is Some && self.current(c1) == #[trigger] self.current(c2) implies c1 == c2 by {
                    if c1 != cpu && c2 != cpu {
                        assert(picked.current(c1) == picked.current(c2));
                    } else if c1 != cpu {
                        assert(picked.current(c1) != Some(next));
                    } else if c2 != cpu {
                        assert(picked.current(c2) != Some(next));
                    }
                }
                assert forall|c1: int, c2: int|
                    #[trigger] self.current(c1) is Some && self.current(c1) == #[trigger] self.idle(c2) implies c1 == c2 by {
                    if c1 != cpu {
                        assert(picked.current(c1) == picked.idle(c2));
                    }
                }
                assert forall|c: int| #[trigger] self.current(c) is Some && self.current(c) == self.idle(c) implies self.idling(c) by {
                    if c != cpu {
                        assert(picked.current(c) == picked.idle(c));
                    } else if after_prev.ready().len() > 0 {
                        assert(after_prev.ready()[0] == next);
                        assert(after_prev.current(cpu as int) != Some(after_prev.ready()[0]));
                        assert(after_prev.idle(cpu as int) != Some(after_prev.ready()[0]));
                    }
                }
                assert forall|c: int| #[trigger] self.current(c) is Some implies self.current(c).unwrap() < self.count() by {
                    if c != cpu {
                        assert(picked.current(c) is Some);
                    }
                }
                assert forall|c: int| #[trigger] self.idle(c) is Some implies self.idle(c).unwrap() < self.count() && !self.thread(
                    self.idle(c).unwrap() as int,
                ).dead by {
                    assert(picked.idle(c) is Some);
                }
                assert forall|c1: int, c2: int|
                    #[trigger] self.idle(c1) is Some && self.idle(c1) == #[trigger] self.idle(c2) implies c1 == c2 by {
                    assert(picked.idle(c1) == picked.idle(c2));
                }
            }
        }
        assert(forall|u: int| 0 <= u < old(self).count() ==> #[trigger] self.thread(u) == old(self).thread(u)) by {
            assert forall|u: int| 0 <= u < old(self).count() implies #[trigger] self.thread(u) == old(self).thread(u) by {
                assert(after_prev.thread(u) == old(self).thread(u));
                assert(picked.thread(u) == after_prev.thread(u));
            }
        }
        if next == prev {
            return Some(Decision::Resume);
        }
        let fresh = !self.threads[next].started;
        let ghost installed = *self;
        self.threads[prev].running = false;
        self.threads[next].running = true;
        self.threads[next].started = true;
        proof {
            assert forall|u: int| 0 <= u < installed.count() implies #[trigger] self.thread(u).dead == installed.thread(u).dead
                && (installed.thread(u).started ==> self.thread(u).started) by {}
            assert(forall|c: int| #[trigger] self.current(c) == installed.current(c));
            assert(forall|c: int| #[trigger] self.idle(c) == installed.idle(c));
            assert(forall|c: int| #[trigger] self.idling(c) == installed.idling(c));
            self.lemma_wf_dead_same(installed);
            assert forall|u: int| 0 <= u < old(self).count() && old(self).thread(u).started implies #[trigger] self.thread(
                u,
            ).started by {
                assert(installed.thread(u) == old(self).thread(u));
            }
        }
        Some(Decision::Switch { prev, next, fresh })
    }

    proof fn lemma_wf_dead_same(self, old: Scheduler)
        requires
            old.wf(),
            self.count() == old.count(),
            forall|u: int| 0 <= u < old.count() ==> #[trigger] self.thread(u).dead == old.thread(u).dead,
            forall|c: int| #[trigger] self.current(c) == old.current(c),
            forall|c: int| #[trigger] self.idle(c) == old.idle(c),
            forall|c: int| #[trigger] self.idling(c) == old.idling(c),
            self.ready() == old.ready(),
        ensures
            self.wf(),
    {
        self.lemma_wf_transfer(old);
    }

    /// The exit trampoline of `cpu`'s current thread ran with the entry
    /// function's return value `ret`: that thread is dead and is never
    /// queued or dispatched again. The caller then calls `schedule`.
    pub fn on_exit(&mut self, cpu: usize, ret: usize)
        requires
            old(self).wf(),
            old(self).current(cpu as int) is Some,
            forall|c: int| #[trigger] old(self).idle(c) != old(self).current(cpu as int),
        ensures
            final(self).wf(),
            final(self).thread(old(self).current(cpu as int).unwrap() as int).dead,
            final(self).count() == old(self).count(),
            final(self).ready() == old(self).ready(),
            forall|c: int| #[trigger] final(self).current(c) == old(self).current(c),
            forall|u: int|
                0 <= u < old(self).count() && u != old(self).current(cpu as int).unwrap() ==> #[trigger] final(self).thread(u)
                    == old(self).thread(u),
    {
        let t = *self.thread_current.get(cpu).unwrap();
        let ghost before = *self;
        self.threads[t].on_exit(ret);
        proof {
            assert(forall|c: int| #[trigger] self.current(c) == before.current(c));
            assert(forall|c: int| #[trigger] self.idle(c) == before.idle(c));
            assert(forall|c: int| #[trigger] self.idling(c) == before.idling(c));
            assert forall|u: int| 0 <= u < before.count() && u != t implies #[trigger] self.thread(u) == before.thread(u) by {}
            assert(self.wf()) by {
                let q = self.ready();
                assert forall|i: int| 0 <= i < q.len() implies (#[trigger] q[i]) < self.count() && !self.thread(q[i] as int).dead by {
                    assert(before.current(cpu as int) != Some(before.ready()[i]));
                }
                assert forall|c: int| #[trigger] self.idle(c) is Some implies self.idle(c).unwrap() < self.count() && !self.thread(
                    self.idle(c).unwrap() as int,
                ).dead by {
                    assert(before.idle(c) is Some);
                }
                assert forall|i: int, c: int|
                    0 <= i < q.len() implies #[trigger] self.current(c) != Some(#[trigger] q[i]) && self.idle(c) != Some(q[i]) by {
                    assert(before.current(c) != Some(before.ready()[i]));
                }
                assert forall|c1: int, c2: int|
                    #[trigger] self.current(c1) is Some && self.current(c1) == #[trigger] self.current(c2) implies c1 == c2 by {
                    assert(before.current(c1) == before.current(c2));
                }
                assert forall|c1: int, c2: int|
                    #[trigger] self.current(c1) is Some && self.current(c1) == #[trigger] self.idle(c2) implies c1 == c2 by {
                    assert(before.current(c1) == before.idle(c2));
                }
                assert forall|c: int| #[trigger] self.current(c) is Some && self.current(c) == self.idle(c) implies self.idling(c) by {
                    assert(before.current(c) == before.idle(c));
                }
                assert forall|c1: int, c2: int|
                    #[trigger] self.idle(c1) is Some && self.idle(c1) == #[trigger] self.idle(c2) implies c1 == c2 by {
                    assert(before.idle(c1) == before.idle(c2));
                }
                assert forall|c: int| #[trigger] self.current(c) is Some implies self.current(c).unwrap() < self.count() by {
                    assert(before.current(c) is Some);
                }
            }
        }
    }
}

} // verus!
