use smp_kernel::boot::memory_region;
use smp_kernel::cpu_local::CPULocal;
use smp_kernel::frame::{FrameAllocator, KER_LOWER_BOUND, PAGE_SIZE};
use smp_kernel::paging::PageTable;
use smp_kernel::queue::Queue;
use smp_kernel::scheduler::{Decision, Scheduler};
use smp_kernel::threads::KThread;
use smp_kernel::vga::{color_code_new, Color, ScreenChar, VgaWriter};

fn machine() -> (FrameAllocator, PageTable) {
    (FrameAllocator::new(0x100000, 0x4000000), PageTable::new(0x1000))
}

#[test]
fn queue_fifo_scenario() {
    let mut q: Queue<usize> = Queue::create();
    q.enqueue(1);
    q.enqueue(2);
    assert_eq!(q.dequeue(), Some(1));
    q.enqueue(3);
    assert_eq!(q.dequeue(), Some(2));
    assert_eq!(q.dequeue(), Some(3));
    assert_eq!(q.dequeue(), None);
    assert_eq!(q.dequeue(), None);
}

#[test]
fn queue_drains_in_order() {
    let mut q: Queue<u64> = Queue::create();
    for x in 1..=100 {
        q.enqueue(x);
    }
    assert_eq!(q.len(), 100);
    for x in 1..=100 {
        assert_eq!(q.dequeue(), Some(x));
    }
    assert_eq!(q.dequeue(), None);
    assert_eq!(q.len(), 0);
}

#[test]
fn test_cpu_local() {
    let mut clocal: CPULocal<usize> = CPULocal::create(1);
    for x in 0..1 {
        clocal.set(0, x);
        assert!(*clocal.get_mut(0).unwrap() == x);
    }
}

#[test]
fn cpu_local_slots() {
    let mut c: CPULocal<u32> = CPULocal::create(2);
    assert_eq!(c.get(0), None);
    assert_eq!(c.get(7), None);
    c.set(1, 5);
    assert_eq!(c.get(1), Some(&5));
    c.set(4, 9);
    assert_eq!(c.get(4), Some(&9));
    assert_eq!(c.get(3), None);
    *c.get_mut(4).unwrap() += 1;
    assert_eq!(c.get(4), Some(&10));
    assert_eq!(c.into_inner(4), Some(10));
    assert_eq!(c.into_inner(4), None);
    assert_eq!(c.get(1), Some(&5));
    assert_eq!(c.into_inner(9), None);
}

#[test]
fn thread_create_primes_stack() {
    let (mut fa, mut pt) = machine();
    let t = KThread::create(0x4000, "t", &mut fa, &mut pt).unwrap();
    assert_eq!(t.name, "t");
    assert_eq!(t.stack_top, KER_LOWER_BOUND + 4 * PAGE_SIZE);
    assert_eq!(t.rsp, t.stack_top - 32);
    assert!(!t.running && !t.started && !t.dead);
    assert_eq!(pt.translate(KER_LOWER_BOUND), None);
    assert!(pt.translate(KER_LOWER_BOUND + 3 * PAGE_SIZE).is_some());
    let w = t.stack_words(0x5000, 0x6000);
    assert_eq!(w, vec![(t.stack_top - 16, 0x6000), (t.stack_top - 24, 0x5000), (t.stack_top - 32, 0x4000)]);
}

#[test]
fn thread_exit_marks_dead() {
    let mut t = KThread::boot_strap_thread();
    assert_eq!(t.name, "bootstrap");
    assert!(t.running && !t.is_dead());
    t.on_exit(0x42);
    assert!(t.is_dead());
}

#[test]
fn new_thread_runs_once_then_dies() {
    let (mut fa, mut pt) = machine();
    let mut s = Scheduler::new(2, 0x9000);
    let t = s.new_thread(0x4000, "t", &mut fa, &mut pt).unwrap();
    assert_eq!(t, 0);
    assert_eq!(s.ready_len(), 1);
    // first tick on CPU 0: the boot stack becomes thread 1, thread 0 is entered
    let d = s.schedule(0, &mut fa, &mut pt).unwrap();
    assert_eq!(d, Decision::Switch { prev: 1, next: 0, fresh: true });
    assert_eq!(s.current_thread(0), Some(0));
    assert!(s.get_thread(0).running && s.get_thread(0).started);
    assert!(!s.get_thread(1).running);
    // next tick: thread 0 is requeued and picked again
    let d = s.schedule(0, &mut fa, &mut pt).unwrap();
    assert_eq!(d, Decision::Resume);
    // the entry function returns
    s.on_exit(0, 0x42);
    assert!(s.get_thread(0).is_dead());
    let d = s.schedule(0, &mut fa, &mut pt).unwrap();
    assert_eq!(d, Decision::Switch { prev: 0, next: 2, fresh: true });
    assert_eq!(s.ready_len(), 0);
    assert_eq!(s.get_thread(2).entry_point, 0x9000);
    // the dead thread never comes back
    for _ in 0..5 {
        s.schedule(0, &mut fa, &mut pt).unwrap();
        assert_ne!(s.current_thread(0), Some(0));
    }
}

#[test]
fn empty_queue_and_no_thread_idles() {
    let (mut fa, mut pt) = machine();
    let mut s = Scheduler::new(1, 0x9000);
    let d = s.schedule(0, &mut fa, &mut pt).unwrap();
    assert_eq!(d, Decision::Switch { prev: 0, next: 1, fresh: true });
    assert_eq!(s.get_thread(1).entry_point, 0x9000);
    // idling: the idle thread is not queued, so it is picked again
    assert_eq!(s.schedule(0, &mut fa, &mut pt), Some(Decision::Resume));
    assert_eq!(s.ready_len(), 0);
    assert_eq!(s.thread_count(), 2);
}

#[test]
fn idle_thread_made_once_per_cpu() {
    let (mut fa, mut pt) = machine();
    let mut s = Scheduler::new(2, 0x9000);
    let i0 = s.get_idle(0, &mut fa, &mut pt).unwrap();
    let i1 = s.get_idle(1, &mut fa, &mut pt).unwrap();
    assert_ne!(i0, i1);
    assert_eq!(s.get_idle(0, &mut fa, &mut pt), Some(i0));
    assert!(s.is_idle(i0) && s.is_idle(i1));
    assert_eq!(s.thread_count(), 2);
    assert_eq!(s.ready_len(), 0);
}

#[test]
fn threads_round_robin_across_cpus() {
    let (mut fa, mut pt) = machine();
    let mut s = Scheduler::new(2, 0x9000);
    let a = s.new_thread(0x4000, "a", &mut fa, &mut pt).unwrap();
    let b = s.new_thread(0x4100, "b", &mut fa, &mut pt).unwrap();
    let c = s.new_thread(0x4200, "c", &mut fa, &mut pt).unwrap();
    s.schedule(0, &mut fa, &mut pt).unwrap();
    s.schedule(1, &mut fa, &mut pt).unwrap();
    assert_eq!(s.current_thread(0), Some(a));
    assert_eq!(s.current_thread(1), Some(b));
    let d = s.schedule(0, &mut fa, &mut pt).unwrap();
    assert_eq!(d, Decision::Switch { prev: a, next: c, fresh: true });
    let d = s.schedule(1, &mut fa, &mut pt).unwrap();
    assert_eq!(d, Decision::Switch { prev: b, next: a, fresh: false });
    assert_ne!(s.current_thread(0), s.current_thread(1));
}

#[test]
fn vga_putchar_and_wrap() {
    let mut w = VgaWriter::new();
    w.putchar('A');
    assert_eq!(w.char_at(0, 0), ScreenChar { ascii_character: b'A', color_code: 15 });
    w.putchar('\n');
    w.putchar('B');
    assert_eq!(w.char_at(1, 0).ascii_character, b'B');
    assert_eq!(w.char_at(0, 1).ascii_character, 0);
    for _ in 0..79 {
        w.putchar('x');
    }
    w.putchar('C');
    assert_eq!(w.char_at(1, 79).ascii_character, b'x');
    assert_eq!(w.char_at(2, 0).ascii_character, b'C');
}

#[test]
fn vga_scrolls_at_bottom() {
    let mut w = VgaWriter::new();
    w.putchar('A');
    for _ in 0..24 {
        w.putchar('\n');
    }
    w.putchar('Z');
    assert_eq!(w.char_at(24, 0).ascii_character, b'Z');
    assert_eq!(w.char_at(0, 0).ascii_character, b'A');
    w.putchar('\n');
    assert_eq!(w.char_at(0, 0).ascii_character, 0);
    assert_eq!(w.char_at(23, 0).ascii_character, b'Z');
    assert_eq!(w.char_at(24, 0).ascii_character, 0);
    w.clear();
    assert_eq!(w.char_at(23, 0).ascii_character, 0);
}

#[test]
fn vga_color_codes() {
    assert_eq!(color_code_new(Color::White, Color::Black), 0x0f);
    assert_eq!(color_code_new(Color::Blue, Color::Red), 0x41);
    assert_eq!(Color::Yellow.code(), 14);
}

#[test]
fn memory_region_from_boot_info() {
    let areas = vec![(0, 0x9fc00), (0x100000, 0x7ee0000)];
    let sections = vec![(true, 0x110000), (false, 0x200000), (true, 0x120000), (false, 0x300000)];
    assert_eq!(memory_region(&areas, &sections, 0x121000), Some((0x121000, 0x7fe0000 - 0x121000)));
    assert_eq!(memory_region(&areas, &sections, 0x100), Some((0x120000, 0x7fe0000 - 0x120000)));
    assert_eq!(memory_region(&vec![(0, 0x1000)], &sections, 0), None);
    assert_eq!(memory_region(&vec![], &vec![], 0), Some((0, 0)));
}

#[test]
fn switch_to_waits_for_running_thread() {
    let (mut fa, mut pt) = machine();
    let mut boot = KThread::boot_strap_thread();
    let mut t = KThread::create(0x4000, "t", &mut fa, &mut pt).unwrap();
    let first = t.rsp;
    assert_eq!(boot.switch_to(&mut t, 0x7000), Some(first));
    assert!(t.running && t.started && t.rsp == 0);
    assert!(!boot.running && boot.rsp == 0x7000);
    let mut other = KThread::boot_strap_thread();
    assert_eq!(other.switch_to(&mut t, 0x8000), None);
    assert!(other.running && other.rsp == 0);
    assert_eq!(t.switch_to(&mut boot, 0x9000), Some(0x7000));
    assert_eq!(other.switch_to(&mut t, 0x8000), Some(0x9000));
}
