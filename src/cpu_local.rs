//! One optional value per CPU, indexed by the CPU's id. Each CPU reads and
//! writes only its own slot; the id is handed in by the caller.
use vstd::prelude::*;

verus! {

pub struct CPULocal<T> {
    data: Vec<Option<T>>,
}

impl<T> View for CPULocal<T> {
    type V = Seq<Option<T>>;

    closed spec fn view(&self) -> Seq<Option<T>> {
        self.data@
    }
}

impl<T> CPULocal<T> {
    /// The value held for `cpu`; slots past the end hold nothing.
    pub open spec fn slot(&self, cpu: int) -> Option<T> {
        if 0 <= cpu < self@.len() {
            self@[cpu]
        } else {
            None
        }
    }

    /// Empty slots for `num_cpu` CPUs.
    pub fn create(num_cpu: usize) -> (r: CPULocal<T>)
        ensures
            r@.len() == num_cpu,
            forall|c: int| #[trigger] r.slot(c) is None,
    {
        let mut data: Vec<Option<T>> = Vec::new();
        let mut k: usize = 0;
        while k < num_cpu
            invariant
                k <= num_cpu,
                data@.len() == k,
                forall|j: int| 0 <= j < k ==> data@[j] is None,
            decreases num_cpu - k,
        {
            data.push(None);
            k += 1;
        }
        CPULocal { data }
    }

    /// The value of `cpu`'s slot, to read or change in place.
    pub fn get_mut(&mut self, cpu: usize) -> (r: Option<&mut T>)
        ensures
            match r {
                Some(x) => {
                    &&& old(self).slot(cpu as int) == Some(*x)
                    &&& final(self)@ == old(self)@.update(cpu as int, Some(*final(x)))
                },
                None => old(self).slot(cpu as int) is None && final(self)@ == old(self)@,
            },
    {
        if cpu >= self.data.len() {
            return None;
        }
        self.data[cpu].as_mut()
    }

    /// Number of slots; every slot past it is empty.
    pub fn len(&self) -> (r: usize)
        ensures
            r == self@.len(),
    {
        self.data.len()
    }

    /// A copy-free look at `cpu`'s slot.
    pub fn get(&self, cpu: usize) -> (r: Option<&T>)
        ensures
            match r {
                Some(x) => self.slot(cpu as int) == Some(*x),
                None => self.slot(cpu as int) is None,
            },
    {
        if cpu >= self.data.len() {
            return None;
        }
        self.data[cpu].as_ref()
    }

    /// Stores `val` in `cpu`'s slot, growing the slots up to `cpu` if needed.
    pub fn set(&mut self, cpu: usize, val: T)
        requires
            cpu < usize::MAX,
        ensures
            final(self).slot(cpu as int) == Some(val),
            forall|c: int| c != cpu ==> #[trigger] final(self).slot(c) == old(self).slot(c),
            final(self)@.len() >= old(self)@.len(),
    {
        while self.data.len() <= cpu
            invariant
                cpu < usize::MAX,
                self@.len() >= old(self)@.len(),
                forall|c: int| #[trigger] self.slot(c) == old(self).slot(c),
            decreases cpu + 1 - self@.len(),
        {
            let ghost prev = *self;
            self.data.push(None);
            assert forall|c: int| #[trigger] self.slot(c) == old(self).slot(c) by {
                assert(prev.slot(c) == old(self).slot(c));
                if 0 <= c < prev@.len() {
                    assert(self@[c] == prev@[c]);
                }
            }
        }
        let ghost prev = *self;
        self.data.set(cpu, Some(val));
        assert forall|c: int| c != cpu implies #[trigger] self.slot(c) == old(self).slot(c) by {
            assert(prev.slot(c) == old(self).slot(c));
            if 0 <= c < prev@.len() {
                assert(self@[c] == prev@[c]);
            }
        }
    }

    /// Takes the value out of `cpu`'s slot, leaving it empty.
    pub fn into_inner(&mut self, cpu: usize) -> (r: Option<T>)
        ensures
            r == old(self).slot(cpu as int),
            final(self).slot(cpu as int) is None,
            forall|c: int| c != cpu ==> #[trigger] final(self).slot(c) == old(self).slot(c),
            final(self)@.len() == old(self)@.len(),
    {
        if cpu >= self.data.len() {
            return None;
        }
        let r = self.data[cpu].take();
        r
    }
}

} // verus!
