//! A fixed-size bit set stored in bytes, least significant bit first.
use vstd::prelude::*;

verus! {

/// Whether bit `off` (0..8) of `b` is set.
pub open spec fn bit_of(b: u8, off: u8) -> bool {
    (b >> off) & 1u8 == 1u8
}

proof fn lemma_set_bit(b: u8, off: u8)
    requires
        off < 8,
    ensures
        forall|j: u8| j < 8 ==> #[trigger] bit_of(b | (1u8 << off), j) == (j == off || bit_of(b, j)),
{
    assert forall|j: u8| j < 8 implies #[trigger] bit_of(b | (1u8 << off), j) == (j == off || bit_of(b, j)) by {
        assert(((b | (1u8 << off)) >> j) & 1u8 == 1u8 <==> (j == off || (b >> j) & 1u8 == 1u8))
            by (bit_vector)
            requires
                off < 8,
                j < 8,
        ;
    }
}

proof fn lemma_clear_bit(b: u8, off: u8)
    requires
        off < 8,
    ensures
        forall|j: u8| j < 8 ==> #[trigger] bit_of(b & !(1u8 << off), j) == (j != off && bit_of(b, j)),
{
    assert forall|j: u8| j < 8 implies #[trigger] bit_of(b & !(1u8 << off), j) == (j != off && bit_of(b, j)) by {
        assert(((b & !(1u8 << off)) >> j) & 1u8 == 1u8 <==> (j != off && (b >> j) & 1u8 == 1u8))
            by (bit_vector)
            requires
                off < 8,
                j < 8,
        ;
    }
}

proof fn lemma_zero_byte(j: u8)
    requires
        j < 8,
    ensures
        !bit_of(0u8, j),
{
    assert((0u8 >> j) & 1u8 == 0u8) by (bit_vector);
}

proof fn lemma_full_byte(j: u8)
    requires
        j < 8,
    ensures
        bit_of(0xffu8, j),
{
    assert((0xffu8 >> j) & 1u8 == 1u8) by (bit_vector)
        requires
            j < 8,
    ;
}

proof fn lemma_complement_bit(b: u8, j: u8)
    requires
        j < 8,
    ensures
        ((!b >> j) & 1u8 == 1u8) == !bit_of(b, j),
{
    assert(((!b >> j) & 1u8 == 1u8) == !((b >> j) & 1u8 == 1u8)) by (bit_vector)
        requires
            j < 8,
    ;
}

/// A bit set whose bit `i` lives in byte `i / 8` at position `i % 8`.
pub struct Bitmap {
    bytes: Vec<u8>,
}

impl View for Bitmap {
    type V = Seq<bool>;

    closed spec fn view(&self) -> Seq<bool> {
        Seq::new((self.bytes@.len() * 8) as nat, |i: int| bit_of(self.bytes@[i / 8], (i % 8) as u8))
    }
}

impl Bitmap {
    /// The bit count fits in a `usize`.
    pub closed spec fn wf(&self) -> bool {
        self.bytes@.len() * 8 <= usize::MAX
    }

    /// A cleared bitmap of `cap / 8` bytes, so `cap` rounded down to whole bytes.
    pub fn new(cap: usize) -> (r: Bitmap)
        ensures
            r.wf(),
            r@.len() == cap / 8 * 8,
            forall|i: int| 0 <= i < r@.len() ==> !r@[i],
    {
        let n = cap / 8;
        let mut bytes: Vec<u8> = Vec::with_capacity(n);
        let mut k: usize = 0;
        while k < n
            invariant
                k <= n,
                bytes@.len() == k,
                forall|j: int| 0 <= j < k ==> bytes@[j] == 0u8,
            decreases n - k,
        {
            bytes.push(0u8);
            k += 1;
        }
        let r = Bitmap { bytes };
        assert forall|i: int| 0 <= i < r@.len() implies !r@[i] by {
            lemma_zero_byte((i % 8) as u8);
        }
        r
    }

    /// Number of bits held.
    pub fn len(&self) -> (r: usize)
        requires
            self.wf(),
        ensures
            r == self@.len(),
    {
        self.bytes.len() * 8
    }

    fn cal_byte_index(bit_index: usize) -> (r: usize)
        ensures
            r == bit_index / 8,
    {
        bit_index / 8
    }

    fn cal_bit_offset(bit_index: usize) -> (r: usize)
        ensures
            r == bit_index % 8,
            r < 8,
    {
        bit_index % 8
    }

    fn get_byte(&self, index: usize) -> (r: u8)
        requires
            index < self.bytes@.len(),
        ensures
            r == self.bytes@[index as int],
    {
        self.bytes[index]
    }

    /// Bit `bit_index`.
    pub fn get(&self, bit_index: usize) -> (r: bool)
        requires
            bit_index < self@.len(),
        ensures
            r == self@[bit_index as int],
    {
        let byte = self.get_byte(Bitmap::cal_byte_index(bit_index));
        let off = Bitmap::cal_bit_offset(bit_index);
        (byte >> (off as u8)) & 1u8 == 1u8
    }

    /// Sets bit `bit_index` to `val`, leaving every other bit as it was.
    pub fn set(&mut self, bit_index: usize, val: bool)
        requires
            old(self).wf(),
            bit_index < old(self)@.len(),
        ensures
            final(self).wf(),
            final(self)@ == old(self)@.update(bit_index as int, val),
    {
        let off = Bitmap::cal_bit_offset(bit_index) as u8;
        let idx = Bitmap::cal_byte_index(bit_index);
        let byte = self.get_byte(idx);
        let new_byte = if val {
            byte | (1u8 << off)
        } else {
            byte & !(1u8 << off)
        };
        proof {
            lemma_set_bit(byte, off);
            lemma_clear_bit(byte, off);
        }
        self.bytes.set(idx, new_byte);
        assert(self@ =~= old(self)@.update(bit_index as int, val));
    }

    /// Sets the lowest clear bit and returns its index; `None`, with nothing
    /// changed, when every bit is set.
    pub fn set_first_unused(&mut self) -> (r: Option<usize>)
        requires
            old(self).wf(),
        ensures
            final(self).wf(),
            match r {
                Some(i) => {
                    &&& i < old(self)@.len()
                    &&& !old(self)@[i as int]
                    &&& forall|j: int| 0 <= j < i ==> old(self)@[j]
                    &&& final(self)@ == old(self)@.update(i as int, true)
                },
                None => {
                    &&& final(self)@ == old(self)@
                    &&& forall|j: int| 0 <= j < old(self)@.len() ==> old(self)@[j]
                },
            },
    {
        let n = self.bytes.len();
        let mut i: usize = 0;
        while i < n
            invariant
                i <= n,
                n == self.bytes@.len(),
                n * 8 <= usize::MAX,
                self@ == old(self)@,
                self.wf(),
                forall|j: int| 0 <= j < i * 8 ==> self@[j],
            decreases n - i,
        {
            let byte = self.get_byte(i);
            if byte != 0xffu8 {
                let pos = (!byte).trailing_zeros();
                proof {
                    vstd::std_specs::bits::axiom_u8_trailing_zeros(!byte);
                    assert(!byte != 0u8) by (bit_vector)
                        requires
                            byte != 0xffu8,
                    ;
                    lemma_complement_bit(byte, pos as u8);
                    assert forall|j: u8| j < pos implies bit_of(byte, j) by {
                        lemma_complement_bit(byte, j);
                    }
                }
                let bit = i * 8 + pos as usize;
                proof {
                    assert forall|j: int| 0 <= j < bit implies self@[j] by {
                        if j >= i * 8 {
                            assert(j / 8 == i as int);
                            assert(bit_of(byte, (j % 8) as u8));
                        }
                    }
                    assert(bit / 8 == i as int);
                    assert(bit % 8 == pos as int);
                }
                self.set(bit, true);
                return Some(bit);
            }
            proof {
                assert forall|j: int| 0 <= j < (i + 1) * 8 implies self@[j] by {
                    if j >= i * 8 {
                        assert(j / 8 == i as int);
                        lemma_full_byte((j % 8) as u8);
                    }
                }
            }
            i += 1;
        }
        None
    }
}

/// Setting a bit and reading it back gives what was set, and leaves every
/// other bit alone.
pub proof fn lemma_set_get(before: Seq<bool>, after: Seq<bool>, i: int, v: bool)
    requires
        0 <= i < before.len(),
        after == before.update(i, v),
    ensures
        after[i] == v,
        forall|j: int| 0 <= j < before.len() && j != i ==> after[j] == before[j],
{
}

/// Successive `set_first_unused` calls hand out distinct bits, each clear
/// before and set after: the second call cannot return the first one's bit.
pub proof fn lemma_first_unused_distinct(b0: Seq<bool>, b1: Seq<bool>, b2: Seq<bool>, i: int, j: int)
    requires
        0 <= i < b0.len(),
        !b0[i],
        b1 == b0.update(i, true),
        0 <= j < b1.len(),
        !b1[j],
        b2 == b1.update(j, true),
    ensures
        i != j,
        !b0[j],
        b2[i] && b2[j],
{
}

/// The self-test of the bitmap: marks every ninth bit of a 2^24-bit map,
/// reads the first 9000 bits back, then takes the 100 lowest clear bits and
/// returns them. Each comes out clear before (not a marked bit) and above
/// the one before it.
pub fn test_bitmap() -> (r: Vec<usize>)
    ensures
        r@.len() == 100,
        forall|k: int| 0 <= k < 100 ==> !(r@[k] % 9 == 0 && r@[k] < 9000),
        forall|k: int, m: int| 0 <= k < m < 100 ==> r@[k] < r@[m],
{
    let mut b = Bitmap::new(0x1000000);
    let n = b.len();
    let mut i: usize = 0;
    while i < 1000
        invariant
            b.wf(),
            b@.len() == n,
            n == 0x1000000,
            i <= 1000,
            forall|x: int| 0 <= x < n ==> b@[x] == (x % 9 == 0 && x < 9 * i),
        decreases 1000 - i,
    {
        b.set(i * 9, true);
        assert forall|x: int| 0 <= x < n implies b@[x] == (x % 9 == 0 && x < 9 * (i + 1)) by {
            if x == i * 9 {
                assert(x % 9 == 0);
            }
        }
        i += 1;
    }
    let mut i: usize = 0;
    while i < 9000
        invariant
            b.wf(),
            b@.len() == n,
            n == 0x1000000,
            forall|x: int| 0 <= x < n ==> b@[x] == (x % 9 == 0 && x < 9000),
        decreases 9000 - i,
    {
        let set = b.get(i);
        assert(set == (i % 9 == 0));
        i += 1;
    }
    let mut taken: Vec<usize> = Vec::new();
    let mut k: usize = 0;
    while k < 100
        invariant
            b.wf(),
            b@.len() == n,
            n == 0x1000000,
            k <= 100,
            taken@.len() == k,
            forall|x: int| 9000 + k <= x < n ==> !b@[x],
            forall|x: int| 0 <= x < 9000 && x % 9 == 0 ==> b@[x],
            forall|j: int| 0 <= j < k ==> !(taken@[j] % 9 == 0 && taken@[j] < 9000) && b@[taken@[j] as int],
            forall|j: int, m: int| 0 <= j < m < k ==> taken@[j] < taken@[m],
            forall|x: int| 0 <= x < n && k > 0 && x <= taken@[k - 1] ==> b@[x],
        decreases 100 - k,
    {
        let ghost before = b@;
        let got = b.set_first_unused();
        match got {
            Some(idx) => {
                proof {
                    assert(!before[9000 + k]);
                    if k > 0 {
                        assert(idx > taken@[k - 1]);
                    }
                }
                taken.push(idx);
            },
            None => {
                assert(!before[9000 + k]);
                return taken;
            },
        }
        k += 1;
    }
    taken
}

} // verus!
