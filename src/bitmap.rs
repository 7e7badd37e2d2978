//! Free-space bookkeeping: one bit per block of a region.
use vstd::prelude::*;

verus! {

/// Number of clear (free) bits in `bits`.
pub open spec fn count_free(bits: Seq<bool>) -> nat
    decreases bits.len(),
{
    if bits.len() == 0 {
        0
    } else {
        count_free(bits.drop_last()) + if bits.last() { 0nat } else { 1nat }
    }
}

/// `i` is the lowest free bit: the first `false` of `bits`.
pub open spec fn is_lowest_free(bits: Seq<bool>, i: int) -> bool {
    0 <= i < bits.len() && !bits[i] && forall|j: int| 0 <= j < i ==> bits[j]
}

/// Free count never exceeds the length.
pub proof fn lemma_count_free_le(bits: Seq<bool>)
    ensures
        count_free(bits) <= bits.len(),
    decreases bits.len(),
{
    if bits.len() > 0 {
        lemma_count_free_le(bits.drop_last());
    }
}

/// A region whose bits are all set has no free bit.
pub proof fn lemma_count_free_full(bits: Seq<bool>)
    requires
        forall|j: int| 0 <= j < bits.len() ==> bits[j],
    ensures
        count_free(bits) == 0,
    decreases bits.len(),
{
    if bits.len() > 0 {
        lemma_count_free_full(bits.drop_last());
    }
}

/// Flipping one bit changes the free count by exactly one.
pub proof fn lemma_count_free_update(bits: Seq<bool>, i: int, v: bool)
    requires
        0 <= i < bits.len(),
    ensures
        count_free(bits.update(i, v)) + (if bits[i] { 0int } else { 1int })
            == count_free(bits) + (if v { 0int } else { 1int }),
    decreases bits.len(),
{
    let u = bits.update(i, v);
    if i == bits.len() - 1 {
        assert(u.drop_last() =~= bits.drop_last());
    } else {
        assert(u.drop_last() =~= bits.drop_last().update(i, v));
        lemma_count_free_update(bits.drop_last(), i, v);
    }
}

/// Allocation state of a region of blocks: bit `i` set means block
/// `i` of the region is in use.
pub struct Bitmap {
    bits: Vec<bool>,
}

impl View for Bitmap {
    type V = Seq<bool>;

    closed spec fn view(&self) -> Seq<bool> {
        self.bits@
    }
}

impl Bitmap {
    /// A region of `size` blocks, all free.
    pub fn new(size: usize) -> (r: Bitmap)
        ensures
            r@.len() == size,
            forall|j: int| 0 <= j < size ==> !r@[j],
    {
        let mut bits: Vec<bool> = Vec::new();
        while bits.len() < size
            invariant
                bits@.len() <= size,
                forall|j: int| 0 <= j < bits@.len() ==> !bits@[j],
            decreases size - bits@.len(),
        {
            bits.push(false);
        }
        Bitmap { bits }
    }

    /// Number of blocks the region covers.
    pub fn maximum(&self) -> (r: usize)
        ensures
            r == self@.len(),
    {
        self.bits.len()
    }

    /// Whether block `i` of the region is in use.
    pub fn is_set(&self, i: usize) -> (r: bool)
        requires
            i < self@.len(),
        ensures
            r == self@[i as int],
    {
        self.bits[i]
    }

    /// Number of free blocks in the region.
    pub fn free_count(&self) -> (r: usize)
        ensures
            r == count_free(self@),
    {
        let mut n: usize = 0;
        let mut i: usize = 0;
        while i < self.bits.len()
            invariant
                i <= self@.len(),
                n == count_free(self@.subrange(0, i as int)),
            decreases self@.len() - i,
        {
            proof {
                assert(self@.subrange(0, i + 1).drop_last() =~= self@.subrange(0, i as int));
                lemma_count_free_le(self@.subrange(0, i as int));
            }
            if !self.bits[i] {
                n = n + 1;
            }
            i = i + 1;
        }
        assert(self@.subrange(0, i as int) =~= self@);
        n
    }

    /// Takes the lowest-numbered free block and marks it used; `None`
    /// when every block of the region is in use.
    pub fn allocate(&mut self) -> (r: Option<usize>)
        ensures
            match r {
                Some(i) => {
                    &&& is_lowest_free(old(self)@, i as int)
                    &&& final(self)@ == old(self)@.update(i as int, true)
                    &&& count_free(final(self)@) + 1 == count_free(old(self)@)
                },
                None => {
                    &&& *final(self) == *old(self)
                    &&& forall|j: int| 0 <= j < old(self)@.len() ==> old(self)@[j]
                    &&& count_free(old(self)@) == 0
                },
            },
    {
        let mut i: usize = 0;
        while i < self.bits.len()
            invariant
                i <= self@.len(),
                *self == *old(self),
                forall|j: int| 0 <= j < i ==> self@[j],
            decreases self@.len() - i,
        {
            if !self.bits[i] {
                proof {
                    lemma_count_free_update(self@, i as int, true);
                }
                self.bits.set(i, true);
                return Some(i);
            }
            i = i + 1;
        }
        proof {
            lemma_count_free_full(self@);
        }
        None
    }

    /// Marks block `i` of the region free again. Freeing a free block is
    /// a broken invariant, so the block must be in use.
    pub fn deallocate(&mut self, i: usize)
        requires
            i < old(self)@.len(),
            old(self)@[i as int],
        ensures
            final(self)@ == old(self)@.update(i as int, false),
            count_free(final(self)@) == count_free(old(self)@) + 1,
    {
        proof {
            lemma_count_free_update(self@, i as int, false);
        }
        self.bits.set(i, false);
    }
}

} // verus!

verus! {

/// In a region with no bit set, every block is free.
pub proof fn lemma_count_free_all(bits: Seq<bool>)
    requires
        forall|j: int| 0 <= j < bits.len() ==> !bits[j],
    ensures
        count_free(bits) == bits.len(),
    decreases bits.len(),
{
    if bits.len() > 0 {
        lemma_count_free_all(bits.drop_last());
    }
}

} // verus!
