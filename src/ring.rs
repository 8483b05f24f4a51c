//! A ring of blocks: appended at the tail, drained from the head, and seen as
//! two contiguous segments once its storage has wrapped.
use vstd::prelude::*;
use vstd::slice::slice_subrange;

verus! {

/// Slots a new ring starts with; one slot always stays free.
pub const INITIAL_SLOTS: usize = 8;

/// A ring buffer of blocks over a `Vec`: `len` blocks from slot `head` on,
/// wrapping at `size` slots, of which the first `slots.len()` have been
/// written so far.
pub struct BlockRing<B> {
    slots: Vec<B>,
    head: usize,
    len: usize,
    size: usize,
}

impl<B: Copy> View for BlockRing<B> {
    type V = Seq<B>;

    /// The blocks in the ring, head first.
    closed spec fn view(&self) -> Seq<B> {
        Seq::new(self.len as nat, |i: int| self.slots@[(self.head + i) % (self.size as int)])
    }
}

/// Where slot `h + i` of a ring of `size` slots lands.
proof fn lemma_slot(h: int, i: int, size: int)
    requires
        0 <= h < size,
        0 <= i < size,
    ensures
        (h + i) % size == if h + i < size {
            h + i
        } else {
            h + i - size
        },
{
    if h + i < size {
        vstd::arithmetic::div_mod::lemma_small_mod((h + i) as nat, size as nat);
    } else {
        vstd::arithmetic::div_mod::lemma_fundamental_div_mod_converse(h + i, size, 1, h + i - size);
    }
}

impl<B: Copy> BlockRing<B> {
    /// The blocks fit in the slots written so far, and one slot stays free.
    pub closed spec fn wf(&self) -> bool {
        &&& 2 <= self.size <= usize::MAX / 2
        &&& self.slots@.len() <= self.size
        &&& self.head < self.size
        &&& self.len < self.size
        &&& (self.head + self.len <= self.slots@.len() || self.slots@.len() == self.size)
    }

    /// How many blocks the ring holds before it must grow.
    pub closed spec fn spec_capacity(&self) -> nat {
        (self.size - 1) as nat
    }

    pub fn new() -> (r: Self)
        ensures
            r.wf(),
            r@ == Seq::<B>::empty(),
            r.spec_capacity() == INITIAL_SLOTS - 1,
    {
        let r = BlockRing { slots: Vec::new(), head: 0, len: 0, size: INITIAL_SLOTS };
        assert(r@ =~= Seq::<B>::empty());
        r
    }

    pub fn len(&self) -> (r: usize)
        requires
            self.wf(),
        ensures
            r == self@.len(),
    {
        self.len
    }

    pub fn capacity(&self) -> (r: usize)
        requires
            self.wf(),
        ensures
            r == self.spec_capacity(),
    {
        self.size - 1
    }

    /// Makes room for `additional` more blocks, in a single allocation if the
    /// ring has to grow.
    pub fn reserve(&mut self, additional: usize)
        requires
            old(self).wf(),
            old(self)@.len() + additional <= usize::MAX / 8,
        ensures
            final(self).wf(),
            final(self)@ == old(self)@,
            final(self).spec_capacity() >= old(self)@.len() + additional,
            old(self).spec_capacity() >= old(self)@.len() + additional ==> final(self).spec_capacity()
                == old(self).spec_capacity(),
    {
        let needed = self.len + additional;
        if needed < self.size {
            return;
        }
        let mut size = self.size;
        while size <= needed
            invariant
                2 <= size <= 2 * needed + 2,
                needed <= usize::MAX / 8,
            decreases 2 * needed + 2 - size,
        {
            size = size * 2;
        }
        let ghost old_view = self@;
        let mut slots: Vec<B> = Vec::with_capacity(size);
        let mut i: usize = 0;
        while i < self.len
            invariant
                self.wf(),
                self@ == old_view,
                i <= self.len,
                slots@ == old_view.subrange(0, i as int),
            decreases self.len - i,
        {
            proof {
                lemma_slot(self.head as int, i as int, self.size as int);
            }
            let at = (self.head + i) % self.size;
            slots.push(self.slots[at]);
            i += 1;
        }
        self.slots = slots;
        self.head = 0;
        self.size = size;
        assert forall|i: int| 0 <= i < self.len implies #[trigger] self@[i] == old_view[i] by {
            lemma_slot(0, i, size as int);
        }
        assert(self@ =~= old_view);
    }

    /// Appends a block at the tail.
    pub fn push_back(&mut self, block: B)
        requires
            old(self).wf(),
            old(self)@.len() + 1 <= usize::MAX / 8,
        ensures
            final(self).wf(),
            final(self)@ == old(self)@.push(block),
            old(self).spec_capacity() > old(self)@.len() ==> final(self).spec_capacity()
                == old(self).spec_capacity(),
    {
        self.reserve(1);
        let ghost before = self@;
        proof {
            lemma_slot(self.head as int, self.len as int, self.size as int);
        }
        let at = (self.head + self.len) % self.size;
        if at < self.slots.len() {
            self.slots.set(at, block);
        } else {
            self.slots.push(block);
        }
        self.len = self.len + 1;
        assert forall|i: int| 0 <= i < self.len implies #[trigger] self@[i] == before.push(block)[i] by {
            lemma_slot(self.head as int, i, self.size as int);
        }
        assert(self@ =~= before.push(block));
    }

    /// Removes the first `n` blocks.
    pub fn drain_front(&mut self, n: usize)
        requires
            old(self).wf(),
            n <= old(self)@.len(),
        ensures
            final(self).wf(),
            final(self)@ == old(self)@.skip(n as int),
            final(self).spec_capacity() == old(self).spec_capacity(),
    {
        let ghost before = self@;
        if n == self.len {
            self.head = 0;
            self.len = 0;
        } else {
            proof {
                lemma_slot(self.head as int, n as int, self.size as int);
            }
            self.head = (self.head + n) % self.size;
            self.len = self.len - n;
            assert forall|i: int| 0 <= i < self.len implies #[trigger] self@[i] == before.skip(
                n as int,
            )[i] by {
                lemma_slot(self.head as int, i, self.size as int);
                lemma_slot(old(self).head as int, n + i, self.size as int);
            }
        }
        assert(self@ =~= before.skip(n as int));
    }

    /// The blocks as two contiguous segments: the second is non-empty only
    /// when the blocks wrap around the end of the storage.
    pub fn as_slices(&self) -> (r: (&[B], &[B]))
        requires
            self.wf(),
        ensures
            r.0@ + r.1@ == self@,
            r.1@.len() > 0 ==> r.0@.len() > 0,
    {
        let slots = self.slots.as_slice();
        if self.head + self.len <= self.size {
            let end = self.head + self.len;
            let first = slice_subrange(slots, self.head, end);
            let second = slice_subrange(slots, 0, 0);
            assert forall|i: int| 0 <= i < self.len implies #[trigger] self@[i] == (first@
                + second@)[i] by {
                lemma_slot(self.head as int, i, self.size as int);
            }
            assert(first@ + second@ =~= self@);
            (first, second)
        } else {
            let first = slice_subrange(slots, self.head, self.size);
            let second = slice_subrange(slots, 0, self.head + self.len - self.size);
            assert forall|i: int| 0 <= i < self.len implies #[trigger] self@[i] == (first@
                + second@)[i] by {
                lemma_slot(self.head as int, i, self.size as int);
            }
            assert(first@ + second@ =~= self@);
            (first, second)
        }
    }
}

} // verus!
