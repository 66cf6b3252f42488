//! The pool: a fixed number of slots of one size, with one bit per slot that
//! says whether the slot is handed out.
//!
//! The pool keeps the bits and computes addresses. The slots themselves lie
//! in the caller's memory, from `heap_begin` on.

use vstd::arithmetic::div_mod::{lemma_fundamental_div_mod, lemma_mod_multiples_basic};
use vstd::prelude::*;

verus! {

/// The number of bytes in the bitmap.
pub const BITSET_LENGTH: usize = 32;

/// The number of slots: one per bit of the bitmap.
pub const FRIDGE_LENGTH: usize = BITSET_LENGTH * 8;

/// Bit `i` of `byte` is set.
pub open spec fn bit(byte: u8, i: u8) -> bool {
    (byte >> i) & 1u8 == 1u8
}

/// Slot `slot` is marked in the bitmap: bit `slot % 8` of byte `slot / 8`.
pub open spec fn marked(bits: Seq<u8>, slot: int) -> bool {
    0 <= slot < bits.len() * 8 && bit(bits[slot / 8], (slot % 8) as u8)
}

/// The number of set bits among the first `n` bits of the bitmap.
pub open spec fn set_bits(bits: Seq<u8>, n: int) -> nat
    decreases n,
{
    if n <= 0 {
        0
    } else if marked(bits, n - 1) {
        set_bits(bits, n - 1) + 1
    } else {
        set_bits(bits, n - 1)
    }
}

/// The lowest slot below `n` that is not marked; `n` if all are.
pub open spec fn first_free(bits: Seq<u8>, n: int) -> int
    decreases n,
{
    if n <= 0 {
        0
    } else if first_free(bits, n - 1) < n - 1 {
        first_free(bits, n - 1)
    } else if marked(bits, n - 1) {
        n
    } else {
        n - 1
    }
}

/// `first_free` names the lowest unmarked slot below `n`, and no other.
pub proof fn lemma_first_free(bits: Seq<u8>, n: int)
    requires
        0 <= n <= bits.len() * 8,
    ensures
        0 <= first_free(bits, n) <= n,
        forall|s: int| 0 <= s < first_free(bits, n) ==> marked(bits, s),
        first_free(bits, n) < n ==> !marked(bits, first_free(bits, n)),
    decreases n,
{
    if n > 0 {
        lemma_first_free(bits, n - 1);
    }
}

/// The marked slots below `n`.
pub open spec fn marked_below(bits: Seq<u8>, n: int) -> Set<int> {
    Set::new(|s: int| 0 <= s < n && marked(bits, s))
}

/// The marked slots below `n` are as many as the set bits below `n`.
pub proof fn lemma_set_bits(bits: Seq<u8>, n: int)
    requires
        0 <= n,
    ensures
        marked_below(bits, n).finite(),
        marked_below(bits, n).len() == set_bits(bits, n),
    decreases n,
{
    if n == 0 {
        assert(marked_below(bits, 0) =~= Set::<int>::empty());
    } else {
        lemma_set_bits(bits, n - 1);
        if marked(bits, n - 1) {
            assert(marked_below(bits, n) =~= marked_below(bits, n - 1).insert(n - 1));
        } else {
            assert(marked_below(bits, n) =~= marked_below(bits, n - 1));
        }
    }
}

/// Two bitmaps that agree below `n` have the same lowest unmarked slot below
/// `n`.
proof fn lemma_first_free_agree(a: Seq<u8>, b: Seq<u8>, n: int)
    requires
        forall|s: int| 0 <= s < n ==> marked(a, s) == marked(b, s),
    ensures
        first_free(a, n) == first_free(b, n),
    decreases n,
{
    if n > 0 {
        lemma_first_free_agree(a, b, n - 1);
    }
}

/// A multiple of `d` plus any number of multiples of `d` is a multiple of `d`.
proof fn lemma_sum_of_multiples(d: int, x: int, y: int, k: int)
    requires
        0 < d,
        x % d == 0,
        y % d == 0,
    ensures
        (x + k * y) % d == 0,
{
    let qx = x / d;
    let qy = y / d;
    lemma_fundamental_div_mod(x, d);
    lemma_fundamental_div_mod(y, d);
    assert(x + k * y == (qx + k * qy) * d) by (nonlinear_arith)
        requires
            x == d * qx,
            y == d * qy,
    ;
    lemma_mod_multiples_basic(qx + k * qy, d);
}

/// The pool.
pub struct Fridge {
    /// One bit per slot; a set bit says that the slot is handed out.
    pub bitset: [u8; BITSET_LENGTH],
    /// The address of slot 0.
    pub heap_begin: usize,
    /// The size of a slot in bytes.
    pub block_size: usize,
}

impl Fridge {
    /// The slots that are handed out.
    pub open spec fn view(self) -> Set<int> {
        marked_below(self.bitset@, FRIDGE_LENGTH as int)
    }

    /// The slots lie inside the address space.
    pub open spec fn wf(self) -> bool {
        self.heap_begin + FRIDGE_LENGTH * self.block_size <= usize::MAX
    }

    /// The address of slot `slot`.
    pub open spec fn slot_address(self, slot: int) -> int {
        self.heap_begin + slot * self.block_size
    }

    /// `ptr` lies in the slot array.
    pub open spec fn holds(self, ptr: int) -> bool {
        self.heap_begin <= ptr < self.heap_begin + FRIDGE_LENGTH * self.block_size
    }

    /// The slot that `ptr` lies in.
    pub open spec fn slot_of(self, ptr: int) -> int {
        (ptr - self.heap_begin) / (self.block_size as int)
    }

    /// The number of set bits in the bitmap.
    pub open spec fn count(self) -> nat {
        set_bits(self.bitset@, FRIDGE_LENGTH as int)
    }

    /// The lowest slot that is not handed out; `FRIDGE_LENGTH` if all are.
    pub open spec fn lowest_free(self) -> int {
        first_free(self.bitset@, FRIDGE_LENGTH as int)
    }

    /// `post` is `pre` with `slot` handed out in addition.
    pub open spec fn takes(pre: Fridge, post: Fridge, slot: int) -> bool {
        &&& post.heap_begin == pre.heap_begin
        &&& post.block_size == pre.block_size
        &&& !pre@.contains(slot)
        &&& post@ == pre@.insert(slot)
    }

    /// `post` and `r` are what a request of `size` bytes at alignment `align`
    /// makes of `pre`: a request that a slot cannot hold, or one to a pool
    /// without a free slot, fails and changes nothing; any other is served
    /// by the lowest free slot.
    pub open spec fn allocated(pre: Fridge, post: Fridge, size: int, align: int, r: Option<usize>) -> bool {
        if size > pre.block_size || align > pre.block_size || pre.lowest_free() >= FRIDGE_LENGTH {
            r is None && post == pre
        } else {
            r == Some(pre.slot_address(pre.lowest_free()) as usize) && Fridge::takes(
                pre,
                post,
                pre.lowest_free(),
            )
        }
    }

    /// `post` is what freeing `ptr` makes of `pre`: an address outside the
    /// slot array changes nothing; one inside takes its slot back.
    pub open spec fn freed(pre: Fridge, post: Fridge, ptr: int) -> bool {
        if pre.holds(ptr) {
            &&& post.heap_begin == pre.heap_begin
            &&& post.block_size == pre.block_size
            &&& post@ == pre@.remove(pre.slot_of(ptr))
        } else {
            post == pre
        }
    }

    /// A pool without a slot handed out, for slots of `block_size` bytes
    /// that lie from `heap_begin` on.
    pub fn new(heap_begin: usize, block_size: usize) -> (fridge: Fridge)
        requires
            heap_begin + FRIDGE_LENGTH * block_size <= usize::MAX,
        ensures
            fridge.wf(),
            fridge.heap_begin == heap_begin,
            fridge.block_size == block_size,
            fridge@ == Set::<int>::empty(),
    {
        let fridge = Fridge { bitset: [0u8; BITSET_LENGTH], heap_begin, block_size };
        proof {
            assert forall|s: int| !marked(fridge.bitset@, s) by {
                if 0 <= s < 256 {
                    let i = (s % 8) as u8;
                    assert(fridge.bitset@[s / 8] == 0u8);
                    assert(!bit(0u8, i)) by (bit_vector);
                }
            }
            assert(fridge@ =~= Set::<int>::empty());
        }
        fridge
    }

    /// Takes every slot back.
    pub fn init(&mut self)
        ensures
            final(self).heap_begin == old(self).heap_begin,
            final(self).block_size == old(self).block_size,
            final(self)@ == Set::<int>::empty(),
    {
        let mut i: usize = 0;
        while i < BITSET_LENGTH
            invariant
                i <= BITSET_LENGTH,
                self.heap_begin == old(self).heap_begin,
                self.block_size == old(self).block_size,
                forall|k: int| 0 <= k < i ==> self.bitset@[k] == 0u8,
            decreases BITSET_LENGTH - i,
        {
            self.bitset[i] = 0;
            i = i + 1;
        }
        proof {
            assert forall|s: int| !marked(self.bitset@, s) by {
                if 0 <= s < 256 {
                    let i = (s % 8) as u8;
                    assert(self.bitset@[s / 8] == 0u8);
                    assert(!bit(0u8, i)) by (bit_vector);
                }
            }
            assert(self@ =~= Set::<int>::empty());
        }
    }

    /// The index of the lowest bit of `byte` that is not set; -1 if all
    /// eight are set.
    pub fn first_trailing_zero(byte: u8) -> (r: i8)
        ensures
            -1 <= r < 8,
            r == -1 <==> byte == 0xff,
            r >= 0 ==> !bit(byte, r as u8),
            forall|j: u8| 0 <= j < 8 && (r < 0 || j < r) ==> bit(byte, j),
    {
        let mut i: u8 = 0;
        while i < 8
            invariant
                i <= 8,
                forall|j: u8| 0 <= j < i ==> bit(byte, j),
            decreases 8 - i,
        {
            if byte & (1u8 << i) == 0 {
                proof {
                    assert(!bit(byte, i) && byte != 0xff) by (bit_vector)
                        requires
                            i < 8,
                            byte & (1u8 << i) == 0,
                    ;
                }
                return i as i8;
            }
            proof {
                assert(bit(byte, i)) by (bit_vector)
                    requires
                        i < 8,
                        byte & (1u8 << i) != 0,
                ;
            }
            i = i + 1;
        }
        proof {
            assert(byte == 0xff) by (bit_vector)
                requires
                    bit(byte, 0),
                    bit(byte, 1),
                    bit(byte, 2),
                    bit(byte, 3),
                    bit(byte, 4),
                    bit(byte, 5),
                    bit(byte, 6),
                    bit(byte, 7),
            ;
        }
        -1
    }

    /// Serves a request of `size` bytes at alignment `align` with the lowest
    /// free slot, and marks that slot. The request fails, and nothing
    /// changes, if `size` or `align` exceeds the slot size or if no slot is
    /// free.
    pub fn allocate(&mut self, size: usize, align: usize) -> (r: Option<usize>)
        requires
            old(self).wf(),
            align > 0,
        ensures
            final(self).wf(),
            Fridge::allocated(*old(self), *final(self), size as int, align as int, r),
            r is Some ==> final(self).count() == old(self).count() + 1,
            r matches Some(p) ==> old(self).heap_begin % align == 0 && old(self).block_size % align
                == 0 ==> p % align == 0,
    {
        if size > self.block_size || align > self.block_size {
            return None;
        }
        let ghost pre = *self;
        let mut byte_idx: usize = 0;
        while byte_idx < BITSET_LENGTH
            invariant
                byte_idx <= BITSET_LENGTH,
                *self == pre,
                pre == *old(self),
                pre.wf(),
                0 < align <= pre.block_size,
                size <= pre.block_size,
                forall|s: int| 0 <= s < byte_idx * 8 ==> marked(pre.bitset@, s),
            decreases BITSET_LENGTH - byte_idx,
        {
            let byte = self.bitset[byte_idx];
            let idx = Fridge::first_trailing_zero(byte);
            if idx >= 0 {
                let at: u8 = idx as u8;
                let slot: usize = byte_idx * 8 + at as usize;
                self.bitset[byte_idx] = byte | (1u8 << at);
                proof {
                    let marks = byte | (1u8 << at);
                    assert(forall|j: u8| 0 <= j < 8 ==> bit(marks, j) == (j == at || bit(byte, j)))
                        by (bit_vector)
                        requires
                            marks == byte | (1u8 << at),
                            at < 8,
                    ;
                    assert forall|s: int| marked(self.bitset@, s) == (s == slot || marked(
                        pre.bitset@,
                        s,
                    )) by {
                        if 0 <= s < 256 {
                            let j = (s % 8) as u8;
                            if s / 8 == byte_idx {
                                assert(bit(marks, j) == (j == at || bit(byte, j)));
                            } else {
                                assert(self.bitset@[s / 8] == pre.bitset@[s / 8]);
                            }
                        }
                    }
                    assert forall|s: int| 0 <= s < slot implies marked(pre.bitset@, s) by {
                        if s >= byte_idx * 8 {
                            let j = (s % 8) as u8;
                            assert(bit(byte, j));
                        }
                    }
                    assert(!marked(pre.bitset@, slot as int));
                    lemma_first_free(pre.bitset@, FRIDGE_LENGTH as int);
                    assert(pre.lowest_free() == slot);
                    assert(self@ =~= pre@.insert(slot as int));
                    lemma_set_bits(pre.bitset@, FRIDGE_LENGTH as int);
                    lemma_set_bits(self.bitset@, FRIDGE_LENGTH as int);
                    assert(FRIDGE_LENGTH == 256);
                    assert(0 <= slot * pre.block_size <= 256 * pre.block_size) by (nonlinear_arith)
                        requires
                            0 <= slot <= 255,
                            0 <= pre.block_size,
                    ;
                    if pre.heap_begin % align == 0 && pre.block_size % align == 0 {
                        lemma_sum_of_multiples(
                            align as int,
                            pre.heap_begin as int,
                            pre.block_size as int,
                            slot as int,
                        );
                    }
                }
                return Some(self.heap_begin + slot * self.block_size);
            }
            proof {
                assert forall|s: int| 0 <= s < (byte_idx + 1) * 8 implies marked(pre.bitset@, s) by {
                    if s >= byte_idx * 8 {
                        let j = (s % 8) as u8;
                        assert(bit(byte, j));
                    }
                }
            }
            byte_idx = byte_idx + 1;
        }
        proof {
            lemma_first_free(pre.bitset@, FRIDGE_LENGTH as int);
        }
        None
    }

    /// Takes back the slot that `ptr` lies in. An address outside the slot
    /// array is ignored.
    pub fn dealloc(&mut self, ptr: usize)
        requires
            old(self).wf(),
        ensures
            final(self).wf(),
            Fridge::freed(*old(self), *final(self), ptr as int),
            final(self).count() == if old(self).holds(ptr as int) && old(self)@.contains(
                old(self).slot_of(ptr as int),
            ) {
                old(self).count() - 1
            } else {
                old(self).count() as int
            },
    {
        let heap_end = self.heap_begin + FRIDGE_LENGTH * self.block_size;
        if ptr < self.heap_begin || ptr >= heap_end {
            return ;
        }
        let ghost pre = *self;
        let idx = (ptr - self.heap_begin) / self.block_size;
        proof {
            assert(idx < 256) by (nonlinear_arith)
                requires
                    idx == (ptr - pre.heap_begin) / (pre.block_size as int),
                    0 <= ptr - pre.heap_begin < 256 * pre.block_size,
            ;
        }
        let byte_idx = idx / 8;
        let at: u8 = (idx % 8) as u8;
        let byte = self.bitset[byte_idx];
        self.bitset[byte_idx] = byte & !(1u8 << at);
        proof {
            let marks = byte & !(1u8 << at);
            assert(forall|j: u8| 0 <= j < 8 ==> bit(marks, j) == (j != at && bit(byte, j)))
                by (bit_vector)
                requires
                    marks == byte & !(1u8 << at),
                    at < 8,
            ;
            assert forall|s: int| marked(self.bitset@, s) == (s != idx && marked(pre.bitset@, s)) by {
                if 0 <= s < 256 {
                    let j = (s % 8) as u8;
                    if s / 8 == byte_idx {
                        assert(bit(marks, j) == (j != at && bit(byte, j)));
                    } else {
                        assert(self.bitset@[s / 8] == pre.bitset@[s / 8]);
                    }
                }
            }
            assert(self@ =~= pre@.remove(idx as int));
            lemma_set_bits(pre.bitset@, FRIDGE_LENGTH as int);
            lemma_set_bits(self.bitset@, FRIDGE_LENGTH as int);
        }
    }

    /// Bit count: the number of set bits in the bitmap is the number of
    /// slots that are handed out.
    pub proof fn lemma_bit_count(self)
        ensures
            self@.finite(),
            self.count() == self@.len(),
    {
        lemma_set_bits(self.bitset@, FRIDGE_LENGTH as int);
    }

    /// Round trip: freeing the address that an allocation returned takes the
    /// pool back to where it was. The same slots are handed out as before
    /// the allocation, as many bits are set, and the slot that was freed is
    /// the one that the next allocation is served by.
    pub proof fn lemma_round_trip(
        pre: Fridge,
        mid: Fridge,
        post: Fridge,
        size: int,
        align: int,
        ptr: usize,
    )
        requires
            pre.wf(),
            0 < align,
            Fridge::allocated(pre, mid, size, align, Some(ptr)),
            Fridge::freed(mid, post, ptr as int),
        ensures
            post@ == pre@,
            post.count() == pre.count(),
            post.lowest_free() == pre.lowest_free(),
            ptr == post.slot_address(post.lowest_free()),
    {
        let slot = pre.lowest_free();
        let width = pre.block_size as int;
        lemma_first_free(pre.bitset@, FRIDGE_LENGTH as int);
        assert(0 <= slot * width < 256 * width && (slot * width) / width == slot)
            by (nonlinear_arith)
            requires
                0 <= slot < 256,
                0 < width,
        ;
        assert(mid.holds(ptr as int));
        assert(mid.slot_of(ptr as int) == slot);
        assert(post@ =~= pre@);
        pre.lemma_bit_count();
        post.lemma_bit_count();
        assert forall|s: int| marked(post.bitset@, s) == marked(pre.bitset@, s) by {
            if 0 <= s < 256 {
                assert(post@.contains(s) == pre@.contains(s));
            }
        }
        lemma_first_free_agree(pre.bitset@, post.bitset@, FRIDGE_LENGTH as int);
    }
}

} // verus!
