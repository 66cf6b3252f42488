//! The coalescing arena: the chain of the concurrent arena with chunks that
//! grow by half from one to the next, and an operation that replaces the
//! whole chain by one chunk of the chain's total capacity.
//!
//! As in the concurrent arena, the chain is plain data behind `&mut` and
//! every operation is one atomic step of its history.

use crate::chain::{
    admits, chain_wf, claims, first_fit, lemma_advance_claims, lemma_first_fit, lemma_place,
    lemma_place_head, lemma_place_rest, lemma_rest_admits, lemma_rest_wf, lemma_rewound,
    lemma_total_fits, place, regions, rewound, spans, total_capacity,
};
use crate::chunk::{
    as_addr, attempt, blocks_disjoint, bump_size_align, lemma_align_up, Attempt, Block, Chunk,
    Placement, Region,
};
use vstd::layout::{align_of, layout_for_type_is_valid, size_of};
use vstd::prelude::*;
use vstd::string::StringSliceAdditionalSpecFns;

verus! {

/// The capacity of the first chunk of an arena made by `new`: with the three
/// words of a chunk's descriptor it comes to two kilobytes.
pub const INITIAL_BUCKET_SIZE: usize = 2024;

/// The length a chunk grows to: one and a half times `len`.
pub open spec fn grown(len: int) -> int {
    len + len / 2
}

/// Grows `len` by half of itself.
#[inline]
pub fn grow_array(len: usize) -> (r: usize)
    requires
        grown(len as int) <= usize::MAX,
    ensures
        r == grown(len as int),
{
    len / 2 + len
}

/// The length of the chunk that is appended to `chain` for a request of
/// `size` bytes: one and a half times the capacity of the chain's last chunk,
/// or the request's size if that is larger.
pub open spec fn chunk_len(chain: Seq<Chunk>, size: int) -> int {
    if size > grown(chain.last().capacity) {
        size
    } else {
        grown(chain.last().capacity)
    }
}

/// The block that a caller offers for a new chunk, if it offers one.
pub open spec fn backing(chain: Seq<Chunk>, fresh: Option<usize>, size: int) -> Option<Region> {
    match fresh {
        Some(f) => Some(Region { begin: f as int, len: chunk_len(chain, size) }),
        None => None,
    }
}

/// A block that is offered for a request can back the chunk that the
/// request would be appended with: it starts at a multiple of the alignment,
/// has `chunk_len(chain, size)` addressable bytes and shares none with the
/// chain.
pub open spec fn offered(chain: Seq<Chunk>, size: int, align: int, fresh: Option<usize>) -> bool {
    fresh matches Some(f) ==> (f as int) % align == 0 && admits(
        chain,
        Region { begin: f as int, len: chunk_len(chain, size) },
    )
}

/// The chain `post` and the placement `r` are what a request of `size` bytes
/// at alignment `align` makes of the chain `pre`, first fit, with the block
/// at `fresh` on offer.
pub open spec fn allocated(
    pre: Seq<Chunk>,
    post: Seq<Chunk>,
    r: Placement,
    size: int,
    align: int,
    fresh: Option<usize>,
) -> bool {
    &&& post == place(pre, size, align, backing(pre, fresh, size)).0
    &&& as_addr(r.ptr) == place(pre, size, align, backing(pre, fresh, size)).1
    &&& r.spare == if first_fit(pre, size, align) < pre.len() {
        fresh
    } else {
        None
    }
}

/// One chunk of the chain and the link to the next.
pub struct BucketListInner {
    /// The chunk behind this one; `None` at the tail.
    pub next: Option<Box<BucketListInner>>,
    /// The bump cursor: the first address not yet handed out.
    pub bump: usize,
    /// The chunk's capacity in bytes.
    pub len: usize,
    /// The chunk's first address.
    pub array_begin: usize,
}

/// The coalescing arena. `data` is the head of its chain.
pub struct CoalescingBucketList {
    pub data: BucketListInner,
}

impl BucketListInner {
    /// This chunk alone.
    pub open spec fn chunk(self) -> Chunk {
        Chunk { begin: self.array_begin as int, cursor: self.bump as int, capacity: self.len as int }
    }

    /// The chain from this chunk on, in link order.
    pub open spec fn chain(self) -> Seq<Chunk>
        decreases self,
    {
        match self.next {
            None => seq![self.chunk()],
            Some(n) => seq![self.chunk()] + n.chain(),
        }
    }

    /// The chain from this chunk on is well-formed.
    pub open spec fn wf(self) -> bool {
        chain_wf(self.chain())
    }

    /// A chain has at least its head.
    proof fn lemma_chain_len(self)
        ensures
            self.chain().len() >= 1,
            self.chain()[0] == self.chunk(),
            self.next matches Some(n) ==> self.chain().drop_first() == n.chain(),
            self.next is None ==> self.chain() == seq![self.chunk()],
    {
        if let Some(n) = self.next {
            assert(self.chain().drop_first() =~= n.chain());
        }
    }

    /// The number of bytes to fetch for the chunk that is appended for a
    /// request of `size` bytes which no chunk has room for; `None` if no
    /// `usize` holds that number.
    pub fn chunk_size(&self, size: usize) -> (len: Option<usize>)
        ensures
            as_addr(len) == if chunk_len(self.chain(), size as int) <= usize::MAX {
                Some(chunk_len(self.chain(), size as int))
            } else {
                None
            },
        decreases self.chain().len(),
    {
        proof {
            self.lemma_chain_len();
        }
        match &self.next {
            Some(next) => {
                proof {
                    next.lemma_chain_len();
                    assert(self.chain().last() == next.chain().last());
                }
                next.chunk_size(size)
            },
            None => {
                match self.len.checked_add(self.len / 2) {
                    Some(more) => {
                        if size > more {
                            Some(size)
                        } else {
                            Some(more)
                        }
                    },
                    None => None,
                }
            },
        }
    }

    /// Serves a request of `size` bytes at alignment `align` from the chain
    /// that starts at this chunk.
    ///
    /// The first chunk with room serves it, and a block that was offered
    /// comes back as `spare`. If none has room and `fresh` is the address of
    /// a block of `chunk_len(chain, size)` bytes, a chunk on that block is
    /// linked behind the tail and serves the request from its first byte. If
    /// none has room and no block is offered, the request fails and the
    /// chain is unchanged; where the chunk's length would exceed every
    /// `usize`, no block can be offered.
    pub fn allocate(&mut self, size: usize, align: usize, fresh: Option<usize>) -> (r: Placement)
        requires
            old(self).wf(),
            align > 0,
            offered(old(self).chain(), size as int, align as int, fresh),
        ensures
            final(self).wf(),
            allocated(old(self).chain(), final(self).chain(), r, size as int, align as int, fresh),
            r.ptr is None <==> fresh is None && first_fit(
                old(self).chain(),
                size as int,
                align as int,
            ) == old(self).chain().len(),
            final(self).chain().len() >= old(self).chain().len(),
            r.ptr matches Some(p) ==> p % align == 0 && claims(
                old(self).chain(),
                final(self).chain(),
                Region { begin: p as int, len: size as int },
            ),
        decreases old(self).chain().len(),
    {
        let ghost pre = self.chain();
        let ghost head = self.chunk();
        let ghost block = backing(pre, fresh, size as int);
        proof {
            self.lemma_chain_len();
            lemma_place(pre, size as int, align as int, block);
            lemma_first_fit(pre, size as int, align as int);
            assert(head.wf());
            assert(pre =~= seq![head] + pre.drop_first());
        }
        let r = match bump_size_align(self.bump, self.array_begin + self.len, size, align) {
            Ok(bump) => {
                proof {
                    lemma_place_head(head, pre.drop_first(), size as int, align as int, block);
                }
                self.bump = bump.next_bump;
                Placement { ptr: Some(bump.ptr), spare: fresh }
            },
            Err(_) => {
                proof {
                    lemma_place_rest(head, pre.drop_first(), size as int, align as int, block);
                    lemma_first_fit(pre.drop_first(), size as int, align as int);
                }
                match &mut self.next {
                    Some(next) => {
                        proof {
                            next.lemma_chain_len();
                            assert(pre.last() == next.chain().last());
                            lemma_rest_wf(pre);
                            if let Some(b) = block {
                                lemma_rest_admits(pre, b);
                            }
                        }
                        next.allocate(size, align, fresh)
                    },
                    None => {
                        match fresh {
                            Some(begin) => {
                                let more = grow_array(self.len);
                                let len: usize = if size > more {
                                    size
                                } else {
                                    more
                                };
                                self.next = Some(
                                    Box::new(
                                        BucketListInner {
                                            next: None,
                                            bump: begin + size,
                                            len,
                                            array_begin: begin,
                                        },
                                    ),
                                );
                                proof {
                                    let tail = Chunk::on(block->0, size as int);
                                    assert(self.next->0.chain() =~= seq![tail]);
                                    assert(self.chain() =~= seq![head].push(tail));
                                }
                                Placement { ptr: Some(begin), spare: None }
                            },
                            None => Placement { ptr: None, spare: None },
                        }
                    },
                }
            },
        };
        proof {
            assert(self.chain() =~= place(pre, size as int, align as int, block).0);
        }
        r
    }

    /// One attempt on this chunk alone by a caller that read the cursor as
    /// `seen`, as one of several callers makes it: the request is placed
    /// from `seen`, and the cursor moves only if it still is `seen`. See
    /// `attempt`.
    pub fn try_bump(&mut self, seen: usize, size: usize, align: usize) -> (r: Attempt)
        requires
            old(self).wf(),
            align > 0,
        ensures
            final(self).wf(),
            r == attempt(old(self).chunk(), seen as int, size as int, align as int),
            final(self).chain() == if r is Placed {
                old(self).chain().update(0, old(self).chunk().bump(size as int, align as int))
            } else {
                old(self).chain()
            },
            r matches Attempt::Placed(p) ==> p % align == 0 && claims(
                old(self).chain(),
                final(self).chain(),
                Region { begin: p as int, len: size as int },
            ),
    {
        let ghost pre = self.chain();
        proof {
            assert(pre[0] == self.chunk());
            assert(pre[0].wf());
            lemma_align_up(seen as int, align as int);
        }
        match bump_size_align(seen, self.array_begin + self.len, size, align) {
            Ok(bump) => {
                if self.bump == seen {
                    self.bump = bump.next_bump;
                    proof {
                        lemma_advance_claims(
                            pre,
                            0,
                            bump.next_bump as int,
                            Region { begin: bump.ptr as int, len: size as int },
                        );
                        assert(self.chain() =~= pre.update(
                            0,
                            pre[0].bump(size as int, align as int),
                        ));
                    }
                    Attempt::Placed(bump.ptr)
                } else {
                    Attempt::Raced(self.bump)
                }
            },
            Err(_) => Attempt::Full,
        }
    }

    /// Whether the block of `len` bytes at `begin` can back a new chunk of
    /// the chain: whether it is addressable and shares no byte with any
    /// chunk.
    pub fn admits(&self, begin: usize, len: usize) -> (r: bool)
        requires
            self.wf(),
        ensures
            r == admits(self.chain(), Region { begin: begin as int, len: len as int }),
        decreases self.chain().len(),
    {
        let ghost chain = self.chain();
        let ghost block = Region { begin: begin as int, len: len as int };
        proof {
            assert(chain[0] == self.chunk());
            assert(chain[0].wf());
        }
        if begin > usize::MAX - len {
            return false;
        }
        let here = blocks_disjoint(
            Block { begin: self.array_begin, len: self.len },
            Block { begin, len },
        );
        match &self.next {
            Some(next) => {
                proof {
                    assert(chain.drop_first() =~= next.chain());
                    lemma_rest_wf(chain);
                }
                let there = next.admits(begin, len);
                proof {
                    if here && there {
                        assert forall|i: int| 0 <= i < chain.len() implies (#[trigger] chain[i]).span().disjoint(
                        block) by {
                            if i > 0 {
                                assert(chain[i] == next.chain()[i - 1]);
                            }
                        }
                    } else if here {
                        let rest = next.chain();
                        let i = choose|i: int|
                            0 <= i < rest.len() && !(#[trigger] rest[i]).span().disjoint(block);
                        assert(chain[i + 1] == rest[i]);
                    }
                }
                here && there
            },
            None => here,
        }
    }

    /// Moves every cursor of the chain back to the start of its chunk.
    pub fn rewind(&mut self)
        requires
            old(self).wf(),
        ensures
            final(self).wf(),
            final(self).chain() == rewound(old(self).chain()),
        decreases old(self).chain().len(),
    {
        let ghost pre = self.chain();
        proof {
            self.lemma_chain_len();
            lemma_rewound(pre);
        }
        self.bump = self.array_begin;
        match &mut self.next {
            Some(next) => {
                proof {
                    lemma_rest_wf(pre);
                }
                next.rewind();
            },
            None => {},
        }
        proof {
            assert(self.chain() =~= rewound(pre));
        }
    }

    /// The sum of the capacities of the chain's chunks.
    pub fn capacity(&self) -> (total: usize)
        requires
            self.wf(),
        ensures
            total == total_capacity(self.chain()),
        decreases self.chain().len(),
    {
        proof {
            self.lemma_chain_len();
            lemma_total_fits(self.chain());
            lemma_rest_wf(self.chain());
            lemma_total_fits(self.chain().drop_first());
        }
        match &self.next {
            Some(next) => self.len + next.capacity(),
            None => {
                proof {
                    assert(total_capacity(self.chain().drop_first()) == 0);
                }
                self.len
            },
        }
    }

    /// Takes the chain apart and appends the backing block of each chunk, in
    /// chain order, to `blocks`.
    pub fn release(self, blocks: &mut Vec<Block>)
        ensures
            regions(final(blocks)@) == regions(old(blocks)@) + spans(self.chain()),
        decreases self.chain().len(),
    {
        let ghost chain = self.chain();
        let ghost before = blocks@;
        proof {
            self.lemma_chain_len();
        }
        blocks.push(Block { begin: self.array_begin, len: self.len });
        match self.next {
            Some(next) => {
                let rest: BucketListInner = *next;
                rest.release(blocks);
                proof {
                    assert(chain =~= seq![self.chunk()] + rest.chain());
                    assert(regions(blocks@) =~= regions(before) + spans(chain));
                }
            },
            None => {
                proof {
                    assert(regions(blocks@) =~= regions(before) + spans(chain));
                }
            },
        }
    }
}

impl CoalescingBucketList {
    /// The arena's chain, head first.
    pub open spec fn view(self) -> Seq<Chunk> {
        self.data.chain()
    }

    /// The chain is well-formed.
    pub open spec fn wf(self) -> bool {
        self.data.wf()
    }

    /// An arena of one empty chunk on the block of `INITIAL_BUCKET_SIZE`
    /// bytes at `begin`.
    pub fn new(begin: usize) -> (buckets: CoalescingBucketList)
        requires
            begin + INITIAL_BUCKET_SIZE <= usize::MAX,
        ensures
            buckets.wf(),
            buckets@ == seq![
                Chunk {
                    begin: begin as int,
                    cursor: begin as int,
                    capacity: INITIAL_BUCKET_SIZE as int,
                },
            ],
    {
        Self::with_capacity(INITIAL_BUCKET_SIZE, begin)
    }

    /// An arena of one empty chunk on the block of `capacity` bytes at
    /// `begin`.
    pub fn with_capacity(capacity: usize, begin: usize) -> (buckets: CoalescingBucketList)
        requires
            begin + capacity <= usize::MAX,
        ensures
            buckets.wf(),
            buckets@ == seq![
                Chunk { begin: begin as int, cursor: begin as int, capacity: capacity as int },
            ],
    {
        CoalescingBucketList {
            data: BucketListInner { next: None, bump: begin, len: capacity, array_begin: begin },
        }
    }

    /// Finds the place for one value of type `T`: a request of the type's
    /// size at the type's alignment.
    pub fn add<T>(&mut self, fresh: Option<usize>) -> (r: Placement)
        requires
            old(self).wf(),
            offered(old(self)@, size_of::<T>() as int, align_of::<T>() as int, fresh),
        ensures
            final(self).wf(),
            final(self)@.len() >= old(self)@.len(),
            allocated(
                old(self)@,
                final(self)@,
                r,
                size_of::<T>() as int,
                align_of::<T>() as int,
                fresh,
            ),
            r.ptr matches Some(p) ==> p as int % align_of::<T>() as int == 0 && claims(
                old(self)@,
                final(self)@,
                Region { begin: p as int, len: size_of::<T>() as int },
            ),
    {
        layout_for_type_is_valid::<T>();
        self.data.allocate(core::mem::size_of::<T>(), core::mem::align_of::<T>(), fresh)
    }

    /// Finds the place for `count` values of type `T` in a row. A row whose
    /// size in bytes no `usize` holds is not served: no chunk has room for
    /// it and no block can be offered for it.
    fn add_row<T>(&mut self, count: usize, fresh: Option<usize>) -> (r: Placement)
        requires
            old(self).wf(),
            offered(old(self)@, size_of::<T>() * count, align_of::<T>() as int, fresh),
        ensures
            final(self).wf(),
            final(self)@.len() >= old(self)@.len(),
            allocated(
                old(self)@,
                final(self)@,
                r,
                size_of::<T>() * count,
                align_of::<T>() as int,
                fresh,
            ),
            r.ptr matches Some(p) ==> p as int % align_of::<T>() as int == 0 && claims(
                old(self)@,
                final(self)@,
                Region { begin: p as int, len: size_of::<T>() * count },
            ),
    {
        layout_for_type_is_valid::<T>();
        match core::mem::size_of::<T>().checked_mul(count) {
            Some(size) => self.data.allocate(size, core::mem::align_of::<T>(), fresh),
            None => {
                proof {
                    let size = size_of::<T>() * count;
                    let align = align_of::<T>() as int;
                    lemma_first_fit(self@, size, align);
                    if first_fit(self@, size, align) < self@.len() {
                        let c = self@[first_fit(self@, size, align)];
                        assert(c.wf());
                        lemma_align_up(c.cursor, align);
                    }
                }
                Placement { ptr: None, spare: None }
            },
        }
    }

    /// Finds the place for the items of `vec`, in a row.
    pub fn add_array<T>(&mut self, vec: &Vec<T>, fresh: Option<usize>) -> (r: Placement)
        requires
            old(self).wf(),
            offered(old(self)@, size_of::<T>() * vec.len(), align_of::<T>() as int, fresh),
        ensures
            final(self).wf(),
            final(self)@.len() >= old(self)@.len(),
            allocated(
                old(self)@,
                final(self)@,
                r,
                size_of::<T>() * vec.len(),
                align_of::<T>() as int,
                fresh,
            ),
            r.ptr matches Some(p) ==> p as int % align_of::<T>() as int == 0 && claims(
                old(self)@,
                final(self)@,
                Region { begin: p as int, len: size_of::<T>() * vec.len() },
            ),
    {
        self.add_row::<T>(vec.len(), fresh)
    }

    /// Finds the place for the items of `slice`, in a row.
    pub fn add_slice<T>(&mut self, slice: &[T], fresh: Option<usize>) -> (r: Placement)
        requires
            old(self).wf(),
            offered(old(self)@, size_of::<T>() * slice.len(), align_of::<T>() as int, fresh),
        ensures
            final(self).wf(),
            final(self)@.len() >= old(self)@.len(),
            allocated(
                old(self)@,
                final(self)@,
                r,
                size_of::<T>() * slice.len(),
                align_of::<T>() as int,
                fresh,
            ),
            r.ptr matches Some(p) ==> p as int % align_of::<T>() as int == 0 && claims(
                old(self)@,
                final(self)@,
                Region { begin: p as int, len: size_of::<T>() * slice.len() },
            ),
    {
        self.add_row::<T>(slice.len(), fresh)
    }

    /// Finds the place for the bytes of `values`: a request of as many bytes
    /// at alignment 1.
    pub fn add_str(&mut self, values: &str, fresh: Option<usize>) -> (r: Placement)
        requires
            old(self).wf(),
            offered(old(self)@, values.spec_bytes().len() as int, 1, fresh),
        ensures
            final(self).wf(),
            final(self)@.len() >= old(self)@.len(),
            allocated(old(self)@, final(self)@, r, values.spec_bytes().len() as int, 1, fresh),
            r.ptr matches Some(p) ==> claims(
                old(self)@,
                final(self)@,
                Region { begin: p as int, len: values.spec_bytes().len() as int },
            ),
    {
        self.data.allocate(values.as_bytes().len(), 1, fresh)
    }

    /// Empties the arena in place: every chunk stays, with its cursor back at
    /// its start.
    pub fn clear(buckets: &mut CoalescingBucketList)
        requires
            old(buckets).wf(),
        ensures
            final(buckets).wf(),
            final(buckets)@ == rewound(old(buckets)@),
            final(buckets)@.len() == old(buckets)@.len(),
    {
        buckets.data.rewind();
    }

    /// Takes the arena apart. The result names the backing block of every
    /// chunk, in chain order: they are the caller's to release.
    pub fn dealloc(buckets: CoalescingBucketList) -> (blocks: Vec<Block>)
        ensures
            regions(blocks@) == spans(buckets@),
    {
        let mut blocks: Vec<Block> = Vec::new();
        buckets.data.release(&mut blocks);
        proof {
            assert(regions(Seq::<Block>::empty()) + spans(buckets@) =~= spans(buckets@));
        }
        blocks
    }

    /// Replaces the chain by one empty chunk that holds as many bytes as all
    /// its chunks together, on the block at `fresh`, which the caller has
    /// fetched with `capacity()` bytes. The second result names the backing
    /// block of every chunk of the old chain, in chain order: they are the
    /// caller's to release.
    pub fn coalesce(buckets: CoalescingBucketList, fresh: usize) -> (r: (
        CoalescingBucketList,
        Vec<Block>,
    ))
        requires
            buckets.wf(),
            fresh + total_capacity(buckets@) <= usize::MAX,
        ensures
            r.0.wf(),
            r.0@ == seq![
                Chunk {
                    begin: fresh as int,
                    cursor: fresh as int,
                    capacity: total_capacity(buckets@),
                },
            ],
            regions(r.1@) == spans(buckets@),
    {
        let total = buckets.data.capacity();
        let blocks = CoalescingBucketList::dealloc(buckets);
        (CoalescingBucketList::with_capacity(total, fresh), blocks)
    }
}

} // verus!
