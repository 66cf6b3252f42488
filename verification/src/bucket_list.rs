//! The concurrent arena: a singly linked chain of chunks that is searched
//! from the head, first fit, and grows at its tail.
//!
//! The arena is kept here as plain data behind `&mut`, so every operation is
//! one atomic step of the chain's history. A caller first asks without a
//! block; when that fails it fetches a block of `chunk_size` bytes and asks
//! again with it. Where another caller's step came in between and made room,
//! the block comes back as the placement's `spare`.

use crate::chain::{
    admits, chain_wf, claims, first_fit, lemma_advance_claims, lemma_first_fit, lemma_place,
    lemma_place_head, lemma_place_rest, lemma_rest_admits, lemma_rest_wf, lemma_rewound, place,
    regions, rewound, spans,
};
use crate::chunk::{
    as_addr, attempt, blocks_disjoint, bump_size_align, lemma_align_up, Attempt, Block, Chunk,
    Placement, Region,
};
use vstd::layout::{align_of, layout_for_type_is_valid, size_of};
use vstd::prelude::*;
use vstd::string::StringSliceAdditionalSpecFns;

verus! {

/// The capacity of a chunk that was not made for one oversized request.
pub const BUCKET_SIZE: usize = 128;

/// The length of the chunk that is appended for a request of `size` bytes:
/// the standard length, or the request's own if that is larger.
pub open spec fn chunk_len(size: int) -> int {
    if size > BUCKET_SIZE {
        size
    } else {
        BUCKET_SIZE as int
    }
}

/// The block that a caller offers for a new chunk, if it offers one.
pub open spec fn backing(fresh: Option<usize>, size: int) -> Option<Region> {
    match fresh {
        Some(f) => Some(Region { begin: f as int, len: chunk_len(size) }),
        None => None,
    }
}

/// A block that is offered for a request can back the chunk that the
/// request would be appended with: it starts at a multiple of the alignment,
/// has `chunk_len(size)` addressable bytes and shares none with the chain.
pub open spec fn offered(chain: Seq<Chunk>, size: int, align: int, fresh: Option<usize>) -> bool {
    fresh matches Some(f) ==> (f as int) % align == 0 && admits(
        chain,
        Region { begin: f as int, len: chunk_len(size) },
    )
}

/// The chain `post` and the placement `r` are what a request of `size` bytes
/// at alignment `align` makes of the chain `pre`, first fit, with the block
/// at `fresh` on offer.
pub open spec fn allocated(
    pre: Seq<Chunk>,
    post: Seq<Chunk>,
    r: Placement,
    size: int,
    align: int,
    fresh: Option<usize>,
) -> bool {
    &&& post == place(pre, size, align, backing(fresh, size)).0
    &&& as_addr(r.ptr) == place(pre, size, align, backing(fresh, size)).1
    &&& r.spare == if first_fit(pre, size, align) < pre.len() {
        fresh
    } else {
        None
    }
}

/// The number of bytes to fetch for the chunk that a request of `size` bytes
/// is appended with.
pub fn chunk_size(size: usize) -> (len: usize)
    ensures
        len == chunk_len(size as int),
{
    if size > BUCKET_SIZE {
        size
    } else {
        BUCKET_SIZE
    }
}

/// One chunk of the chain and the link to the next.
pub struct BucketListInner {
    /// The chunk behind this one; `None` at the tail.
    pub next: Option<Box<BucketListInner>>,
    /// The bump cursor: the first address not yet handed out.
    pub end: usize,
    /// The chunk's first address.
    pub array_begin: usize,
    /// The chunk's capacity in bytes.
    pub len: usize,
}

/// The concurrent arena. `data` is the head of its chain.
pub struct BucketList {
    pub data: BucketListInner,
}

impl BucketListInner {
    /// This chunk alone.
    pub open spec fn chunk(self) -> Chunk {
        Chunk { begin: self.array_begin as int, cursor: self.end as int, capacity: self.len as int }
    }

    /// The chain from this chunk on, in link order.
    pub open spec fn chain(self) -> Seq<Chunk>
        decreases self,
    {
        match self.next {
            None => seq![self.chunk()],
            Some(n) => seq![self.chunk()] + n.chain(),
        }
    }

    /// The chain from this chunk on is well-formed.
    pub open spec fn wf(self) -> bool {
        chain_wf(self.chain())
    }

    /// Serves a request of `size` bytes at alignment `align` from the chain
    /// that starts at this chunk.
    ///
    /// The first chunk with room serves it, and a block that was offered
    /// comes back as `spare`. If none has room and `fresh` is the address of
    /// a block of `chunk_len(size)` bytes, a chunk on that block is linked
    /// behind the tail and serves the request from its first byte. If none
    /// has room and no block is offered, the request fails and the chain is
    /// unchanged.
    pub fn allocate(&mut self, size: usize, align: usize, fresh: Option<usize>) -> (r: Placement)
        requires
            old(self).wf(),
            align > 0,
            offered(old(self).chain(), size as int, align as int, fresh),
        ensures
            final(self).wf(),
            allocated(old(self).chain(), final(self).chain(), r, size as int, align as int, fresh),
            r.ptr is None <==> fresh is None && first_fit(
                old(self).chain(),
                size as int,
                align as int,
            ) == old(self).chain().len(),
            final(self).chain().len() >= old(self).chain().len(),
            r.ptr matches Some(p) ==> p % align == 0 && claims(
                old(self).chain(),
                final(self).chain(),
                Region { begin: p as int, len: size as int },
            ),
        decreases old(self).chain().len(),
    {
        let ghost pre = self.chain();
        let ghost head = self.chunk();
        let ghost block = backing(fresh, size as int);
        proof {
            lemma_place(pre, size as int, align as int, block);
            lemma_first_fit(pre, size as int, align as int);
            assert(pre[0] == head);
            assert(head.wf());
            assert(pre =~= seq![head] + pre.drop_first());
        }
        let r = match bump_size_align(self.end, self.array_begin + self.len, size, align) {
            Ok(bump) => {
                proof {
                    lemma_place_head(head, pre.drop_first(), size as int, align as int, block);
                }
                self.end = bump.next_bump;
                Placement { ptr: Some(bump.ptr), spare: fresh }
            },
            Err(_) => {
                proof {
                    lemma_place_rest(head, pre.drop_first(), size as int, align as int, block);
                    lemma_first_fit(pre.drop_first(), size as int, align as int);
                }
                match &mut self.next {
                    Some(next) => {
                        proof {
                            assert(pre.drop_first() =~= next.chain());
                            lemma_rest_wf(pre);
                            if let Some(b) = block {
                                lemma_rest_admits(pre, b);
                            }
                        }
                        next.allocate(size, align, fresh)
                    },
                    None => {
                        match fresh {
                            Some(begin) => {
                                self.next = Some(
                                    Box::new(
                                        BucketListInner {
                                            next: None,
                                            end: begin + size,
                                            array_begin: begin,
                                            len: chunk_size(size),
                                        },
                                    ),
                                );
                                proof {
                                    let tail = Chunk::on(block->0, size as int);
                                    assert(self.next->0.chain() =~= seq![tail]);
                                    assert(self.chain() =~= seq![head].push(tail));
                                }
                                Placement { ptr: Some(begin), spare: None }
                            },
                            None => Placement { ptr: None, spare: None },
                        }
                    },
                }
            },
        };
        proof {
            assert(self.chain() =~= place(pre, size as int, align as int, block).0);
        }
        r
    }

    /// One attempt on this chunk alone by a caller that read the cursor as
    /// `seen`, as one of several callers makes it: the request is placed
    /// from `seen`, and the cursor moves only if it still is `seen`. See
    /// `attempt`.
    pub fn try_bump(&mut self, seen: usize, size: usize, align: usize) -> (r: Attempt)
        requires
            old(self).wf(),
            align > 0,
        ensures
            final(self).wf(),
            r == attempt(old(self).chunk(), seen as int, size as int, align as int),
            final(self).chain() == if r is Placed {
                old(self).chain().update(0, old(self).chunk().bump(size as int, align as int))
            } else {
                old(self).chain()
            },
            r matches Attempt::Placed(p) ==> p % align == 0 && claims(
                old(self).chain(),
                final(self).chain(),
                Region { begin: p as int, len: size as int },
            ),
    {
        let ghost pre = self.chain();
        proof {
            assert(pre[0] == self.chunk());
            assert(pre[0].wf());
            lemma_align_up(seen as int, align as int);
        }
        match bump_size_align(seen, self.array_begin + self.len, size, align) {
            Ok(bump) => {
                if self.end == seen {
                    self.end = bump.next_bump;
                    proof {
                        lemma_advance_claims(
                            pre,
                            0,
                            bump.next_bump as int,
                            Region { begin: bump.ptr as int, len: size as int },
                        );
                        assert(self.chain() =~= pre.update(
                            0,
                            pre[0].bump(size as int, align as int),
                        ));
                    }
                    Attempt::Placed(bump.ptr)
                } else {
                    Attempt::Raced(self.end)
                }
            },
            Err(_) => Attempt::Full,
        }
    }

    /// Whether the block of `len` bytes at `begin` can back a new chunk of
    /// the chain: whether it is addressable and shares no byte with any
    /// chunk.
    pub fn admits(&self, begin: usize, len: usize) -> (r: bool)
        requires
            self.wf(),
        ensures
            r == admits(self.chain(), Region { begin: begin as int, len: len as int }),
        decreases self.chain().len(),
    {
        let ghost chain = self.chain();
        let ghost block = Region { begin: begin as int, len: len as int };
        proof {
            assert(chain[0] == self.chunk());
            assert(chain[0].wf());
        }
        if begin > usize::MAX - len {
            return false;
        }
        let here = blocks_disjoint(
            Block { begin: self.array_begin, len: self.len },
            Block { begin, len },
        );
        match &self.next {
            Some(next) => {
                proof {
                    assert(chain.drop_first() =~= next.chain());
                    lemma_rest_wf(chain);
                }
                let there = next.admits(begin, len);
                proof {
                    if here && there {
                        assert forall|i: int| 0 <= i < chain.len() implies (#[trigger] chain[i]).span().disjoint(
                        block) by {
                            if i > 0 {
                                assert(chain[i] == next.chain()[i - 1]);
                            }
                        }
                    } else if here {
                        let rest = next.chain();
                        let i = choose|i: int|
                            0 <= i < rest.len() && !(#[trigger] rest[i]).span().disjoint(block);
                        assert(chain[i + 1] == rest[i]);
                    }
                }
                here && there
            },
            None => here,
        }
    }

    /// Moves every cursor of the chain back to the start of its chunk.
    pub fn rewind(&mut self)
        requires
            old(self).wf(),
        ensures
            final(self).wf(),
            final(self).chain() == rewound(old(self).chain()),
        decreases old(self).chain().len(),
    {
        let ghost pre = self.chain();
        proof {
            lemma_rewound(pre);
            assert(pre =~= seq![self.chunk()] + pre.drop_first());
        }
        self.end = self.array_begin;
        match &mut self.next {
            Some(next) => {
                proof {
                    assert(pre.drop_first() =~= next.chain());
                    lemma_rest_wf(pre);
                }
                next.rewind();
            },
            None => {},
        }
        proof {
            assert(self.chain() =~= rewound(pre));
        }
    }

    /// Takes the chain apart and appends the backing block of each chunk, in
    /// chain order, to `blocks`.
    pub fn release(self, blocks: &mut Vec<Block>)
        ensures
            regions(final(blocks)@) == regions(old(blocks)@) + spans(self.chain()),
        decreases self.chain().len(),
    {
        let ghost chain = self.chain();
        let ghost before = blocks@;
        blocks.push(Block { begin: self.array_begin, len: self.len });
        match self.next {
            Some(next) => {
                let rest: BucketListInner = *next;
                rest.release(blocks);
                proof {
                    assert(chain =~= seq![self.chunk()] + rest.chain());
                    assert(regions(blocks@) =~= regions(before) + spans(chain));
                }
            },
            None => {
                proof {
                    assert(regions(blocks@) =~= regions(before) + spans(chain));
                }
            },
        }
    }
}

impl BucketList {
    /// The arena's chain, head first.
    pub open spec fn view(self) -> Seq<Chunk> {
        self.data.chain()
    }

    /// The chain is well-formed.
    pub open spec fn wf(self) -> bool {
        self.data.wf()
    }

    /// An arena of one empty chunk on the block of `BUCKET_SIZE` bytes at
    /// `begin`.
    pub fn new(begin: usize) -> (buckets: BucketList)
        requires
            begin + BUCKET_SIZE <= usize::MAX,
        ensures
            buckets.wf(),
            buckets@ == seq![
                Chunk { begin: begin as int, cursor: begin as int, capacity: BUCKET_SIZE as int },
            ],
    {
        BucketList {
            data: BucketListInner { next: None, end: begin, array_begin: begin, len: BUCKET_SIZE },
        }
    }

    /// Finds the place for one value of type `T`: a request of the type's
    /// size at the type's alignment.
    pub fn add<T>(&mut self, fresh: Option<usize>) -> (r: Placement)
        requires
            old(self).wf(),
            offered(old(self)@, size_of::<T>() as int, align_of::<T>() as int, fresh),
        ensures
            final(self).wf(),
            final(self)@.len() >= old(self)@.len(),
            allocated(
                old(self)@,
                final(self)@,
                r,
                size_of::<T>() as int,
                align_of::<T>() as int,
                fresh,
            ),
            r.ptr matches Some(p) ==> p as int % align_of::<T>() as int == 0 && claims(
                old(self)@,
                final(self)@,
                Region { begin: p as int, len: size_of::<T>() as int },
            ),
    {
        layout_for_type_is_valid::<T>();
        self.data.allocate(core::mem::size_of::<T>(), core::mem::align_of::<T>(), fresh)
    }

    /// Finds the place for `count` values of type `T` in a row. A row whose
    /// size in bytes no `usize` holds is not served: no chunk has room for
    /// it and no block can be offered for it.
    fn add_row<T>(&mut self, count: usize, fresh: Option<usize>) -> (r: Placement)
        requires
            old(self).wf(),
            offered(old(self)@, size_of::<T>() * count, align_of::<T>() as int, fresh),
        ensures
            final(self).wf(),
            final(self)@.len() >= old(self)@.len(),
            allocated(
                old(self)@,
                final(self)@,
                r,
                size_of::<T>() * count,
                align_of::<T>() as int,
                fresh,
            ),
            r.ptr matches Some(p) ==> p as int % align_of::<T>() as int == 0 && claims(
                old(self)@,
                final(self)@,
                Region { begin: p as int, len: size_of::<T>() * count },
            ),
    {
        layout_for_type_is_valid::<T>();
        match core::mem::size_of::<T>().checked_mul(count) {
            Some(size) => self.data.allocate(size, core::mem::align_of::<T>(), fresh),
            None => {
                proof {
                    let size = size_of::<T>() * count;
                    let align = align_of::<T>() as int;
                    lemma_first_fit(self@, size, align);
                    if first_fit(self@, size, align) < self@.len() {
                        let c = self@[first_fit(self@, size, align)];
                        assert(c.wf());
                        lemma_align_up(c.cursor, align);
                    }
                }
                Placement { ptr: None, spare: None }
            },
        }
    }

    /// Finds the place for the items of `vec`, in a row.
    pub fn add_array<T>(&mut self, vec: &Vec<T>, fresh: Option<usize>) -> (r: Placement)
        requires
            old(self).wf(),
            offered(old(self)@, size_of::<T>() * vec.len(), align_of::<T>() as int, fresh),
        ensures
            final(self).wf(),
            final(self)@.len() >= old(self)@.len(),
            allocated(
                old(self)@,
                final(self)@,
                r,
                size_of::<T>() * vec.len(),
                align_of::<T>() as int,
                fresh,
            ),
            r.ptr matches Some(p) ==> p as int % align_of::<T>() as int == 0 && claims(
                old(self)@,
                final(self)@,
                Region { begin: p as int, len: size_of::<T>() * vec.len() },
            ),
    {
        self.add_row::<T>(vec.len(), fresh)
    }

    /// Finds the place for the items of `slice`, in a row.
    pub fn add_slice<T>(&mut self, slice: &[T], fresh: Option<usize>) -> (r: Placement)
        requires
            old(self).wf(),
            offered(old(self)@, size_of::<T>() * slice.len(), align_of::<T>() as int, fresh),
        ensures
            final(self).wf(),
            final(self)@.len() >= old(self)@.len(),
            allocated(
                old(self)@,
                final(self)@,
                r,
                size_of::<T>() * slice.len(),
                align_of::<T>() as int,
                fresh,
            ),
            r.ptr matches Some(p) ==> p as int % align_of::<T>() as int == 0 && claims(
                old(self)@,
                final(self)@,
                Region { begin: p as int, len: size_of::<T>() * slice.len() },
            ),
    {
        self.add_row::<T>(slice.len(), fresh)
    }

    /// Finds the place for the bytes of `values`: a request of as many bytes
    /// at alignment 1.
    pub fn add_str(&mut self, values: &str, fresh: Option<usize>) -> (r: Placement)
        requires
            old(self).wf(),
            offered(old(self)@, values.spec_bytes().len() as int, 1, fresh),
        ensures
            final(self).wf(),
            final(self)@.len() >= old(self)@.len(),
            allocated(old(self)@, final(self)@, r, values.spec_bytes().len() as int, 1, fresh),
            r.ptr matches Some(p) ==> claims(
                old(self)@,
                final(self)@,
                Region { begin: p as int, len: values.spec_bytes().len() as int },
            ),
    {
        self.data.allocate(values.as_bytes().len(), 1, fresh)
    }

    /// Empties the arena in place: every chunk stays, with its cursor back at
    /// its start.
    pub fn clear(buckets: &mut BucketList)
        requires
            old(buckets).wf(),
        ensures
            final(buckets).wf(),
            final(buckets)@ == rewound(old(buckets)@),
            final(buckets)@.len() == old(buckets)@.len(),
    {
        buckets.data.rewind();
    }

    /// Takes the arena apart. The result names the backing block of every
    /// chunk, in chain order: they are the caller's to release.
    pub fn dealloc(buckets: BucketList) -> (blocks: Vec<Block>)
        ensures
            regions(blocks@) == spans(buckets@),
    {
        let mut blocks: Vec<Block> = Vec::new();
        buckets.data.release(&mut blocks);
        proof {
            assert(regions(Seq::<Block>::empty()) + spans(buckets@) =~= spans(buckets@));
        }
        blocks
    }
}

} // verus!
