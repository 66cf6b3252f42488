//! The sequential arena: a vector of chunks of which only the last serves
//! requests.
//!
//! Sizes are rounded up to `BUCKET_ALIGN` and every backing block starts at a
//! multiple of it, so every address the arena returns is a multiple of
//! `BUCKET_ALIGN`: that serves any request whose alignment divides it. A
//! request states no alignment of its own.

use crate::chain::{
    admits, chain_wf, claims, lemma_advance_claims, lemma_insert_claims, regions, spans,
};
use crate::chunk::{
    align_up, as_addr, blocks_disjoint, lemma_align_up, Block, Chunk, Placement, Region,
};
use vstd::layout::size_of;
use vstd::prelude::*;
use vstd::string::StringSliceAdditionalSpecFns;

verus! {

/// The capacity of a standard chunk, unless the arena was made with another.
pub const BUCKET_SIZE: usize = 1024 * 1024;

/// What sizes are rounded up to, and what every address returned is a
/// multiple of.
pub const BUCKET_ALIGN: usize = 16;

/// The size that a request of `size` bytes takes up: the next multiple of
/// `BUCKET_ALIGN`.
pub open spec fn rounded(size: int) -> int {
    align_up(size, BUCKET_ALIGN as int)
}

/// The length of the chunk that is made for a request which the last chunk
/// cannot serve: the request's own rounded size if that exceeds the standard
/// capacity, else the standard capacity.
pub open spec fn chunk_len(bucket_size: int, size: int) -> int {
    if rounded(size) > bucket_size {
        rounded(size)
    } else {
        bucket_size
    }
}

/// A block that is offered for a request can back the chunk that would be
/// made for it: it starts at a multiple of `BUCKET_ALIGN`, has
/// `chunk_len(bucket_size, size)` addressable bytes and shares none with the
/// arena's chunks.
pub open spec fn offered(chain: Seq<Chunk>, bucket_size: int, size: int, fresh: Option<usize>) -> bool {
    fresh matches Some(f) ==> (f as int) % (BUCKET_ALIGN as int) == 0 && admits(
        chain,
        Region { begin: f as int, len: chunk_len(bucket_size, size) },
    )
}

/// What a request of `size` bytes makes of the arena's chunks, and the
/// address it is served at.
///
/// An oversized request, one whose rounded size exceeds the standard
/// capacity, gets a chunk of its own, of exactly that size and full from the
/// start, which is put in front of the last chunk. Any other request is
/// served by the last chunk if the rounded size still fits there, and else by
/// a new standard chunk that becomes the last. Where a chunk has to be made
/// and no block is offered, nothing changes and the request fails. That is
/// also what becomes of a request too large for any block: none can be
/// offered for it.
pub open spec fn add_spec(chain: Seq<Chunk>, bucket_size: int, size: int, fresh: Option<usize>) -> (
    Seq<Chunk>,
    Option<int>,
) {
    let need = rounded(size);
    if need > bucket_size {
        match fresh {
            Some(f) => {
                let own = Chunk { begin: f as int, cursor: f + need, capacity: need };
                if chain.len() == 0 {
                    (seq![own], Some(f as int))
                } else {
                    (chain.insert(chain.len() - 1, own), Some(f as int))
                }
            },
            None => (chain, None),
        }
    } else if chain.len() > 0 && chain.last().cursor + need <= chain.last().end() {
        (
            chain.update(chain.len() - 1, Chunk { cursor: chain.last().cursor + need, ..chain.last() }),
            Some(chain.last().cursor),
        )
    } else {
        match fresh {
            Some(f) => (
                chain.push(Chunk { begin: f as int, cursor: f + need, capacity: bucket_size }),
                Some(f as int),
            ),
            None => (chain, None),
        }
    }
}

/// The last chunk serves the request, so a block on offer is not used.
pub open spec fn tail_serves(chain: Seq<Chunk>, bucket_size: int, size: int) -> bool {
    rounded(size) <= bucket_size && chain.len() > 0 && chain.last().cursor + rounded(size)
        <= chain.last().end()
}

/// Every chunk starts, and has its cursor, at a multiple of `BUCKET_ALIGN`.
pub open spec fn aligned(chain: Seq<Chunk>) -> bool {
    forall|i: int|
        0 <= i < chain.len() ==> (#[trigger] chain[i]).begin % (BUCKET_ALIGN as int) == 0
            && chain[i].cursor % (BUCKET_ALIGN as int) == 0
}

/// Rounds `size` up to the next multiple of `BUCKET_ALIGN`.
pub fn round_up(size: usize) -> (r: usize)
    requires
        size <= usize::MAX - 15,
    ensures
        r == rounded(size as int),
        r % BUCKET_ALIGN == 0,
        size <= r < size + BUCKET_ALIGN,
{
    proof {
        lemma_align_up(size as int, BUCKET_ALIGN as int);
    }
    if size != 0 {
        (size - 1) / 16 * 16 + 16
    } else {
        size
    }
}

/// One chunk of the sequential arena.
#[derive(Clone, Copy, Debug, PartialEq, Eq)]
pub struct Bucket {
    /// The chunk's first address.
    pub begin: usize,
    /// The bump cursor: the first address not yet handed out.
    pub end: usize,
    /// The chunk's capacity in bytes.
    pub capacity: usize,
}

impl Bucket {
    /// The chunk as the contracts see it.
    pub open spec fn chunk(self) -> Chunk {
        Chunk { begin: self.begin as int, cursor: self.end as int, capacity: self.capacity as int }
    }
}

/// The sequential arena.
pub struct BucketArray {
    /// The chunks; the last one is the one that serves requests.
    pub buckets: Vec<Bucket>,
    /// The capacity of a standard chunk.
    pub bucket_size: usize,
}

/// The arena `post` and the placement `r` are what a request of `size` bytes
/// makes of the arena `pre` with the block at `fresh` on offer.
pub open spec fn added(
    pre: BucketArray,
    post: BucketArray,
    r: Placement,
    size: int,
    fresh: Option<usize>,
) -> bool {
    &&& post@ == add_spec(pre@, pre.bucket_size as int, size, fresh).0
    &&& as_addr(r.ptr) == add_spec(pre@, pre.bucket_size as int, size, fresh).1
    &&& r.spare == if tail_serves(pre@, pre.bucket_size as int, size) {
        fresh
    } else {
        None
    }
}

impl BucketArray {
    /// The arena's chunks, in the order of the vector.
    pub open spec fn view(self) -> Seq<Chunk> {
        Seq::new(self.buckets@.len(), |i: int| self.buckets@[i].chunk())
    }

    /// The chunks are well-formed, share no byte, and start and have their
    /// cursors at multiples of `BUCKET_ALIGN`.
    pub open spec fn wf(self) -> bool {
        chain_wf(self@) && aligned(self@)
    }

    /// An arena of one empty standard chunk, of `BUCKET_SIZE` bytes, on the
    /// block at `begin`.
    pub fn new(begin: usize) -> (arena: BucketArray)
        requires
            begin % BUCKET_ALIGN == 0,
            begin + BUCKET_SIZE <= usize::MAX,
        ensures
            arena.wf(),
            arena.bucket_size == BUCKET_SIZE,
            arena@ == seq![
                Chunk { begin: begin as int, cursor: begin as int, capacity: BUCKET_SIZE as int },
            ],
    {
        BucketArray::with_capacity(BUCKET_SIZE, begin)
    }

    /// An arena whose standard chunks hold `bucket_size` bytes, with one
    /// empty standard chunk on the block at `begin`.
    pub fn with_capacity(bucket_size: usize, begin: usize) -> (arena: BucketArray)
        requires
            begin % BUCKET_ALIGN == 0,
            begin + bucket_size <= usize::MAX,
        ensures
            arena.wf(),
            arena.bucket_size == bucket_size,
            arena@ == seq![
                Chunk { begin: begin as int, cursor: begin as int, capacity: bucket_size as int },
            ],
    {
        let mut buckets: Vec<Bucket> = Vec::new();
        buckets.push(Bucket { begin, end: begin, capacity: bucket_size });
        let arena = BucketArray { buckets, bucket_size };
        proof {
            assert(arena@ =~= seq![
                Chunk { begin: begin as int, cursor: begin as int, capacity: bucket_size as int },
            ]);
        }
        arena
    }

    /// The number of bytes to fetch for the chunk that is made for a request
    /// of `size` bytes which the last chunk cannot serve; `None` if no
    /// `usize` holds that number.
    pub fn chunk_size(&self, size: usize) -> (len: Option<usize>)
        ensures
            as_addr(len) == if chunk_len(self.bucket_size as int, size as int) <= usize::MAX {
                Some(chunk_len(self.bucket_size as int, size as int))
            } else {
                None
            },
    {
        proof {
            lemma_align_up(size as int, BUCKET_ALIGN as int);
        }
        if size > usize::MAX - 15 {
            return None;
        }
        let need = round_up(size);
        if need > self.bucket_size {
            Some(need)
        } else {
            Some(self.bucket_size)
        }
    }

    /// Serves a request of `size` bytes: see `add_spec`. The region claimed
    /// is the request rounded up, `rounded(size)` bytes from the address
    /// returned. A block that was offered and not used comes back as `spare`.
    pub fn add_unsafe(&mut self, size: usize, fresh: Option<usize>) -> (r: Placement)
        requires
            old(self).wf(),
            offered(old(self)@, old(self).bucket_size as int, size as int, fresh),
        ensures
            final(self).wf(),
            final(self).bucket_size == old(self).bucket_size,
            added(*old(self), *final(self), r, size as int, fresh),
            r.ptr is None <==> fresh is None && !tail_serves(
                old(self)@,
                old(self).bucket_size as int,
                size as int,
            ),
            final(self)@.len() >= old(self)@.len(),
            r.ptr matches Some(p) ==> p % BUCKET_ALIGN == 0 && claims(
                old(self)@,
                final(self)@,
                Region { begin: p as int, len: rounded(size as int) },
            ),
    {
        let ghost pre = self@;
        proof {
            lemma_align_up(size as int, BUCKET_ALIGN as int);
        }
        if size > usize::MAX - 15 {
            return Placement { ptr: None, spare: None };
        }
        let need = round_up(size);
        let n = self.buckets.len();
        if need > self.bucket_size {
            match fresh {
                Some(begin) => {
                    let own = Bucket { begin, end: begin + need, capacity: need };
                    let ghost region = Region { begin: begin as int, len: need as int };
                    if n == 0 {
                        self.buckets.push(own);
                        proof {
                            lemma_insert_claims(pre, 0, own.chunk(), region);
                            assert(self@ =~= pre.insert(0, own.chunk()));
                            assert(self@ =~= seq![own.chunk()]);
                        }
                    } else {
                        let tail = self.buckets[n - 1];
                        self.buckets[n - 1] = own;
                        self.buckets.push(tail);
                        proof {
                            lemma_insert_claims(pre, n - 1, own.chunk(), region);
                            assert(self@ =~= pre.insert(n - 1, own.chunk()));
                        }
                    }
                    proof {
                        assert(aligned(self@)) by {
                            assert forall|i: int| 0 <= i < self@.len() implies (#[trigger] self@[i]).begin
                                % (BUCKET_ALIGN as int) == 0 && self@[i].cursor % (
                            BUCKET_ALIGN as int) == 0 by {
                                if n > 0 && i < n - 1 {
                                    assert(self@[i] == pre[i]);
                                } else if n > 0 && i == n {
                                    assert(self@[i] == pre[n - 1]);
                                }
                            }
                        }
                    }
                    Placement { ptr: Some(begin), spare: None }
                },
                None => Placement { ptr: None, spare: None },
            }
        } else {
            if n > 0 {
                let tail = self.buckets[n - 1];
                proof {
                    assert(pre[n - 1] == tail.chunk());
                    assert(pre[n - 1].wf());
                }
                if tail.capacity - (tail.end - tail.begin) >= need {
                    self.buckets[n - 1] = Bucket {
                        begin: tail.begin,
                        end: tail.end + need,
                        capacity: tail.capacity,
                    };
                    proof {
                        let region = Region { begin: tail.end as int, len: need as int };
                        lemma_advance_claims(pre, n - 1, tail.end + need, region);
                        assert(self@ =~= pre.update(
                            n - 1,
                            Chunk { cursor: tail.end + need, ..pre[n - 1] },
                        ));
                        assert(aligned(self@)) by {
                            assert forall|i: int| 0 <= i < self@.len() implies (#[trigger] self@[i]).begin
                                % (BUCKET_ALIGN as int) == 0 && self@[i].cursor % (
                            BUCKET_ALIGN as int) == 0 by {
                                assert(pre[i].begin % (BUCKET_ALIGN as int) == 0);
                            }
                        }
                    }
                    return Placement { ptr: Some(tail.end), spare: fresh };
                }
            }
            match fresh {
                Some(begin) => {
                    let standard = Bucket { begin, end: begin + need, capacity: self.bucket_size };
                    self.buckets.push(standard);
                    proof {
                        let region = Region { begin: begin as int, len: need as int };
                        lemma_insert_claims(pre, n as int, standard.chunk(), region);
                        assert(self@ =~= pre.insert(n as int, standard.chunk()));
                        assert(self@ =~= pre.push(standard.chunk()));
                        assert(aligned(self@)) by {
                            assert forall|i: int| 0 <= i < self@.len() implies (#[trigger] self@[i]).begin
                                % (BUCKET_ALIGN as int) == 0 && self@[i].cursor % (
                            BUCKET_ALIGN as int) == 0 by {
                                if i < n {
                                    assert(self@[i] == pre[i]);
                                }
                            }
                        }
                    }
                    Placement { ptr: Some(begin), spare: None }
                },
                None => Placement { ptr: None, spare: None },
            }
        }
    }

    /// Finds the place for one value of type `T`: a request of the type's
    /// size.
    pub fn add<T>(&mut self, fresh: Option<usize>) -> (r: Placement)
        requires
            old(self).wf(),
            offered(old(self)@, old(self).bucket_size as int, size_of::<T>() as int, fresh),
        ensures
            final(self).wf(),
            final(self)@.len() >= old(self)@.len(),
            final(self).bucket_size == old(self).bucket_size,
            added(*old(self), *final(self), r, size_of::<T>() as int, fresh),
            r.ptr matches Some(p) ==> p % BUCKET_ALIGN == 0 && claims(
                old(self)@,
                final(self)@,
                Region { begin: p as int, len: rounded(size_of::<T>() as int) },
            ),
    {
        self.add_unsafe(core::mem::size_of::<T>(), fresh)
    }

    /// Finds the place for the bytes of `values`: a request of as many
    /// bytes.
    pub fn add_str(&mut self, values: &str, fresh: Option<usize>) -> (r: Placement)
        requires
            old(self).wf(),
            offered(
                old(self)@,
                old(self).bucket_size as int,
                values.spec_bytes().len() as int,
                fresh,
            ),
        ensures
            final(self).wf(),
            final(self)@.len() >= old(self)@.len(),
            final(self).bucket_size == old(self).bucket_size,
            added(*old(self), *final(self), r, values.spec_bytes().len() as int, fresh),
            r.ptr matches Some(p) ==> p % BUCKET_ALIGN == 0 && claims(
                old(self)@,
                final(self)@,
                Region { begin: p as int, len: rounded(values.spec_bytes().len() as int) },
            ),
    {
        self.add_unsafe(values.as_bytes().len(), fresh)
    }

    /// Finds the place for the items of `values`, in a row: a request of
    /// their number times the size of `T`.
    pub fn add_array<T>(&mut self, values: &Vec<T>, fresh: Option<usize>) -> (r: Placement)
        requires
            old(self).wf(),
            offered(
                old(self)@,
                old(self).bucket_size as int,
                size_of::<T>() * values.len(),
                fresh,
            ),
        ensures
            final(self).wf(),
            final(self)@.len() >= old(self)@.len(),
            final(self).bucket_size == old(self).bucket_size,
            added(*old(self), *final(self), r, size_of::<T>() * values.len(), fresh),
            r.ptr matches Some(p) ==> p % BUCKET_ALIGN == 0 && claims(
                old(self)@,
                final(self)@,
                Region { begin: p as int, len: rounded(size_of::<T>() * values.len()) },
            ),
    {
        match core::mem::size_of::<T>().checked_mul(values.len()) {
            Some(size) => self.add_unsafe(size, fresh),
            None => {
                proof {
                    lemma_align_up(size_of::<T>() * values.len(), BUCKET_ALIGN as int);
                }
                Placement { ptr: None, spare: None }
            },
        }
    }

    /// Whether the block of `len` bytes at `begin` can back a new chunk of
    /// the arena: whether it is addressable and shares no byte with any
    /// chunk.
    pub fn admits(&self, begin: usize, len: usize) -> (r: bool)
        requires
            self.wf(),
        ensures
            r == admits(self@, Region { begin: begin as int, len: len as int }),
    {
        let ghost block = Region { begin: begin as int, len: len as int };
        if begin > usize::MAX - len {
            return false;
        }
        let mut i: usize = 0;
        while i < self.buckets.len()
            invariant
                i <= self.buckets.len(),
                self.wf(),
                block == (Region { begin: begin as int, len: len as int }),
                block.addressable(),
                forall|k: int| 0 <= k < i ==> (#[trigger] self@[k]).span().disjoint(block),
            decreases self.buckets.len() - i,
        {
            let bucket = self.buckets[i];
            proof {
                assert(self@[i as int] == bucket.chunk());
                assert(self@[i as int].wf());
            }
            if !blocks_disjoint(
                Block { begin: bucket.begin, len: bucket.capacity },
                Block { begin, len },
            ) {
                return false;
            }
            i = i + 1;
        }
        true
    }

    /// The backing block of every chunk, in the order of the vector.
    fn blocks(&self) -> (blocks: Vec<Block>)
        ensures
            regions(blocks@) == spans(self@),
    {
        let mut blocks: Vec<Block> = Vec::new();
        let mut i: usize = 0;
        while i < self.buckets.len()
            invariant
                i <= self.buckets.len(),
                blocks.len() == i,
                forall|k: int| 0 <= k < i ==> (#[trigger] blocks[k])@ == self@[k].span(),
            decreases self.buckets.len() - i,
        {
            let bucket = self.buckets[i];
            blocks.push(Block { begin: bucket.begin, len: bucket.capacity });
            i = i + 1;
        }
        proof {
            assert(regions(blocks@) =~= spans(self@));
        }
        blocks
    }

    /// Takes the arena apart. The result names the backing block of every
    /// chunk, in the order of the vector: they are the caller's to release.
    pub fn drop(self) -> (blocks: Vec<Block>)
        ensures
            regions(blocks@) == spans(self@),
    {
        self.blocks()
    }

    /// Empties the arena and keeps its vector: the result is an arena
    /// without chunks and with the same standard capacity, and the backing
    /// block of every chunk that the arena had, in the order of the vector,
    /// for the caller to release.
    pub fn clear(self) -> (r: (BucketArray, Vec<Block>))
        ensures
            r.0.wf(),
            r.0@.len() == 0,
            r.0.bucket_size == self.bucket_size,
            regions(r.1@) == spans(self@),
    {
        let blocks = self.blocks();
        let mut arena = self;
        arena.buckets.clear();
        (arena, blocks)
    }
}

} // verus!
