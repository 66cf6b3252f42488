//! Regions of the address space, chunks with a bump cursor, and the
//! arithmetic of placing a request in a chunk.
//!
//! The library does the bookkeeping of an allocator and never touches memory.
//! An address is a plain `usize`; backing memory is fetched and released by
//! the caller, who passes the address of each fresh block in and gets the
//! blocks to release back.

use vstd::prelude::*;

verus! {

/// A run of addresses: the `len` bytes that start at `begin`.
pub struct Region {
    pub begin: int,
    pub len: int,
}

impl Region {
    /// The first address behind the region.
    pub open spec fn end(self) -> int {
        self.begin + self.len
    }

    /// `addr` is one of the region's bytes.
    pub open spec fn contains(self, addr: int) -> bool {
        self.begin <= addr < self.end()
    }

    /// The two regions share no byte. An empty region shares none with any.
    pub open spec fn disjoint(self, other: Region) -> bool {
        self.len <= 0 || other.len <= 0 || self.end() <= other.begin || other.end() <= self.begin
    }

    /// The region is made of addresses that a `usize` can hold.
    pub open spec fn addressable(self) -> bool {
        0 <= self.begin && 0 <= self.len && self.end() <= usize::MAX
    }
}

/// A block of backing memory, named by its first address and its length in
/// bytes. This is what an arena asks of, and hands back to, the system.
#[derive(Clone, Copy, Debug, PartialEq, Eq)]
pub struct Block {
    pub begin: usize,
    pub len: usize,
}

impl View for Block {
    type V = Region;

    open spec fn view(&self) -> Region {
        Region { begin: self.begin as int, len: self.len as int }
    }
}

/// A chunk as the contracts see it: `capacity` bytes of backing memory from
/// `begin` on, of which those below `cursor` have been handed out.
pub struct Chunk {
    pub begin: int,
    pub cursor: int,
    pub capacity: int,
}

impl Chunk {
    /// The first address behind the chunk.
    pub open spec fn end(self) -> int {
        self.begin + self.capacity
    }

    /// The cursor lies inside the chunk, and the chunk inside the address
    /// space: `cursor - begin <= capacity` in particular.
    pub open spec fn wf(self) -> bool {
        0 <= self.begin <= self.cursor <= self.end() <= usize::MAX
    }

    /// All of the chunk's bytes.
    pub open spec fn span(self) -> Region {
        Region { begin: self.begin, len: self.capacity }
    }

    /// The bytes below the cursor.
    pub open spec fn used(self) -> Region {
        Region { begin: self.begin, len: self.cursor - self.begin }
    }

    /// All of `region` lies below the chunk's cursor.
    pub open spec fn holds(self, region: Region) -> bool {
        self.begin <= region.begin && region.end() <= self.cursor
    }

    /// A request of `size` bytes at alignment `align` has room in the chunk.
    pub open spec fn fits(self, size: int, align: int) -> bool {
        align_up(self.cursor, align) + size <= self.end()
    }

    /// The chunk after it has served such a request.
    pub open spec fn bump(self, size: int, align: int) -> Chunk {
        Chunk { cursor: align_up(self.cursor, align) + size, ..self }
    }

    /// The chunk with its cursor back at the start.
    pub open spec fn rewound(self) -> Chunk {
        Chunk { cursor: self.begin, ..self }
    }

    /// A chunk on `block` whose first `size` bytes are handed out.
    pub open spec fn on(block: Region, size: int) -> Chunk {
        Chunk { begin: block.begin, cursor: block.begin + size, capacity: block.len }
    }
}

/// `addr` rounded up to a multiple of `align`.
pub open spec fn align_up(addr: int, align: int) -> int {
    if addr % align == 0 {
        addr
    } else {
        addr + align - addr % align
    }
}

/// `align_up` yields the one multiple of the alignment that is at or above
/// the address and less than `align` above it.
pub proof fn lemma_align_up(addr: int, align: int)
    requires
        0 <= addr,
        0 < align,
    ensures
        align_up(addr, align) % align == 0,
        addr <= align_up(addr, align) < addr + align,
{
    let up = align_up(addr, align);
    assert(up % align == 0 && addr <= up < addr + align) by (nonlinear_arith)
        requires
            0 <= addr,
            0 < align,
            up == if addr % align == 0 {
                addr
            } else {
                addr + align - addr % align
            },
    ;
}

/// The cursor placement that a chunk computes for a request.
#[derive(Clone, Copy, Debug, PartialEq, Eq)]
pub struct Bump {
    /// The address the request is served at.
    pub ptr: usize,
    /// The cursor after the request: `ptr` plus the size.
    pub next_bump: usize,
}

/// Places a request of `size` bytes at alignment `align` in the free part of
/// a chunk that runs from the cursor `bump` to `end`. Fails exactly when the
/// aligned request does not end at or before `end`.
pub fn bump_size_align(bump: usize, end: usize, size: usize, align: usize) -> (r: Result<Bump, ()>)
    requires
        align > 0,
    ensures
        r is Ok <==> align_up(bump as int, align as int) + size <= end,
        r matches Ok(b) ==> b.ptr == align_up(bump as int, align as int) && b.next_bump == b.ptr
            + size,
{
    proof {
        lemma_align_up(bump as int, align as int);
    }
    let rest: usize = bump % align;
    let pad: usize = if rest == 0 {
        0
    } else {
        align - rest
    };
    if bump > end || pad > end - bump {
        return Err(());
    }
    let ptr: usize = bump + pad;
    if size > end - ptr {
        return Err(());
    }
    Ok(Bump { ptr, next_bump: ptr + size })
}

/// What came of one attempt to serve a request from one chunk by a caller
/// that had read the chunk's cursor some time before.
#[derive(Clone, Copy, Debug, PartialEq, Eq)]
pub enum Attempt {
    /// The cursor was still as read and has been moved: the request is
    /// served at this address.
    Placed(usize),
    /// The cursor had moved on in the meantime, to this value, and nothing
    /// has changed: the caller tries again from there.
    Raced(usize),
    /// Counted from the cursor as read, the request has no room in the
    /// chunk, and nothing has changed: the caller goes on to the next chunk.
    Full,
}

/// The outcome of an attempt on chunk `c` by a caller that read the cursor
/// as `seen`: the request is placed from `seen`; if it has no room in the
/// chunk, the attempt ends there; else the cursor is moved if and only if it
/// still is `seen`.
pub open spec fn attempt(c: Chunk, seen: int, size: int, align: int) -> Attempt {
    if align_up(seen, align) + size > c.end() {
        Attempt::Full
    } else if seen == c.cursor {
        Attempt::Placed(align_up(seen, align) as usize)
    } else {
        Attempt::Raced(c.cursor as usize)
    }
}

/// What an allocation came to.
#[derive(Clone, Copy, Debug, PartialEq, Eq)]
pub struct Placement {
    /// The address of the region that serves the request; `None` if the
    /// request was not served.
    pub ptr: Option<usize>,
    /// The block that was offered for a new chunk and not used: it is the
    /// caller's to release.
    pub spare: Option<usize>,
}

/// An address of the executable code, or none, as the contracts speak of it.
pub open spec fn as_addr(r: Option<usize>) -> Option<int> {
    match r {
        Some(p) => Some(p as int),
        None => None,
    }
}

/// Whether the blocks `a` and `b` share no byte.
pub fn blocks_disjoint(a: Block, b: Block) -> (r: bool)
    requires
        a@.addressable(),
        b@.addressable(),
    ensures
        r == a@.disjoint(b@),
{
    a.len == 0 || b.len == 0 || a.begin + a.len <= b.begin || b.begin + b.len <= a.begin
}

} // verus!
