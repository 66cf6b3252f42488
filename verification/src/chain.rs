//! Chains of chunks: what all three arenas keep, what a request makes of a
//! chain, and the laws that hold of every chain.

use crate::chunk::{align_up, lemma_align_up, Block, Chunk, Region};
use vstd::prelude::*;

verus! {

/// Every chunk is well-formed and no two chunks share a byte.
pub open spec fn chain_wf(chain: Seq<Chunk>) -> bool {
    &&& forall|i: int| 0 <= i < chain.len() ==> (#[trigger] chain[i]).wf()
    &&& forall|i: int, j: int|
        0 <= i < chain.len() && 0 <= j < chain.len() && i != j ==> (#[trigger] chain[i]).span().disjoint(
            (#[trigger] chain[j]).span(),
        )
}

/// `block` can back a new chunk of the chain: it is addressable and shares no
/// byte with any chunk.
pub open spec fn admits(chain: Seq<Chunk>, block: Region) -> bool {
    &&& block.addressable()
    &&& forall|i: int| 0 <= i < chain.len() ==> (#[trigger] chain[i]).span().disjoint(block)
}

/// The backing blocks of a chain, in chain order.
pub open spec fn spans(chain: Seq<Chunk>) -> Seq<Region> {
    Seq::new(chain.len(), |i: int| chain[i].span())
}

/// The regions that a vector of blocks names.
pub open spec fn regions(blocks: Seq<Block>) -> Seq<Region> {
    Seq::new(blocks.len(), |i: int| blocks[i]@)
}

/// The chain with every cursor back at the start of its chunk.
pub open spec fn rewound(chain: Seq<Chunk>) -> Seq<Chunk> {
    Seq::new(chain.len(), |i: int| chain[i].rewound())
}

/// The sum of the capacities of a chain's chunks.
pub open spec fn total_capacity(chain: Seq<Chunk>) -> int
    decreases chain.len(),
{
    if chain.len() == 0 {
        0
    } else {
        chain[0].capacity + total_capacity(chain.drop_first())
    }
}

/// The index of the first chunk, in chain order, that has room for the
/// request; the chain's length if none has.
pub open spec fn first_fit(chain: Seq<Chunk>, size: int, align: int) -> int
    decreases chain.len(),
{
    if chain.len() == 0 {
        0
    } else if chain[0].fits(size, align) {
        0
    } else {
        1 + first_fit(chain.drop_first(), size, align)
    }
}

/// First fit along the chain: the request is served by the first chunk that
/// has room for it. If none has, a chunk on `block` is appended and serves it
/// from its first byte; without a block the chain stays as it is and the
/// request fails.
pub open spec fn place(chain: Seq<Chunk>, size: int, align: int, block: Option<Region>) -> (
    Seq<Chunk>,
    Option<int>,
) {
    let k = first_fit(chain, size, align);
    if k < chain.len() {
        (chain.update(k, chain[k].bump(size, align)), Some(align_up(chain[k].cursor, align)))
    } else {
        match block {
            Some(b) => (chain.push(Chunk::on(b, size)), Some(b.begin)),
            None => (chain, None),
        }
    }
}

/// `addr` lies below the cursor of some chunk: it has been handed out, or
/// skipped as padding.
pub open spec fn used_at(chain: Seq<Chunk>, addr: int) -> bool {
    exists|k: int| 0 <= k < chain.len() && (#[trigger] chain[k]).used().contains(addr)
}

/// What one successful allocation does to a chain: no byte of the region it
/// returns was used before, the whole region lies below the cursor of one
/// chunk after, and no used byte is given back.
pub open spec fn claims(pre: Seq<Chunk>, post: Seq<Chunk>, region: Region) -> bool {
    &&& forall|a: int| #[trigger] used_at(pre, a) ==> used_at(post, a)
    &&& forall|a: int| #[trigger] region.contains(a) ==> !used_at(pre, a)
    &&& exists|k: int| 0 <= k < post.len() && (#[trigger] post[k]).holds(region)
}

/// No overlap: the regions that successive allocations from one arena return
/// are pairwise disjoint.
///
/// `states` is the history of an arena's chain, `regions[k]` the region that
/// the allocation between `states[k]` and `states[k + 1]` returned. The
/// allocations may come from any number of callers in any interleaving: each
/// successful one is a single step of the history.
pub proof fn lemma_allocations_disjoint(
    states: Seq<Seq<Chunk>>,
    regions: Seq<Region>,
    i: int,
    j: int,
)
    requires
        states.len() == regions.len() + 1,
        forall|k: int|
            0 <= k < regions.len() ==> claims(states[k], states[k + 1], #[trigger] regions[k]),
        0 <= i < j < regions.len(),
    ensures
        regions[i].disjoint(regions[j]),
{
    if !regions[i].disjoint(regions[j]) {
        let a = if regions[i].begin >= regions[j].begin {
            regions[i].begin
        } else {
            regions[j].begin
        };
        assert(regions[i].contains(a) && regions[j].contains(a));
        assert(claims(states[i], states[i + 1], regions[i]));
        assert(claims(states[j], states[j + 1], regions[j]));
        let k = choose|k: int|
            0 <= k < states[i + 1].len() && (#[trigger] states[i + 1][k]).holds(regions[i]);
        assert(states[i + 1][k].used().contains(a));
        lemma_used_persists(states, regions, i + 1, j, a);
    }
}

/// A byte that is used stays used through any run of allocations.
proof fn lemma_used_persists(
    states: Seq<Seq<Chunk>>,
    regions: Seq<Region>,
    from: int,
    to: int,
    addr: int,
)
    requires
        states.len() == regions.len() + 1,
        forall|k: int|
            0 <= k < regions.len() ==> claims(states[k], states[k + 1], #[trigger] regions[k]),
        0 <= from <= to < states.len(),
        used_at(states[from], addr),
    ensures
        used_at(states[to], addr),
    decreases to - from,
{
    if from < to {
        lemma_used_persists(states, regions, from, to - 1, addr);
        assert(claims(states[to - 1], states[to - 1 + 1], regions[to - 1]));
    }
}

/// Capacity: no chunk of a well-formed chain has handed out more bytes than it
/// holds.
pub proof fn lemma_cursor_within_capacity(chain: Seq<Chunk>, i: int)
    requires
        chain_wf(chain),
        0 <= i < chain.len(),
    ensures
        0 <= chain[i].cursor - chain[i].begin <= chain[i].capacity,
{
    assert(chain[i].wf());
}

/// The chunks of a well-formed chain hold no more bytes together than there
/// are addresses: the total fits a `usize`.
pub proof fn lemma_total_fits(chain: Seq<Chunk>)
    requires
        chain_wf(chain),
    ensures
        0 <= total_capacity(chain) <= usize::MAX,
{
    assert forall|i: int| 0 <= i < chain.len() implies 0 <= (#[trigger] chain[i]).begin && 0
        <= chain[i].capacity && (chain[i].capacity > 0 ==> chain[i].end() <= usize::MAX) by {
        assert(chain[i].wf());
    }
    lemma_total_bounded(chain, usize::MAX as int);
}

/// `first_fit` names the first chunk with room, and no other.
pub proof fn lemma_first_fit(chain: Seq<Chunk>, size: int, align: int)
    ensures
        0 <= first_fit(chain, size, align) <= chain.len(),
        forall|i: int|
            0 <= i < first_fit(chain, size, align) ==> !(#[trigger] chain[i]).fits(size, align),
        first_fit(chain, size, align) < chain.len() ==> chain[first_fit(chain, size, align)].fits(
            size,
            align,
        ),
    decreases chain.len(),
{
    if chain.len() > 0 && !chain[0].fits(size, align) {
        let rest = chain.drop_first();
        lemma_first_fit(rest, size, align);
        assert forall|i: int| 0 <= i < first_fit(chain, size, align) implies !(#[trigger] chain[i]).fits(
            size,
            align,
        ) by {
            if i > 0 {
                assert(chain[i] == rest[i - 1]);
            }
        }
    }
}

/// What `place` yields on a well-formed chain: a well-formed chain that is at
/// least as long, an aligned address, and a claim on the region served.
pub proof fn lemma_place(chain: Seq<Chunk>, size: int, align: int, block: Option<Region>)
    requires
        chain_wf(chain),
        0 <= size,
        0 < align,
        block matches Some(b) ==> admits(chain, b) && b.begin % align == 0 && size <= b.len,
    ensures
        chain_wf(place(chain, size, align, block).0),
        place(chain, size, align, block).0.len() >= chain.len(),
        place(chain, size, align, block).1 matches Some(p) ==> p % align == 0 && claims(
            chain,
            place(chain, size, align, block).0,
            Region { begin: p, len: size },
        ),
        place(chain, size, align, block).1 is None ==> place(chain, size, align, block).0 == chain,
{
    let k = first_fit(chain, size, align);
    lemma_first_fit(chain, size, align);
    if k < chain.len() {
        let c = chain[k];
        assert(c.wf());
        lemma_align_up(c.cursor, align);
        let p = align_up(c.cursor, align);
        lemma_advance_claims(chain, k, p + size, Region { begin: p, len: size });
    } else if let Some(b) = block {
        let c = Chunk::on(b, size);
        lemma_insert_claims(chain, chain.len() as int, c, Region { begin: b.begin, len: size });
        assert(chain.insert(chain.len() as int, c) =~= chain.push(c));
    }
}

/// `place` on a chain whose head has room serves the request from the head.
pub proof fn lemma_place_head(head: Chunk, rest: Seq<Chunk>, size: int, align: int, block: Option<Region>)
    requires
        head.fits(size, align),
    ensures
        place(seq![head] + rest, size, align, block) == (
            seq![head.bump(size, align)] + rest,
            Some(align_up(head.cursor, align)),
        ),
{
    let chain = seq![head] + rest;
    assert(chain[0] == head);
    assert(chain.update(0, head.bump(size, align)) =~= seq![head.bump(size, align)] + rest);
}

/// `place` on a chain whose head has no room leaves the head alone and is
/// `place` on the rest.
pub proof fn lemma_place_rest(head: Chunk, rest: Seq<Chunk>, size: int, align: int, block: Option<Region>)
    requires
        !head.fits(size, align),
    ensures
        place(seq![head] + rest, size, align, block) == (
            seq![head] + place(rest, size, align, block).0,
            place(rest, size, align, block).1,
        ),
{
    let chain = seq![head] + rest;
    assert(chain[0] == head);
    assert(chain.drop_first() =~= rest);
    lemma_first_fit(rest, size, align);
    let k = first_fit(rest, size, align);
    assert(first_fit(chain, size, align) == 1 + k);
    if k < rest.len() {
        assert(chain[1 + k] == rest[k]);
        assert(chain.update(1 + k, rest[k].bump(size, align)) =~= seq![head] + rest.update(
            k,
            rest[k].bump(size, align),
        ));
    } else if let Some(b) = block {
        assert(chain.push(Chunk::on(b, size)) =~= seq![head] + rest.push(Chunk::on(b, size)));
    }
}

/// Moving the cursor of chunk `k` forward over `region` keeps the chain
/// well-formed and claims the region.
pub proof fn lemma_advance_claims(chain: Seq<Chunk>, k: int, cursor: int, region: Region)
    requires
        chain_wf(chain),
        0 <= k < chain.len(),
        chain[k].cursor <= region.begin,
        0 <= region.len,
        region.end() <= cursor <= chain[k].end(),
    ensures
        chain_wf(chain.update(k, Chunk { cursor, ..chain[k] })),
        claims(chain, chain.update(k, Chunk { cursor, ..chain[k] }), region),
{
    let post = chain.update(k, Chunk { cursor, ..chain[k] });
    assert(chain_wf(post)) by {
        assert forall|i: int| 0 <= i < post.len() implies (#[trigger] post[i]).wf() by {
            assert(chain[i].wf());
        }
        assert forall|i: int, j: int|
            0 <= i < post.len() && 0 <= j < post.len() && i != j implies (#[trigger] post[i]).span().disjoint(
            (#[trigger] post[j]).span(),
        ) by {
            assert(chain[i].span().disjoint(chain[j].span()));
        }
    }
    assert forall|a: int| #[trigger] used_at(chain, a) implies used_at(post, a) by {
        let w = choose|w: int| 0 <= w < chain.len() && (#[trigger] chain[w]).used().contains(a);
        assert(chain[k].wf());
        assert(post[w].used().contains(a));
    }
    assert(post[k].holds(region)) by {
        assert(chain[k].wf());
    }
    assert forall|a: int| #[trigger] region.contains(a) implies !used_at(chain, a) by {
        assert(chain[k].wf());
        if used_at(chain, a) {
            let w = choose|w: int| 0 <= w < chain.len() && (#[trigger] chain[w]).used().contains(a);
            assert(chain[w].wf());
            if w != k {
                assert(chain[w].span().disjoint(chain[k].span()));
            }
        }
    }
}

/// Putting a chunk on an admitted block into the chain, at any place, keeps
/// the chain well-formed and claims what lies below the new chunk's cursor.
pub proof fn lemma_insert_claims(chain: Seq<Chunk>, at: int, chunk: Chunk, region: Region)
    requires
        chain_wf(chain),
        0 <= at <= chain.len(),
        chunk.wf(),
        admits(chain, chunk.span()),
        chunk.begin <= region.begin,
        region.end() <= chunk.cursor,
    ensures
        chain_wf(chain.insert(at, chunk)),
        claims(chain, chain.insert(at, chunk), region),
{
    let post = chain.insert(at, chunk);
    let from = |i: int|
        if i < at {
            i
        } else {
            i - 1
        };
    assert forall|i: int| 0 <= i < post.len() && i != at implies #[trigger] post[i] == chain[from(
        i,
    )] by {}
    assert(post[at] == chunk);
    assert(chain_wf(post)) by {
        assert forall|i: int| 0 <= i < post.len() implies (#[trigger] post[i]).wf() by {
            if i != at {
                assert(chain[from(i)].wf());
            }
        }
        assert forall|i: int, j: int|
            0 <= i < post.len() && 0 <= j < post.len() && i != j implies (#[trigger] post[i]).span().disjoint(
            (#[trigger] post[j]).span(),
        ) by {
            if i == at {
                assert(chain[from(j)].span().disjoint(chunk.span()));
            } else if j == at {
                assert(chain[from(i)].span().disjoint(chunk.span()));
            } else {
                assert(chain[from(i)].span().disjoint(chain[from(j)].span()));
            }
        }
    }
    assert forall|a: int| #[trigger] used_at(chain, a) implies used_at(post, a) by {
        let w = choose|w: int| 0 <= w < chain.len() && (#[trigger] chain[w]).used().contains(a);
        let v = if w < at {
            w
        } else {
            w + 1
        };
        assert(post[v] == chain[w]);
        assert(post[v].used().contains(a));
    }
    assert(post[at].holds(region));
    assert forall|a: int| #[trigger] region.contains(a) implies !used_at(chain, a) by {
        if used_at(chain, a) {
            let w = choose|w: int| 0 <= w < chain.len() && (#[trigger] chain[w]).used().contains(a);
            assert(chain[w].wf());
            assert(chain[w].span().disjoint(chunk.span()));
        }
    }
}

/// Rewinding keeps a chain well-formed.
pub proof fn lemma_rewound(chain: Seq<Chunk>)
    requires
        chain_wf(chain),
    ensures
        chain_wf(rewound(chain)),
{
    let post = rewound(chain);
    assert forall|i: int| 0 <= i < post.len() implies (#[trigger] post[i]).wf() by {
        assert(chain[i].wf());
    }
    assert forall|i: int, j: int|
        0 <= i < post.len() && 0 <= j < post.len() && i != j implies (#[trigger] post[i]).span().disjoint(
        (#[trigger] post[j]).span(),
    ) by {
        assert(chain[i].span().disjoint(chain[j].span()));
    }
}

/// What follows the head of a well-formed chain is a well-formed chain.
pub proof fn lemma_rest_wf(chain: Seq<Chunk>)
    requires
        chain_wf(chain),
        chain.len() > 0,
    ensures
        chain_wf(chain.drop_first()),
{
    let rest = chain.drop_first();
    assert forall|i: int| 0 <= i < rest.len() implies (#[trigger] rest[i]).wf() by {
        assert(chain[i + 1].wf());
    }
    assert forall|i: int, j: int|
        0 <= i < rest.len() && 0 <= j < rest.len() && i != j implies (#[trigger] rest[i]).span().disjoint(
        (#[trigger] rest[j]).span(),
    ) by {
        assert(chain[i + 1].span().disjoint(chain[j + 1].span()));
    }
}

/// What follows the head of a chain admits every block that the chain admits.
pub proof fn lemma_rest_admits(chain: Seq<Chunk>, block: Region)
    requires
        admits(chain, block),
        chain.len() > 0,
    ensures
        admits(chain.drop_first(), block),
{
    let rest = chain.drop_first();
    assert forall|i: int| 0 <= i < rest.len() implies (#[trigger] rest[i]).span().disjoint(
        block,
    ) by {
        assert(chain[i + 1].span().disjoint(block));
    }
}

/// Chunks that share no byte and end at or below `bound` hold at most
/// `bound` bytes together.
proof fn lemma_total_bounded(chain: Seq<Chunk>, bound: int)
    requires
        0 <= bound,
        forall|i: int|
            0 <= i < chain.len() ==> 0 <= (#[trigger] chain[i]).begin && 0 <= chain[i].capacity && (
            chain[i].capacity > 0 ==> chain[i].end() <= bound),
        forall|i: int, j: int|
            0 <= i < chain.len() && 0 <= j < chain.len() && i != j ==> (#[trigger] chain[i]).span().disjoint(
                (#[trigger] chain[j]).span(),
            ),
    ensures
        0 <= total_capacity(chain) <= bound,
    decreases chain.len(),
{
    if chain.len() > 0 {
        lemma_last_ending(chain);
        let m = last_ending(chain);
        if m == chain.len() {
            let rest = chain.drop_first();
            assert forall|i: int| 0 <= i < rest.len() implies 0 <= (#[trigger] rest[i]).begin && 0
                <= rest[i].capacity && (rest[i].capacity > 0 ==> rest[i].end() <= bound) by {
                assert(rest[i] == chain[i + 1]);
            }
            assert forall|i: int, j: int|
                0 <= i < rest.len() && 0 <= j < rest.len() && i != j implies (#[trigger] rest[i]).span().disjoint(
                (#[trigger] rest[j]).span(),
            ) by {
                assert(chain[i + 1].span().disjoint(chain[j + 1].span()));
            }
            lemma_total_bounded(rest, bound);
            assert(chain[0].capacity == 0);
        } else {
            let others = chain.remove(m);
            let from = |i: int|
                if i < m {
                    i
                } else {
                    i + 1
                };
            assert forall|i: int| 0 <= i < others.len() implies #[trigger] others[i] == chain[from(
                i,
            )] by {}
            assert forall|i: int| 0 <= i < others.len() implies 0 <= (#[trigger] others[i]).begin
                && 0 <= others[i].capacity && (others[i].capacity > 0 ==> others[i].end()
                <= chain[m].begin) by {
                let c = chain[from(i)];
                assert(c.span().disjoint(chain[m].span()));
                assert(c.capacity > 0 ==> c.end() <= chain[m].end());
            }
            assert forall|i: int, j: int|
                0 <= i < others.len() && 0 <= j < others.len() && i != j implies (
            #[trigger] others[i]).span().disjoint((#[trigger] others[j]).span()) by {
                assert(chain[from(i)].span().disjoint(chain[from(j)].span()));
            }
            lemma_total_bounded(others, chain[m].begin);
            lemma_total_without(chain, m);
        }
    }
}

/// Taking one chunk out of a chain takes its capacity out of the total.
proof fn lemma_total_without(chain: Seq<Chunk>, at: int)
    requires
        0 <= at < chain.len(),
    ensures
        total_capacity(chain) == chain[at].capacity + total_capacity(chain.remove(at)),
    decreases chain.len(),
{
    if at == 0 {
        assert(chain.remove(0) =~= chain.drop_first());
    } else {
        let rest = chain.drop_first();
        lemma_total_without(rest, at - 1);
        assert(chain.remove(at)[0] == chain[0]);
        assert(chain.remove(at).drop_first() =~= rest.remove(at - 1));
    }
}

/// The index of a chunk that has bytes and ends last among those that have;
/// the chain's length if no chunk has bytes.
spec fn last_ending(chain: Seq<Chunk>) -> int
    decreases chain.len(),
{
    if chain.len() == 0 {
        0
    } else {
        let rest = chain.drop_last();
        let k = last_ending(rest);
        let c = chain.last();
        if c.capacity > 0 && (k == rest.len() || rest[k].end() <= c.end()) {
            chain.len() - 1
        } else if k == rest.len() {
            chain.len() as int
        } else {
            k
        }
    }
}

/// `last_ending` names a chunk that has bytes, and none that has bytes ends
/// behind it.
proof fn lemma_last_ending(chain: Seq<Chunk>)
    ensures
        0 <= last_ending(chain) <= chain.len(),
        last_ending(chain) < chain.len() ==> chain[last_ending(chain)].capacity > 0,
        forall|i: int|
            0 <= i < chain.len() && (#[trigger] chain[i]).capacity > 0 ==> last_ending(chain)
                < chain.len() && chain[i].end() <= chain[last_ending(chain)].end(),
    decreases chain.len(),
{
    if chain.len() > 0 {
        let rest = chain.drop_last();
        lemma_last_ending(rest);
        assert forall|i: int| 0 <= i < chain.len() && (#[trigger] chain[i]).capacity > 0 implies last_ending(
            chain,
        ) < chain.len() && chain[i].end() <= chain[last_ending(chain)].end() by {
            if i < rest.len() {
                assert(rest[i] == chain[i]);
            }
        }
    }
}

} // verus!
