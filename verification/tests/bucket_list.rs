use arena_alloc::bucket_list::{chunk_size, BucketList, BucketListInner, BUCKET_SIZE};
use arena_alloc::chunk::{bump_size_align, Attempt, Block, Bump, Placement};

/// The chunks of a chain as (begin, cursor, capacity), head first.
fn chunks(list: &BucketList) -> Vec<(usize, usize, usize)> {
    let mut out = Vec::new();
    let mut node: Option<&BucketListInner> = Some(&list.data);
    while let Some(n) = node {
        out.push((n.array_begin, n.end, n.len));
        node = n.next.as_deref();
    }
    out
}

/// A stand-in for the system allocator: hands out blocks that lie apart.
struct Heap {
    next: usize,
}

impl Heap {
    fn fetch(&mut self, len: usize, align: usize) -> usize {
        let align = align.max(16);
        let begin = (self.next + align - 1) / align * align;
        self.next = begin + len;
        begin
    }
}

fn serve(list: &mut BucketList, heap: &mut Heap, size: usize, align: usize) -> usize {
    let first = list.data.allocate(size, align, None);
    if let Some(ptr) = first.ptr {
        return ptr;
    }
    let len = chunk_size(size);
    let block = heap.fetch(len, align);
    assert!(list.data.admits(block, len));
    let second = list.data.allocate(size, align, Some(block));
    assert_eq!(second, Placement { ptr: Some(block), spare: None });
    block
}

fn disjoint(a: (usize, usize), b: (usize, usize)) -> bool {
    a.1 == 0 || b.1 == 0 || a.0 + a.1 <= b.0 || b.0 + b.1 <= a.0
}

#[test]
fn bucket_list_test_bucket_list() {
    let mut heap = Heap { next: 0x20000 };
    let mut bucket_list = BucketList::new(0x10000);
    let mut served: Vec<(usize, usize)> = Vec::new();

    let first = bucket_list.add::<Vec<u64>>(None);
    served.push((first.ptr.unwrap(), std::mem::size_of::<Vec<u64>>()));
    let mut vec = Vec::<u64>::new();
    let second = bucket_list.add::<i32>(None);
    served.push((second.ptr.unwrap(), 4));
    let num = 12;
    vec.push(num);
    for _ in 0..9 {
        let values = vec![12, 12, 31, 4123, 123, 5, 14, 5, 134, 5];
        let mut placed = bucket_list.add_array(&values, None);
        if placed.ptr.is_none() {
            let len = chunk_size(40);
            let block = heap.fetch(len, 4);
            assert!(bucket_list.data.admits(block, len));
            placed = bucket_list.add_array(&values, Some(block));
            assert_eq!(placed.spare, None);
        }
        let ptr = placed.ptr.unwrap();
        assert_eq!(ptr % 4, 0);
        served.push((ptr, 40));
    }
    vec.push(1);
    assert_eq!(vec, vec![12, 1]);

    for (i, a) in served.iter().enumerate() {
        for b in served.iter().skip(i + 1) {
            assert!(disjoint(*a, *b));
        }
    }
    // 24 + 4 + 2 * 40 bytes go into the first chunk, three arrays into each
    // chunk after it
    assert_eq!(
        chunks(&bucket_list),
        vec![
            (0x10000, 0x10000 + 108, 128),
            (0x20000, 0x20000 + 120, 128),
            (0x20080, 0x20080 + 120, 128),
            (0x20100, 0x20100 + 40, 128),
        ]
    );
    let blocks = BucketList::dealloc(bucket_list);
    assert_eq!(
        blocks,
        vec![
            Block { begin: 0x10000, len: 128 },
            Block { begin: 0x20000, len: 128 },
            Block { begin: 0x20080, len: 128 },
            Block { begin: 0x20100, len: 128 },
        ]
    );
}

#[test]
fn bump_size_align_places_at_the_next_multiple() {
    assert_eq!(bump_size_align(0x1001, 0x1080, 8, 8), Ok(Bump { ptr: 0x1008, next_bump: 0x1010 }));
    assert_eq!(bump_size_align(0x1000, 0x1080, 8, 8), Ok(Bump { ptr: 0x1000, next_bump: 0x1008 }));
    assert_eq!(bump_size_align(0x1003, 0x1080, 5, 1), Ok(Bump { ptr: 0x1003, next_bump: 0x1008 }));
    assert_eq!(bump_size_align(0x1001, 0x1080, 0, 64), Ok(Bump { ptr: 0x1040, next_bump: 0x1040 }));
    assert_eq!(bump_size_align(7, 100, 10, 3), Ok(Bump { ptr: 9, next_bump: 19 }));
}

#[test]
fn bump_size_align_fails_exactly_past_the_end() {
    assert_eq!(bump_size_align(0x1078, 0x1080, 8, 8), Ok(Bump { ptr: 0x1078, next_bump: 0x1080 }));
    assert_eq!(bump_size_align(0x1078, 0x1080, 9, 8), Err(()));
    assert_eq!(bump_size_align(0x1079, 0x1080, 1, 8), Err(()));
    assert_eq!(bump_size_align(0x1079, 0x1080, 0, 8), Ok(Bump { ptr: 0x1080, next_bump: 0x1080 }));
    assert_eq!(bump_size_align(0x1081, 0x1080, 0, 1), Err(()));
    assert_eq!(bump_size_align(0x1000, 0x1080, usize::MAX, 1), Err(()));
    assert_eq!(bump_size_align(usize::MAX, usize::MAX, 0, 2), Err(()));
    assert_eq!(bump_size_align(usize::MAX, usize::MAX, 0, 1), Ok(Bump { ptr: usize::MAX, next_bump: usize::MAX }));
}

#[test]
fn chunk_size_is_the_standard_or_the_request() {
    assert_eq!(BUCKET_SIZE, 128);
    assert_eq!(chunk_size(0), 128);
    assert_eq!(chunk_size(128), 128);
    assert_eq!(chunk_size(129), 129);
}

#[test]
fn first_chunk_with_room_serves() {
    let mut list = BucketList::new(0x1000);
    assert_eq!(chunks(&list), vec![(0x1000, 0x1000, 128)]);
    assert_eq!(list.data.allocate(100, 8, None).ptr, Some(0x1000));
    assert_eq!(list.data.allocate(20, 8, None).ptr, Some(0x1068));
    // 0x107c rounds up to 0x1080: no room for 8 more
    assert_eq!(list.data.allocate(8, 8, None), Placement { ptr: None, spare: None });
    assert_eq!(chunks(&list), vec![(0x1000, 0x107c, 128)]);
    assert_eq!(list.data.allocate(8, 8, Some(0x2000)), Placement { ptr: Some(0x2000), spare: None });
    assert_eq!(chunks(&list), vec![(0x1000, 0x107c, 128), (0x2000, 0x2008, 128)]);
    // the head still has four bytes at alignment 4, and is asked first
    assert_eq!(
        list.data.allocate(4, 4, Some(0x5000)),
        Placement { ptr: Some(0x107c), spare: Some(0x5000) }
    );
    assert_eq!(chunks(&list), vec![(0x1000, 0x1080, 128), (0x2000, 0x2008, 128)]);
}

#[test]
fn oversized_request_gets_a_chunk_of_its_size() {
    let mut list = BucketList::new(0x1000);
    let placed = list.data.allocate(1000, 16, Some(0x3000));
    assert_eq!(placed, Placement { ptr: Some(0x3000), spare: None });
    assert_eq!(chunks(&list), vec![(0x1000, 0x1000, 128), (0x3000, 0x3000 + 1000, 1000)]);
    // the full chunk is passed over, the chain grows at its tail
    assert_eq!(list.data.allocate(128, 1, None).ptr, Some(0x1000));
    assert_eq!(list.data.allocate(1, 1, Some(0x4000)).ptr, Some(0x4000));
    assert_eq!(
        chunks(&list),
        vec![(0x1000, 0x1080, 128), (0x3000, 0x3000 + 1000, 1000), (0x4000, 0x4001, 128)]
    );
}

#[test]
fn addresses_are_aligned_and_regions_disjoint() {
    let mut heap = Heap { next: 0x100000 };
    let mut list = BucketList::new(heap.fetch(BUCKET_SIZE, 16));
    let requests: [(usize, usize); 12] = [
        (1, 1), (8, 8), (3, 2), (64, 64), (100, 4), (200, 16), (0, 8), (7, 1), (128, 128), (1, 32),
        (24, 8), (500, 256),
    ];
    let mut served: Vec<(usize, usize)> = Vec::new();
    let mut len_before = 1;
    for round in 0..4 {
        for (size, align) in requests {
            let ptr = serve(&mut list, &mut heap, size + round, align);
            assert_eq!(ptr % align, 0);
            served.push((ptr, size + round));
            let len = chunks(&list).len();
            assert!(len >= len_before);
            len_before = len;
        }
    }
    for (i, a) in served.iter().enumerate() {
        for b in served.iter().skip(i + 1) {
            assert!(disjoint(*a, *b));
        }
    }
    for (begin, cursor, capacity) in chunks(&list) {
        assert!(begin <= cursor && cursor - begin <= capacity);
    }
}

#[test]
fn attempt_with_a_stale_cursor_loses_and_changes_nothing() {
    let mut list = BucketList::new(0x1000);
    let seen_by_both = list.data.end;
    assert_eq!(list.data.try_bump(seen_by_both, 10, 1), Attempt::Placed(0x1000));
    assert_eq!(list.data.try_bump(seen_by_both, 10, 1), Attempt::Raced(0x100a));
    assert_eq!(chunks(&list), vec![(0x1000, 0x100a, 128)]);
    assert_eq!(list.data.try_bump(0x100a, 10, 4), Attempt::Placed(0x100c));
    assert_eq!(chunks(&list), vec![(0x1000, 0x1016, 128)]);
    assert_eq!(list.data.try_bump(0x1016, 200, 1), Attempt::Full);
    // judged from the cursor as read, even if that is stale
    assert_eq!(list.data.try_bump(0x1000, 128, 1), Attempt::Raced(0x1016));
    assert_eq!(list.data.try_bump(0x1000, 129, 1), Attempt::Full);
    assert_eq!(chunks(&list), vec![(0x1000, 0x1016, 128)]);
}

#[test]
fn block_fetched_for_a_chunk_that_another_caller_appended_comes_back() {
    let mut list = BucketList::new(0x1000);
    assert_eq!(list.data.allocate(128, 1, None).ptr, Some(0x1000));
    // two callers find the chain full and fetch a block each
    assert_eq!(list.data.allocate(16, 8, None).ptr, None);
    assert_eq!(list.data.allocate(16, 8, None).ptr, None);
    let won = list.data.allocate(16, 8, Some(0x2000));
    let lost = list.data.allocate(16, 8, Some(0x3000));
    assert_eq!(won, Placement { ptr: Some(0x2000), spare: None });
    assert_eq!(lost, Placement { ptr: Some(0x2010), spare: Some(0x3000) });
    assert_eq!(chunks(&list), vec![(0x1000, 0x1080, 128), (0x2000, 0x2020, 128)]);
}

#[test]
fn typed_requests_use_size_and_alignment_of_the_type() {
    let mut list = BucketList::new(0x1000);
    assert_eq!(list.add::<u8>(None).ptr, Some(0x1000));
    assert_eq!(list.add::<u64>(None).ptr, Some(0x1008));
    assert_eq!(list.add::<u16>(None).ptr, Some(0x1010));
    assert_eq!(list.add_array(&vec![1u32, 2, 3], None).ptr, Some(0x1014));
    assert_eq!(list.add_slice(&[7u16, 8, 9][..], None).ptr, Some(0x1020));
    assert_eq!(list.add_str("héllo", None).ptr, Some(0x1026));
    assert_eq!(chunks(&list), vec![(0x1000, 0x102c, 128)]);
    let empty: Vec<u64> = Vec::new();
    assert_eq!(list.add_array(&empty, None).ptr, Some(0x1030));
}

#[test]
fn rows_without_bytes_are_served_at_the_cursor() {
    let mut list = BucketList::new(0x1000);
    let units = vec![(); 5];
    assert_eq!(list.add_array(&units, None).ptr, Some(0x1000));
    let wide: &[[u8; 1 << 20]] = &[];
    assert_eq!(list.add_slice(wide, None).ptr, Some(0x1000));
    assert_eq!(chunks(&list), vec![(0x1000, 0x1000, 128)]);
}

#[test]
fn list_admits_tells_overlap_and_overflow() {
    let mut list = BucketList::new(0x1000);
    list.data.allocate(300, 1, Some(0x3000));
    assert!(list.data.admits(0x1080, 0x100));
    assert!(!list.data.admits(0x107f, 0x100));
    assert!(!list.data.admits(0x2000, 0x1001));
    assert!(list.data.admits(0x2000, 0x1000));
    assert!(list.data.admits(0x3000 + 300, 8));
    assert!(!list.data.admits(0x3000 + 299, 8));
    assert!(!list.data.admits(usize::MAX - 3, 8));
}

#[test]
fn clear_rewinds_every_chunk_and_keeps_the_chain() {
    let mut list = BucketList::new(0x1000);
    list.data.allocate(100, 1, None);
    list.data.allocate(100, 1, Some(0x2000));
    list.data.allocate(500, 1, Some(0x3000));
    assert_eq!(chunks(&list).len(), 3);
    BucketList::clear(&mut list);
    assert_eq!(
        chunks(&list),
        vec![(0x1000, 0x1000, 128), (0x2000, 0x2000, 128), (0x3000, 0x3000, 500)]
    );
    assert_eq!(list.data.allocate(400, 1, None).ptr, Some(0x3000));
}

#[test]
fn dealloc_names_every_block_in_chain_order() {
    let mut list = BucketList::new(0x1000);
    list.data.allocate(100, 1, None);
    list.data.allocate(500, 1, Some(0x3000));
    list.data.allocate(100, 1, Some(0x2000));
    assert_eq!(
        BucketList::dealloc(list),
        vec![
            Block { begin: 0x1000, len: 128 },
            Block { begin: 0x3000, len: 500 },
            Block { begin: 0x2000, len: 128 },
        ]
    );
}

#[test]
fn eight_callers_race_for_cursor_and_tail() {
    let mut heap = Heap { next: 0x1000 };
    let mut list = BucketList::new(heap.fetch(BUCKET_SIZE, 8));
    let mut memory = vec![0u8; 1 << 20];
    let mut served: Vec<(usize, usize, usize)> = Vec::new();
    let mut spares = 0;
    for round in 0..1000 {
        // every caller asks without a block; those that find no room fetch
        // a block each before any of them gets to append
        let mut waiting: Vec<(usize, usize)> = Vec::new();
        for caller in 0..8 {
            match list.data.allocate(8, 8, None).ptr {
                Some(ptr) => served.push((ptr, caller, round)),
                None => waiting.push((caller, heap.fetch(chunk_size(8), 8))),
            }
        }
        for (caller, block) in waiting {
            assert!(list.data.admits(block, chunk_size(8)));
            let placed = list.data.allocate(8, 8, Some(block));
            if let Some(spare) = placed.spare {
                assert_eq!(spare, block);
                assert_ne!(placed.ptr, Some(block));
                spares += 1;
            } else {
                assert_eq!(placed.ptr, Some(block));
            }
            served.push((placed.ptr.unwrap(), caller, round));
        }
    }
    for (ptr, caller, round) in served.iter() {
        assert_eq!(ptr % 8, 0);
        for i in 0..8 {
            memory[ptr + i] = (caller * 31 + round + i) as u8;
        }
    }
    let all = chunks(&list);
    assert_eq!(all.len(), 500);
    assert_eq!(all.iter().map(|c| c.1 - c.0).sum::<usize>(), 64000);
    assert_eq!(spares, 499 * 7);
    let mut ptrs: Vec<usize> = served.iter().map(|s| s.0).collect();
    ptrs.sort();
    ptrs.dedup();
    assert_eq!(ptrs.len(), 8000);
    for (ptr, caller, round) in served {
        for i in 0..8 {
            assert_eq!(memory[ptr + i], (caller * 31 + round + i) as u8);
        }
    }
}
