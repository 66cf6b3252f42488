use arena_alloc::bucket_array::{round_up, Bucket, BucketArray, BUCKET_ALIGN, BUCKET_SIZE};
use arena_alloc::chunk::{Block, Placement};

/// Serves a request the way a caller with a system allocator does: without a
/// block first, and with one of the length the arena names if that fails.
fn serve(arena: &mut BucketArray, next_block: &mut usize, size: usize) -> usize {
    let first = arena.add_unsafe(size, None);
    if let Some(ptr) = first.ptr {
        assert_eq!(first.spare, None);
        return ptr;
    }
    let len = arena.chunk_size(size).unwrap();
    let block = *next_block;
    *next_block += (len + 0xffff) / 0x10000 * 0x10000;
    assert!(arena.admits(block, len));
    let second = arena.add_unsafe(size, Some(block));
    assert_eq!(second.spare, None);
    assert_eq!(second.ptr, Some(block));
    block
}

#[test]
fn round_up_goes_to_the_next_multiple_of_sixteen() {
    assert_eq!(round_up(0), 0);
    assert_eq!(round_up(1), 16);
    assert_eq!(round_up(15), 16);
    assert_eq!(round_up(16), 16);
    assert_eq!(round_up(17), 32);
    assert_eq!(round_up(200), 208);
    assert_eq!(round_up(usize::MAX - 15), usize::MAX - 15);
}

#[test]
fn new_arena_has_one_empty_standard_chunk() {
    let arena = BucketArray::new(0x100000);
    assert_eq!(BUCKET_SIZE, 1024 * 1024);
    assert_eq!(arena.bucket_size, BUCKET_SIZE);
    assert_eq!(arena.buckets, vec![Bucket { begin: 0x100000, end: 0x100000, capacity: BUCKET_SIZE }]);
}

#[test]
fn ten_objects_of_200_bytes_take_three_chunks_of_1024() {
    let mut arena = BucketArray::with_capacity(1024, 0x10000);
    let mut next_block = 0x20000;
    let mut ptrs = Vec::new();
    for _ in 0..10 {
        ptrs.push(serve(&mut arena, &mut next_block, 200));
    }
    assert_eq!(
        ptrs,
        vec![0x10000, 0x100d0, 0x101a0, 0x10270, 0x20000, 0x200d0, 0x201a0, 0x20270, 0x30000, 0x300d0]
    );
    assert_eq!(
        arena.buckets,
        vec![
            Bucket { begin: 0x10000, end: 0x10340, capacity: 1024 },
            Bucket { begin: 0x20000, end: 0x20340, capacity: 1024 },
            Bucket { begin: 0x30000, end: 0x301a0, capacity: 1024 },
        ]
    );
}

#[test]
fn the_same_requests_give_the_same_chunks_again() {
    let mut counts = Vec::new();
    for _ in 0..2 {
        let mut arena = BucketArray::with_capacity(1024, 0x10000);
        let mut next_block = 0x20000;
        for _ in 0..10 {
            serve(&mut arena, &mut next_block, 200);
        }
        counts.push(arena.buckets.len());
    }
    assert_eq!(counts, vec![3, 3]);
}

#[test]
fn regions_are_disjoint_and_aligned() {
    let mut arena = BucketArray::with_capacity(256, 0x4000);
    let mut next_block = 0x10000;
    let sizes = [1usize, 7, 16, 33, 100, 250, 3, 300, 64, 0, 129, 128, 5];
    let mut served: Vec<(usize, usize)> = Vec::new();
    let mut chunks_before = arena.buckets.len();
    for size in sizes {
        let ptr = serve(&mut arena, &mut next_block, size);
        assert_eq!(ptr % BUCKET_ALIGN, 0);
        assert!(arena.buckets.len() >= chunks_before);
        chunks_before = arena.buckets.len();
        served.push((ptr, size));
    }
    for (i, a) in served.iter().enumerate() {
        for b in served.iter().skip(i + 1) {
            assert!(a.1 == 0 || b.1 == 0 || a.0 + a.1 <= b.0 || b.0 + b.1 <= a.0);
        }
    }
    for bucket in arena.buckets.iter() {
        assert!(bucket.begin <= bucket.end);
        assert!(bucket.end - bucket.begin <= bucket.capacity);
    }
}

#[test]
fn oversized_request_gets_its_own_chunk_in_front_of_the_last() {
    let mut arena = BucketArray::with_capacity(1024, 0x10000);
    assert_eq!(arena.add_unsafe(100, None).ptr, Some(0x10000));
    assert_eq!(arena.chunk_size(2000), Some(2000));
    let placed = arena.add_unsafe(2000, Some(0x40000));
    assert_eq!(placed, Placement { ptr: Some(0x40000), spare: None });
    assert_eq!(
        arena.buckets,
        vec![
            Bucket { begin: 0x40000, end: 0x40000 + 2000, capacity: 2000 },
            Bucket { begin: 0x10000, end: 0x10070, capacity: 1024 },
        ]
    );
    // the last chunk goes on serving
    assert_eq!(arena.add_unsafe(100, None).ptr, Some(0x10070));
}

#[test]
fn oversized_size_is_rounded_too() {
    let mut arena = BucketArray::with_capacity(1024, 0x10000);
    assert_eq!(arena.chunk_size(1025), Some(1040));
    let placed = arena.add_unsafe(1025, Some(0x40000));
    assert_eq!(placed.ptr, Some(0x40000));
    assert_eq!(arena.buckets[0], Bucket { begin: 0x40000, end: 0x40000 + 1040, capacity: 1040 });
}

#[test]
fn request_without_room_and_without_block_fails_and_changes_nothing() {
    let mut arena = BucketArray::with_capacity(64, 0x10000);
    assert_eq!(arena.add_unsafe(64, None).ptr, Some(0x10000));
    let before = arena.buckets.clone();
    assert_eq!(arena.add_unsafe(1, None), Placement { ptr: None, spare: None });
    assert_eq!(arena.add_unsafe(1000, None), Placement { ptr: None, spare: None });
    assert_eq!(arena.buckets, before);
}

#[test]
fn block_that_is_not_needed_comes_back() {
    let mut arena = BucketArray::with_capacity(64, 0x10000);
    let placed = arena.add_unsafe(10, Some(0x20000));
    assert_eq!(placed, Placement { ptr: Some(0x10000), spare: Some(0x20000) });
    assert_eq!(arena.buckets.len(), 1);
}

#[test]
fn request_too_large_to_round_is_not_served() {
    let mut arena = BucketArray::with_capacity(64, 0x10000);
    assert_eq!(arena.chunk_size(usize::MAX), None);
    assert_eq!(arena.add_unsafe(usize::MAX, None), Placement { ptr: None, spare: None });
    assert_eq!(arena.buckets.len(), 1);
}

#[test]
fn zero_bytes_are_served_at_the_cursor() {
    let mut arena = BucketArray::with_capacity(64, 0x10000);
    assert_eq!(arena.add_unsafe(5, None).ptr, Some(0x10000));
    assert_eq!(arena.add_unsafe(0, None).ptr, Some(0x10010));
    assert_eq!(arena.buckets[0].end, 0x10010);
}

#[test]
fn typed_requests_take_the_size_of_the_type() {
    let mut arena = BucketArray::with_capacity(1024, 0x10000);
    assert_eq!(arena.add::<u64>(None).ptr, Some(0x10000));
    assert_eq!(arena.add::<[u8; 17]>(None).ptr, Some(0x10010));
    assert_eq!(arena.add_str("hello, arena", None).ptr, Some(0x10030));
    assert_eq!(arena.add_array(&vec![1u32, 2, 3, 4, 5], None).ptr, Some(0x10040));
    assert_eq!(arena.add::<u8>(None).ptr, Some(0x10060));
    assert_eq!(arena.buckets[0].end, 0x10070);
}

#[test]
fn array_admits_tells_overlap_and_overflow() {
    let mut arena = BucketArray::with_capacity(0x100, 0x1000);
    arena.add_unsafe(0x200, Some(0x3000));
    assert!(arena.admits(0x2000, 0x1000));
    assert!(arena.admits(0x1100, 0x100));
    assert!(!arena.admits(0x10ff, 0x100));
    assert!(!arena.admits(0x3100, 0x10));
    assert!(!arena.admits(0x0, 0x1001));
    assert!(arena.admits(0x1010, 0));
    assert!(!arena.admits(usize::MAX, 1));
    assert!(arena.admits(usize::MAX - 1, 1));
}

#[test]
fn drop_names_every_block() {
    let mut arena = BucketArray::with_capacity(1024, 0x10000);
    arena.add_unsafe(1000, None);
    arena.add_unsafe(5000, Some(0x40000));
    arena.add_unsafe(100, Some(0x20000));
    let blocks = arena.drop();
    assert_eq!(
        blocks,
        vec![
            Block { begin: 0x40000, len: 5008 },
            Block { begin: 0x10000, len: 1024 },
            Block { begin: 0x20000, len: 1024 },
        ]
    );
}

#[test]
fn clear_leaves_an_arena_without_chunks_that_can_start_again() {
    let mut arena = BucketArray::with_capacity(1024, 0x10000);
    arena.add_unsafe(1000, None);
    arena.add_unsafe(100, Some(0x20000));
    let (mut arena, blocks) = arena.clear();
    assert_eq!(
        blocks,
        vec![Block { begin: 0x10000, len: 1024 }, Block { begin: 0x20000, len: 1024 }]
    );
    assert_eq!(arena.buckets.len(), 0);
    assert_eq!(arena.bucket_size, 1024);
    assert_eq!(arena.add_unsafe(8, None).ptr, None);
    assert_eq!(arena.add_unsafe(8, Some(0x10000)).ptr, Some(0x10000));
    assert_eq!(arena.buckets, vec![Bucket { begin: 0x10000, end: 0x10010, capacity: 1024 }]);
}
