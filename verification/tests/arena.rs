use arenalloc::arena::Arena;
use arenalloc::arena::MallocError;
use arenalloc::arena::DEFAULT_BUCKET_CAPACITY;
use arenalloc::bucket::CapacityError;
use arenalloc::bucket::RawAllocError;
use arenalloc::region::Region;

fn write_u64(arena: &mut Arena, region: &Region, value: u64) {
    let bytes = value.to_le_bytes();
    for (at, byte) in bytes.iter().enumerate() {
        assert!(arena.write(region, at, *byte));
    }
}

fn read_u64(arena: &Arena, region: &Region) -> u64 {
    let mut bytes = [0u8; 8];
    for (at, byte) in bytes.iter_mut().enumerate() {
        *byte = arena.read(region, at).unwrap();
    }
    u64::from_le_bytes(bytes)
}

#[test]
fn test_arena() {
    let mut arena = Arena::new().unwrap();

    let alloc = arena.malloc::<u8>(512).unwrap();
    assert!(arena.write(&alloc, 0, 20));

    let alloc2 = arena.malloc::<u64>(1024 / 8).unwrap();
    write_u64(&mut arena, &alloc2, 1);

    let alloc3 = arena.malloc::<u8>(1).unwrap();
    assert!(arena.write(&alloc3, 0, 1));

    assert_eq!(arena.read(&alloc, 0).unwrap(), 20);
    assert_eq!(read_u64(&arena, &alloc2), 1);
    assert_eq!(arena.read(&alloc3, 0).unwrap(), 1);

    assert_eq!(arena.index(), 2);
    assert_eq!(arena.bucket_count(), 3);
}

#[test]
fn new_arena_has_one_unused_bucket_of_the_default_capacity() {
    let arena = Arena::new().unwrap();
    assert_eq!(arena.bucket_count(), 1);
    assert_eq!(arena.index(), 0);
    assert_eq!(DEFAULT_BUCKET_CAPACITY, 512);
    assert_eq!(arena.bucket_size(), 512);
    let bucket = arena.last_bucket().unwrap();
    assert_eq!(bucket.capacity(), 512);
    assert_eq!(bucket.cursor(), 0);
    assert!(!bucket.is_full());
    assert_eq!(bucket.base() % core::mem::align_of::<usize>(), 0);
}

#[test]
fn growth_of_a_new_arena_gives_buckets_of_1024_and_2048_bytes() {
    let mut arena = Arena::new().unwrap();
    assert_eq!(arena.grow(), Ok(()));
    assert_eq!((arena.bucket_count(), arena.index(), arena.bucket_size()), (2, 1, 1024));
    assert_eq!(arena.grow(), Ok(()));
    assert_eq!((arena.bucket_count(), arena.index(), arena.bucket_size()), (3, 2, 2048));
    assert_eq!(arena.last_bucket().unwrap().cursor(), 0);
}

#[test]
fn region_that_asks_for_nothing_leaves_the_arena() {
    let mut arena = Arena::new().unwrap();
    let out = arena.region(|_scope| 7);
    assert_eq!(out, 7);
    assert_eq!((arena.bucket_count(), arena.index()), (1, 0));
    assert_eq!(arena.last_bucket().unwrap().cursor(), 0);
}

#[test]
fn arena_with_a_chosen_capacity_has_no_bucket_until_it_is_asked() {
    let mut arena = Arena::with_bucket_capacity(64);
    assert_eq!(arena.bucket_count(), 0);
    assert_eq!(arena.index(), 0);
    assert_eq!(arena.bucket_size(), 64);
    assert!(arena.last_bucket().is_none());
    let region = arena.malloc::<u8>(1).unwrap();
    assert_eq!((region.bucket(), region.offset(), region.len()), (0, 0, 1));
    assert_eq!((arena.bucket_count(), arena.index(), arena.bucket_size()), (1, 0, 64));
}

#[test]
fn first_request_is_served_by_the_first_bucket() {
    let mut arena = Arena::new().unwrap();
    let region = arena.malloc::<u8>(1).unwrap();
    assert_eq!(region.bucket(), 0);
    assert_eq!(region.offset(), 0);
    assert_eq!(region.len(), 1);
    assert_eq!(arena.bucket_count(), 1);
    assert_eq!(arena.index(), 0);
    assert_eq!(arena.bucket_size(), 512);
    let bucket = arena.last_bucket().unwrap();
    assert_eq!(bucket.capacity(), 512);
    assert_eq!(bucket.cursor(), 1);
    assert_eq!(region.addr(), bucket.base());
}

#[test]
fn three_bytes_take_offsets_zero_one_two_without_growth() {
    let mut arena = Arena::new().unwrap();
    let a = arena.malloc::<u8>(1).unwrap();
    let b = arena.malloc::<u8>(1).unwrap();
    let c = arena.malloc::<u8>(1).unwrap();
    assert_eq!((a.bucket(), a.offset(), a.len()), (0, 0, 1));
    assert_eq!((b.bucket(), b.offset(), b.len()), (0, 1, 1));
    assert_eq!((c.bucket(), c.offset(), c.len()), (0, 2, 1));
    assert_eq!(b.addr(), a.addr() + 1);
    assert_eq!(c.addr(), a.addr() + 2);
    assert_eq!(arena.bucket_count(), 1);
    assert_eq!(arena.index(), 0);
}

#[test]
fn word_after_byte_in_eight_byte_bucket_goes_to_a_new_bucket() {
    let mut arena = Arena::with_bucket_capacity(8);
    let byte = arena.malloc::<u8>(1).unwrap();
    assert_eq!((byte.bucket(), byte.offset(), byte.len()), (0, 0, 1));
    assert_eq!(byte.addr() % 8, 0);
    assert_eq!(arena.bucket_count(), 1);

    let word = arena.malloc::<u64>(1).unwrap();
    assert_eq!((word.bucket(), word.offset(), word.len()), (1, 0, 8));
    assert_eq!(word.addr() % 8, 0);
    assert_eq!(arena.bucket_count(), 2);
    assert_eq!(arena.index(), 1);
    assert_eq!(arena.bucket_size(), 16);
    assert_eq!(arena.last_bucket().unwrap().cursor(), 8);
}

#[test]
fn growth_doubles_the_capacity_each_time() {
    let mut arena = Arena::with_bucket_capacity(4);
    let mut expected = 4;
    for round in 0..6 {
        let region = arena.malloc::<u8>(expected).unwrap();
        assert_eq!(region.bucket(), round);
        assert_eq!(region.offset(), 0);
        assert_eq!(arena.bucket_count(), round + 1);
        assert_eq!(arena.bucket_size(), expected);
        assert!(arena.last_bucket().unwrap().is_full());
        expected *= 2;
    }
    assert_eq!(expected, 256);
}

#[test]
fn request_beyond_the_doubled_bucket_fails_and_the_bucket_stays() {
    let mut arena = Arena::with_bucket_capacity(8);
    arena.malloc::<u8>(8).unwrap();
    assert_eq!(arena.bucket_count(), 1);

    let result = arena.malloc::<u8>(17);
    assert_eq!(result, Err(MallocError::Capacity(CapacityError)));
    assert_eq!(arena.bucket_count(), 2);
    assert_eq!(arena.index(), 1);
    assert_eq!(arena.bucket_size(), 16);
    assert_eq!(arena.last_bucket().unwrap().cursor(), 0);

    let fitting = arena.malloc::<u8>(16).unwrap();
    assert_eq!((fitting.bucket(), fitting.offset(), fitting.len()), (1, 0, 16));
    assert_eq!(arena.bucket_count(), 2);
}

#[test]
fn request_beyond_the_first_bucket_of_an_empty_arena_grows_twice() {
    let mut arena = Arena::with_bucket_capacity(8);
    let region = arena.malloc::<u8>(12).unwrap();
    assert_eq!((region.bucket(), region.offset(), region.len()), (1, 0, 12));
    assert_eq!(arena.bucket_count(), 2);
    assert_eq!(arena.bucket_size(), 16);
}

#[test]
fn byte_count_beyond_usize_is_a_capacity_error() {
    let mut arena = Arena::with_bucket_capacity(8);
    let result = arena.malloc::<u64>(usize::MAX);
    assert_eq!(result, Err(MallocError::Capacity(CapacityError)));
    assert_eq!(arena.bucket_count(), 2);
}

#[test]
fn first_capacity_that_is_no_valid_size_is_a_raw_alloc_error() {
    let mut arena = Arena::with_bucket_capacity(usize::MAX);
    let result = arena.malloc::<u8>(1);
    assert_eq!(result, Err(MallocError::RawAlloc(RawAllocError)));
    assert_eq!(arena.bucket_count(), 0);
    assert_eq!(arena.grow(), Err(RawAllocError));
    assert_eq!(arena.bucket_count(), 0);
}

#[test]
fn grow_appends_one_bucket_and_makes_it_active() {
    let mut arena = Arena::with_bucket_capacity(32);
    assert_eq!(arena.grow(), Ok(()));
    assert_eq!((arena.bucket_count(), arena.index(), arena.bucket_size()), (1, 0, 32));
    assert_eq!(arena.grow(), Ok(()));
    assert_eq!((arena.bucket_count(), arena.index(), arena.bucket_size()), (2, 1, 64));
    assert_eq!(arena.grow(), Ok(()));
    assert_eq!((arena.bucket_count(), arena.index(), arena.bucket_size()), (3, 2, 128));
}

#[test]
fn empty_request_is_served_without_moving_an_aligned_cursor() {
    let mut arena = Arena::new().unwrap();
    let first = arena.malloc::<u64>(1).unwrap();
    let empty = arena.malloc::<u64>(0).unwrap();
    assert_eq!((empty.bucket(), empty.offset(), empty.len()), (0, 8, 0));
    assert_eq!(empty.addr(), first.addr() + 8);
    assert_eq!(arena.last_bucket().unwrap().cursor(), 8);
    assert_eq!(arena.bucket_count(), 1);
}

#[test]
fn empty_request_moves_the_cursor_by_the_padding_only() {
    let mut arena = Arena::new().unwrap();
    arena.malloc::<u8>(3).unwrap();
    let empty = arena.malloc::<u32>(0).unwrap();
    assert_eq!((empty.bucket(), empty.offset(), empty.len()), (0, 4, 0));
    assert_eq!(arena.last_bucket().unwrap().cursor(), 4);
}

#[test]
fn empty_request_on_a_full_bucket_needs_no_growth() {
    let mut arena = Arena::with_bucket_capacity(8);
    arena.malloc::<u8>(8).unwrap();
    let empty = arena.malloc::<u8>(0).unwrap();
    assert_eq!((empty.bucket(), empty.offset(), empty.len()), (0, 8, 0));
    assert_eq!(arena.bucket_count(), 1);
}

#[test]
fn regions_of_a_run_are_aligned_and_do_not_overlap() {
    let mut arena = Arena::with_bucket_capacity(16);
    let mut regions: Vec<(Region, usize)> = Vec::new();
    for round in 0..40 {
        let (region, align) = match round % 4 {
            0 => (arena.malloc::<u8>(round % 7), 1),
            1 => (arena.malloc::<u16>(round % 5), 2),
            2 => (arena.malloc::<u32>(round % 3), 4),
            _ => (arena.malloc::<u64>(round % 6), 8),
        };
        regions.push((region.unwrap(), align));
    }
    for (i, (a, align)) in regions.iter().enumerate() {
        assert_eq!(a.addr() % align, 0);
        assert!(arena.holds(a));
        for (b, _) in regions.iter().skip(i + 1) {
            assert!(a.bucket() <= b.bucket());
            if a.bucket() == b.bucket() {
                assert!(a.offset() + a.len() <= b.offset());
                assert!(a.addr() + a.len() <= b.addr());
            }
        }
    }
}

#[test]
fn storage_starts_as_zeroes_and_keeps_what_is_written() {
    let mut arena = Arena::new().unwrap();
    let region = arena.malloc::<u8>(4).unwrap();
    for at in 0..4 {
        assert_eq!(arena.read(&region, at), Some(0));
    }
    assert!(arena.write(&region, 2, 0xab));
    let other = arena.malloc::<u32>(200).unwrap();
    assert_eq!(other.bucket(), 1);
    assert!(arena.write(&other, 799, 0xcd));
    assert_eq!(arena.read(&region, 2), Some(0xab));
    assert_eq!(arena.read(&region, 1), Some(0));
    assert_eq!(arena.read(&region, 3), Some(0));
    assert_eq!(arena.read(&other, 799), Some(0xcd));
    assert_eq!(arena.read(&other, 0), Some(0));
}

#[test]
fn bytes_outside_a_region_are_out_of_reach() {
    let mut arena = Arena::new().unwrap();
    let region = arena.malloc::<u8>(4).unwrap();
    assert_eq!(arena.read(&region, 4), None);
    assert!(!arena.write(&region, 4, 1));
    assert_eq!(arena.read(&region, usize::MAX), None);
    assert!(arena.holds(&region));
    assert_eq!(arena.read(&region, 3), Some(0));
}

#[test]
fn region_of_another_arena_is_not_held() {
    let mut arena = Arena::new().unwrap();
    let mut other = Arena::new().unwrap();
    arena.malloc::<u8>(4).unwrap();
    other.malloc::<u8>(100).unwrap();
    let foreign = other.malloc::<u8>(4).unwrap();
    assert_eq!(foreign.offset(), 100);
    assert!(other.holds(&foreign));
    assert!(!arena.holds(&foreign));
    assert_eq!(arena.read(&foreign, 0), None);
    assert!(!arena.write(&foreign, 0, 1));

    let empty = Arena::new().unwrap();
    assert!(!empty.holds(&foreign));
    assert_eq!(empty.read(&foreign, 0), None);
}

#[test]
fn region_runs_the_closure_once_and_returns_its_value() {
    let mut arena = Arena::new().unwrap();
    let mut runs = 0;
    let out = arena.region(|mut scope| {
        runs += 1;
        let a = scope.malloc::<u8>(1).unwrap();
        let b = scope.malloc::<u8>(1).unwrap();
        (a.offset(), b.offset())
    });
    assert_eq!(runs, 1);
    assert_eq!(out, (0, 1));
    assert_eq!(arena.bucket_count(), 1);
    assert_eq!(arena.last_bucket().unwrap().cursor(), 2);
}

#[test]
fn scope_requests_reach_the_arena() {
    let mut arena = Arena::with_bucket_capacity(8);
    let results = arena.region(|mut scope| {
        let byte = scope.malloc::<u8>(1);
        let word = scope.malloc::<u64>(1);
        let huge = scope.malloc::<u8>(1000);
        (byte, word, huge)
    });
    let byte = results.0.unwrap();
    let word = results.1.unwrap();
    assert_eq!((byte.bucket(), byte.offset()), (0, 0));
    assert_eq!((word.bucket(), word.offset()), (1, 0));
    assert_eq!(results.2, Err(MallocError::Capacity(CapacityError)));
    assert_eq!(arena.bucket_count(), 3);
    assert_eq!(arena.bucket_size(), 32);
}

#[test]
fn arenas_can_be_used_one_region_after_another() {
    let mut arena = Arena::new().unwrap();
    let first = arena.region(|mut scope| scope.malloc::<u32>(2).unwrap());
    let second = arena.region(|mut scope| scope.malloc::<u32>(2).unwrap());
    assert_eq!((first.offset(), first.len()), (0, 8));
    assert_eq!((second.offset(), second.len()), (8, 8));
}

#[test]
fn arena_of_empty_buckets_serves_only_empty_requests() {
    let mut arena = Arena::with_bucket_capacity(0);
    let empty = arena.malloc::<u8>(0).unwrap();
    assert_eq!((empty.bucket(), empty.offset(), empty.len()), (0, 0, 0));
    assert_eq!(arena.bucket_count(), 1);
    assert_eq!(arena.bucket_size(), 0);

    assert_eq!(arena.malloc::<u8>(1), Err(MallocError::Capacity(CapacityError)));
    assert_eq!(arena.bucket_count(), 2);
    assert_eq!(arena.bucket_size(), 0);
    assert_eq!(arena.malloc::<u8>(1), Err(MallocError::Capacity(CapacityError)));
    assert_eq!(arena.bucket_count(), 3);
}

#[test]
fn empty_word_request_in_an_arena_of_empty_buckets_is_served() {
    let mut arena = Arena::with_bucket_capacity(0);
    let region = arena.malloc::<usize>(0).unwrap();
    assert_eq!((region.bucket(), region.offset(), region.len()), (0, 0, 0));
    assert_eq!(region.addr() % core::mem::align_of::<usize>(), 0);
    assert_eq!(arena.bucket_count(), 1);
    let again = arena.malloc::<usize>(0).unwrap();
    assert_eq!((again.bucket(), again.offset(), again.len()), (0, 0, 0));
    assert_eq!(arena.bucket_count(), 1);
}

#[test]
fn empty_request_needs_room_for_its_padding() {
    let mut arena = Arena::with_bucket_capacity(0);
    assert_eq!(arena.grow(), Ok(()));
    let aligned_before = arena.last_bucket().unwrap().base() % 16 == 0;
    let result = arena.malloc::<u128>(0);
    if aligned_before {
        let region = result.unwrap();
        assert_eq!((region.bucket(), region.offset(), region.len()), (0, 0, 0));
        assert_eq!(arena.bucket_count(), 1);
    } else {
        assert_eq!(arena.bucket_count(), 2);
        let aligned_after = arena.last_bucket().unwrap().base() % 16 == 0;
        match result {
            Ok(region) => {
                assert!(aligned_after);
                assert_eq!((region.bucket(), region.offset(), region.len()), (1, 0, 0));
            },
            Err(e) => {
                assert!(!aligned_after);
                assert_eq!(e, MallocError::Capacity(CapacityError));
            },
        }
    }
}

#[test]
fn capacity_of_each_bucket_is_the_first_doubled_by_its_index() {
    let mut arena = Arena::with_bucket_capacity(3);
    for index in 0..10 {
        assert_eq!(arena.grow(), Ok(()));
        assert_eq!(arena.index(), index);
        assert_eq!(arena.bucket_size(), 3 << index);
        assert_eq!(arena.last_bucket().unwrap().capacity(), 3 << index);
    }
    assert_eq!(arena.bucket_count(), 10);
}

#[test]
fn write_to_one_region_leaves_the_others() {
    let mut arena = Arena::with_bucket_capacity(16);
    let a = arena.malloc::<u8>(4).unwrap();
    let b = arena.malloc::<u8>(4).unwrap();
    let c = arena.malloc::<u16>(8).unwrap();
    for at in 0..4 {
        assert!(arena.write(&a, at, 0x11));
        assert!(arena.write(&b, at, 0x22));
    }
    for at in 0..16 {
        assert!(arena.write(&c, at, 0x33));
    }
    for at in 0..4 {
        assert!(arena.write(&b, at, 0x44));
    }
    for at in 0..4 {
        assert_eq!(arena.read(&a, at), Some(0x11));
        assert_eq!(arena.read(&b, at), Some(0x44));
    }
    for at in 0..16 {
        assert_eq!(arena.read(&c, at), Some(0x33));
    }
    assert_eq!((c.bucket(), c.offset(), c.len()), (1, 0, 16));
}

#[test]
fn arena_of_empty_buckets_always_grows() {
    let mut arena = Arena::with_bucket_capacity(0);
    for count in 1..50 {
        assert_eq!(arena.grow(), Ok(()));
        assert_eq!(arena.bucket_count(), count);
        assert_eq!(arena.index(), count - 1);
        assert_eq!(arena.bucket_size(), 0);
        assert_eq!(arena.last_bucket().unwrap().cursor(), 0);
    }
}

#[test]
fn failed_growth_changes_nothing() {
    let mut arena = Arena::with_bucket_capacity(isize::MAX as usize / 2 + 1);
    assert_eq!(arena.grow(), Err(RawAllocError));
    assert_eq!((arena.bucket_count(), arena.index()), (0, 0));
    assert_eq!(arena.bucket_size(), isize::MAX as usize / 2 + 1);
    assert!(arena.last_bucket().is_none());
}
