use arena_alloc::arena::TypedArena;
use arena_alloc::leak::LeakArena;

#[test]
fn test_leak_arena_basic() {
    let mut arena = LeakArena::new(1024);

    let val = arena.alloc_slice_copy(&[42]).unwrap();
    assert_eq!(arena.read_bytes(val, 1).unwrap(), vec![42]);

    let s = arena.alloc_str("hello").unwrap();
    assert_eq!(arena.read_bytes(s, 5).unwrap().as_slice(), b"hello");

    let slice = arena.alloc_slice_copy(&[1, 2, 3]).unwrap();
    assert_eq!(arena.read_bytes(slice, 3).unwrap(), vec![1, 2, 3]);
}

#[test]
fn test_leak_arena_complex_types() {
    let mut arena = LeakArena::new(1024);

    let _vec = arena.alloc_slice_copy(&[1, 2, 3]).unwrap();
    let _string = arena.alloc_str("test").unwrap();

    // many small allocations in a row
    for i in 0..100 {
        let _val = arena.alloc_slice_copy(&[i as u8]).unwrap();
    }

    // when this test ends the arena is dropped; nothing was ever
    // reclaimed before that, by design
}

#[test]
fn test_alignment() {
    let mut arena = LeakArena::new(1024);

    let _byte = arena.alloc_bytes(1, 1).unwrap();
    let _word = arena.alloc_bytes(4, 4).unwrap();
    let _double = arena.alloc_bytes(8, 8).unwrap();

    let byte_ptr = arena.alloc_bytes(1, 1).unwrap();
    let word_ptr = arena.alloc_bytes(4, 4).unwrap();
    let double_ptr = arena.alloc_bytes(8, 8).unwrap();

    assert_eq!(byte_ptr % 1, 0);
    assert_eq!(word_ptr % 4, 0);
    assert_eq!(double_ptr % 8, 0);
}

#[test]
fn leak_arena_oversized_request_fails() {
    let mut arena = LeakArena::new(4);
    assert!(arena.alloc_bytes(8, 1).is_err());
    assert!(arena.alloc_bytes(4, 1).is_ok());
}

#[test]
fn leak_arena_abandons_chunk_remainder() {
    let mut arena = LeakArena::new(8);
    let a = arena.alloc_slice_copy(b"abcdef").unwrap();
    // 2 bytes are left in the first chunk; this request starts a new one
    let b = arena.alloc_slice_copy(b"wxyz").unwrap();
    assert_eq!(arena.chunk_count(), 2);
    assert_eq!(b, 8);
    // the abandoned chunk's contents stay readable
    assert_eq!(arena.read_bytes(a, 6).unwrap().as_slice(), b"abcdef");
    assert_eq!(arena.read_bytes(b, 4).unwrap().as_slice(), b"wxyz");
}

#[test]
fn leaked_arena_reads_back() {
    let mut leaked = TypedArena::<u32>::new(2).leak();
    let a = leaked.alloc_value(3);
    assert_eq!(leaked.get(a), Some(&3));
    TypedArena::recover(leaked);
}
