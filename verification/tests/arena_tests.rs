use std::cell::Cell;

use arena_alloc::arena::{DroplessArena, TypedArena};
use arena_alloc::layout::Layout;

struct DropCounter<'a>(&'a Cell<usize>);

impl<'a> Drop for DropCounter<'a> {
    fn drop(&mut self) {
        let v = self.0.get();
        self.0.set(v + 1);
    }
}

struct DroppableString<'a> {
    counter: &'a Cell<usize>,
    _s: String,
}

impl<'a> Drop for DroppableString<'a> {
    fn drop(&mut self) {
        self.counter.set(self.counter.get() + 1);
    }
}

struct InnerDropCounter<'a>(&'a Cell<usize>);

impl<'a> Drop for InnerDropCounter<'a> {
    fn drop(&mut self) {
        self.0.set(self.0.get() + 1);
    }
}

struct DroppableContainer<'a> {
    counter: &'a Cell<usize>,
    _s: String,
    _v: Vec<InnerDropCounter<'a>>,
}

impl<'a> Drop for DroppableContainer<'a> {
    fn drop(&mut self) {
        self.counter.set(self.counter.get() + 1);
    }
}

#[test]
fn dropless_arena_basic() {
    let mut arena = DroplessArena::new(1024);
    let slice = arena.alloc_bytes(b"HelloWorld");
    let str_addr = arena.alloc_str("HelloWorld");
    assert_eq!(arena.read_bytes(slice, 10).unwrap().as_slice(), b"HelloWorld");
    assert_eq!(arena.read_bytes(str_addr, 10).unwrap().as_slice(), b"HelloWorld");
}

#[test]
fn dropless_arena_multiple_chunks() {
    let mut arena = DroplessArena::new(8);
    let first = arena.alloc_bytes(b"ABCDEFGH");
    let second = arena.alloc_bytes(b"IJKLMNOP");
    assert_eq!(arena.read_bytes(first, 8).unwrap().as_slice(), b"ABCDEFGH");
    assert_eq!(arena.read_bytes(second, 8).unwrap().as_slice(), b"IJKLMNOP");
    assert_eq!(arena.chunk_count(), 2);
    assert_ne!(arena.read_bytes(first, 8), arena.read_bytes(second, 8));
}

#[test]
fn typed_arena_drop() {
    let counter = Cell::new(0usize);
    {
        let mut arena = TypedArena::new(4);
        let _ = arena.try_alloc(DropCounter(&counter)).unwrap();
        let _ = arena.try_alloc(DropCounter(&counter)).unwrap();
        assert_eq!(counter.get(), 0);
        drop(arena);
    }
    assert_eq!(counter.get(), 2);
}

#[test]
fn typed_arena_multiple_chunks() {
    let mut arena = TypedArena::new(1);
    let a = arena.try_alloc(1u32).unwrap();
    let b = arena.try_alloc(2u32).unwrap();
    assert_eq!((*arena.get(a).unwrap(), *arena.get(b).unwrap()), (1, 2));
    assert_eq!(arena.chunk_count(), 2);
}

#[test]
fn typed_arena_zero_sized() {
    let mut arena = TypedArena::new(1);
    let a = arena.try_alloc(()).unwrap();
    let b = arena.try_alloc(()).unwrap();
    assert_eq!((*arena.get(a).unwrap(), *arena.get(b).unwrap()), ((), ()));
}

#[test]
fn typed_arena_alloc_slice() {
    let mut arena = TypedArena::new(4);
    let addr = arena.alloc_slice(&[1u32, 2u32]);
    let got: Vec<u32> = (0..2).map(|i| *arena.get(addr + i).unwrap()).collect();
    assert_eq!(got, vec![1, 2]);
}

#[test]
fn typed_arena_leak_recover() {
    let string_drops = Cell::new(0usize);
    let mut string_arena = TypedArena::<DroppableString>::new(1).leak();
    string_arena.alloc_value(DroppableString {
        counter: &string_drops,
        _s: String::from("hello"),
    });
    TypedArena::recover(string_arena);
    assert_eq!(string_drops.get(), 1);

    let drop_count = Cell::new(0usize);
    let container_drops = Cell::new(0usize);
    let mut container_arena = TypedArena::<DroppableContainer>::new(1).leak();
    container_arena.alloc_value(DroppableContainer {
        counter: &container_drops,
        _s: String::from("world"),
        _v: vec![InnerDropCounter(&drop_count)],
    });
    TypedArena::recover(container_arena);
    assert_eq!(drop_count.get(), 1);
    assert_eq!(container_drops.get(), 1);
}

#[test]
fn dropless_tail_reclaim_and_noop() {
    let mut arena = DroplessArena::new(16);
    let a = arena.alloc_bytes(b"abcd");
    let b = arena.alloc_bytes(b"ef");
    // the tail block is reclaimed: the next allocation reuses its address
    arena.deallocate(b, Layout::from_size_align(2, 1));
    let c = arena.alloc_bytes(b"gh");
    assert_eq!(c, b);
    // a non-tail block is left alone
    arena.deallocate(a, Layout::from_size_align(4, 1));
    let d = arena.alloc_bytes(b"ij");
    assert_eq!(d, c + 2);
    assert_eq!(arena.read_bytes(a, 4).unwrap().as_slice(), b"abcd");
}

#[test]
fn dropless_grow_in_place_zero_fills() {
    let mut arena = DroplessArena::new(16);
    let a = arena.alloc_bytes(b"abcd");
    let grown = arena
        .grow(a, Layout::from_size_align(4, 1), Layout::from_size_align(8, 1))
        .unwrap();
    assert_eq!(grown, a);
    assert_eq!(arena.read_bytes(a, 8).unwrap().as_slice(), b"abcd\0\0\0\0");
}

#[test]
fn dropless_grow_relocates_and_keeps_data() {
    let mut arena = DroplessArena::new(16);
    let a = arena.alloc_bytes(b"abcd");
    let b = arena.alloc_bytes(b"wxyz");
    // `a` is no longer the tail, so growing it must move it
    let moved = arena
        .grow(a, Layout::from_size_align(4, 1), Layout::from_size_align(6, 1))
        .unwrap();
    assert_ne!(moved, a);
    assert_eq!(arena.read_bytes(moved, 6).unwrap().as_slice(), b"abcd\0\0");
    assert_eq!(arena.read_bytes(b, 4).unwrap().as_slice(), b"wxyz");
}

#[test]
fn dropless_shrink_tail() {
    let mut arena = DroplessArena::new(16);
    let a = arena.alloc_bytes(b"abcdef");
    let kept = arena
        .shrink(a, Layout::from_size_align(6, 1), Layout::from_size_align(3, 1))
        .unwrap();
    assert_eq!(kept, a);
    assert_eq!(arena.read_bytes(a, 3).unwrap().as_slice(), b"abc");
    // the freed space is handed out again
    let b = arena.alloc_bytes(b"zz");
    assert_eq!(b, a + 3);
}

#[test]
fn typed_arena_clear_keeps_chunks() {
    let counter = Cell::new(0usize);
    let mut arena = TypedArena::new(2);
    let _ = arena.try_alloc(DropCounter(&counter)).unwrap();
    let _ = arena.try_alloc(DropCounter(&counter)).unwrap();
    let _ = arena.try_alloc(DropCounter(&counter)).unwrap();
    assert_eq!(arena.chunk_count(), 2);
    arena.clear();
    assert_eq!(counter.get(), 3);
    assert_eq!(arena.chunk_count(), 2);
}

#[test]
fn dropless_alloc_too_large_fails() {
    let mut arena = DroplessArena::new(4);
    assert!(arena.try_alloc_bytes(b"abcdef").is_err());
    assert!(arena.try_alloc_bytes(b"abcd").is_ok());
}

#[test]
fn arena_with_scopes_a_reference() {
    let arena = DroplessArena::new(8);
    let cap = arena.with(|a| a.chunk_capacity());
    assert_eq!(cap, 8);
}

#[test]
fn typed_tail_dealloc_runs_destructors() {
    let counter = Cell::new(0usize);
    let mut arena = TypedArena::new(4);
    let a = arena.try_alloc(DropCounter(&counter)).unwrap();
    let b = arena.try_alloc(DropCounter(&counter)).unwrap();
    // reclaiming a non-tail allocation is a silent no-op
    arena.deallocate(a, 1);
    assert_eq!(counter.get(), 0);
    // reclaiming the tail allocation destructs it immediately
    arena.deallocate(b, 1);
    assert_eq!(counter.get(), 1);
    // teardown destructs what is still resident
    drop(arena);
    assert_eq!(counter.get(), 2);
}
