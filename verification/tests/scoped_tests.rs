use arena_alloc::arena::TypedArena;
use arena_alloc::layout::Global;
use arena_alloc::scoped::{scoped_arenas, with_arenas};

#[test]
fn test_scoped_arenas() {
    let result = scoped_arenas(|mut builder| {
        let s_addr = builder.dropless().alloc_str("hello");
        let s_bytes = builder.dropless().read_bytes(s_addr, 5).unwrap();
        let s = String::from_utf8(s_bytes).unwrap();

        builder.with_typed_arena(1024, |mut arena: TypedArena<String, Global>| {
            let val_addr = arena.try_alloc("world".to_string()).unwrap();
            let val = arena.get(val_addr).unwrap();
            format!("{} {}", s, val)
        })
    });

    assert_eq!(result, "hello world");
}

#[test]
fn with_arenas_provides_both() {
    let total = with_arenas(|mut dropless, mut typed| {
        let a = dropless.alloc_bytes(b"xy");
        let t = typed.try_alloc(()).unwrap();
        assert!(typed.get(t).is_some());
        dropless.read_bytes(a, 2).unwrap().len() + 41
    });
    assert_eq!(total, 43);
}
