use arena_alloc::once::Once;

#[test]
fn once_starts_uninit() {
    let once: Once<u32> = Once::new();
    assert_eq!(once.get(), None);
}

#[test]
fn once_initializes_exactly_once() {
    let mut once = Once::new();
    assert_eq!(once.try_init(5), Ok(()));
    assert_eq!(once.get(), Some(&5));
    assert_eq!(once.try_init(7), Err(7));
    assert_eq!(once.get(), Some(&5));
}

#[test]
fn once_init_sets_value() {
    let mut once = Once::new();
    once.init("ready");
    assert_eq!(once.get(), Some(&"ready"));
}
