use arena_alloc::bitmap::{Bitmap, BitmapError};
use arena_alloc::layout::Global;

#[test]
fn test_bitmap() {
    let mut bitmap = Bitmap::new(64);
    assert!(bitmap.try_set(10).is_ok());
    assert!(bitmap.try_get(10).unwrap());
    assert!(bitmap.try_clear(10).is_ok());
    assert!(!bitmap.try_get(10).unwrap());
}

#[test]
fn test_resize() {
    let mut bitmap = Bitmap::new(64);
    assert!(bitmap.try_set(10).is_ok());
    assert!(bitmap.try_resize(128).is_ok());
    assert!(bitmap.try_get(10).unwrap());
}

#[test]
fn bitmap_rejects_unaligned_sizes() {
    assert_eq!(
        Bitmap::try_new_in(Global, 10).map(|_| ()),
        Err(BitmapError::InvalidSize)
    );
    let mut bitmap = Bitmap::new(16);
    assert_eq!(bitmap.try_resize(3), Err(BitmapError::InvalidSize));
}

#[test]
fn bitmap_out_of_bounds() {
    let mut bitmap = Bitmap::new(8);
    assert_eq!(bitmap.try_set(8), Err(BitmapError::OutOfBounds));
    assert_eq!(bitmap.try_get(8).err(), Some(BitmapError::OutOfBounds));
    assert_eq!(bitmap.try_clear(8), Err(BitmapError::OutOfBounds));
}

#[test]
fn bitmap_shrink_clears_dropped_bits() {
    let mut bitmap = Bitmap::new(16);
    bitmap.set(3);
    bitmap.set(12);
    bitmap.resize(8);
    assert!(bitmap.get(3));
    bitmap.resize(16);
    assert!(!bitmap.get(12));
    assert!(bitmap.get(3));
}
