use find_core::thumbnail::{bgra_to_rgba, bitmap_size, thumbnail_of};

#[test]
fn sizes_of_bitmaps() {
    assert_eq!(bitmap_size(3, -2), Some((3, 2, 24)));
    assert_eq!(bitmap_size(3, 2), Some((3, 2, 24)));
    assert_eq!(bitmap_size(0, 2), None);
    assert_eq!(bitmap_size(-3, 2), None);
    assert_eq!(bitmap_size(3, 0), None);
}

#[test]
fn red_and_blue_change_places() {
    let mut px = vec![1, 2, 3, 4, 5, 6, 7, 0];
    bgra_to_rgba(&mut px);
    assert_eq!(px, vec![3, 2, 1, 4, 7, 6, 5, 0]);
    bgra_to_rgba(&mut px);
    assert_eq!(px, vec![1, 2, 3, 4, 5, 6, 7, 0]);
}

#[test]
fn pixels_without_alpha_are_opaque() {
    let t = thumbnail_of(2, 1, 1, vec![1, 2, 3, 0, 5, 6, 7, 0]).unwrap();
    assert_eq!(t.rgba, vec![3, 2, 1, 255, 7, 6, 5, 255]);
    assert_eq!((t.width, t.height), (2, 1));
    assert!(thumbnail_of(2, 1, 0, vec![0; 8]).is_none());
}
