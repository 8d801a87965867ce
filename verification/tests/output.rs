use region_render::output::OutputImage;
use region_render::pixel::Rgba;

const CLEAR: Rgba = Rgba { r: 0, g: 0, b: 0, a: 0 };

fn sample(n: u8) -> Rgba {
    Rgba { r: n, g: n + 1, b: n + 2, a: n + 3 }
}

#[test]
fn new_image_is_transparent() {
    let image = OutputImage::new(3, 2).unwrap();
    assert_eq!(image.width(), 3);
    assert_eq!(image.height(), 2);
    for pz in 0..2 {
        for px in 0..3 {
            assert_eq!(image.pixel(px, pz), Some(CLEAR));
        }
    }
    assert_eq!(image.to_bytes(), vec![0u8; 24]);
    assert_eq!(Rgba::transparent(), CLEAR);
}

#[test]
fn positions_outside_the_image_hold_nothing() {
    let image = OutputImage::new(3, 2).unwrap();
    assert_eq!(image.pixel(3, 0), None);
    assert_eq!(image.pixel(0, 2), None);
    assert_eq!(image.pixel(usize::MAX, usize::MAX), None);
}

#[test]
fn image_too_large_to_count() {
    assert!(OutputImage::new(usize::MAX, 2).is_none());
    assert!(OutputImage::new(2, usize::MAX).is_none());
    assert!(OutputImage::new(usize::MAX, 0).is_some());
}

#[test]
fn put_block_writes_the_rectangle_only() {
    let mut image = OutputImage::new(4, 3).unwrap();
    let block = vec![sample(10), sample(20), sample(30), sample(40)];
    image.put_block(1, 1, 2, 2, &block);
    for pz in 0..3 {
        for px in 0..4 {
            let expected = match (px, pz) {
                (1, 1) => sample(10),
                (2, 1) => sample(20),
                (1, 2) => sample(30),
                (2, 2) => sample(40),
                _ => CLEAR,
            };
            assert_eq!(image.pixel(px, pz), Some(expected));
        }
    }
    assert_eq!(image.width(), 4);
    assert_eq!(image.height(), 3);
}

#[test]
fn put_block_overwrites() {
    let mut image = OutputImage::new(2, 1).unwrap();
    image.put_block(0, 0, 2, 1, &vec![sample(1), sample(2)]);
    image.put_block(1, 0, 1, 1, &vec![sample(9)]);
    assert_eq!(image.pixel(0, 0), Some(sample(1)));
    assert_eq!(image.pixel(1, 0), Some(sample(9)));
}

#[test]
fn empty_block_changes_nothing() {
    let mut image = OutputImage::new(2, 2).unwrap();
    image.put_block(2, 2, 0, 0, &Vec::new());
    image.put_block(0, 0, 0, 2, &Vec::new());
    assert_eq!(image.to_bytes(), vec![0u8; 16]);
}

#[test]
fn bytes_are_four_per_sample_row_by_row() {
    let mut image = OutputImage::new(2, 2).unwrap();
    image.put_block(0, 0, 2, 2, &vec![sample(1), sample(5), sample(9), sample(13)]);
    assert_eq!(
        image.to_bytes(),
        vec![1, 2, 3, 4, 5, 6, 7, 8, 9, 10, 11, 12, 13, 14, 15, 16]
    );
}
