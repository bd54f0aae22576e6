use sat_sight::frame::GrayscaleBuffer;

#[test]
fn from_raw_reads_samples_row_by_row() {
    let img = GrayscaleBuffer::from_raw(3, 2, vec![1, 2, 3, 4, 5, 6]).unwrap();
    assert_eq!(img.dimensions(), (3, 2));
    assert_eq!(img.get_pixel(0, 0), Some(1));
    assert_eq!(img.get_pixel(2, 0), Some(3));
    assert_eq!(img.get_pixel(0, 1), Some(4));
    assert_eq!(img.get_pixel(2, 1), Some(6));
}

#[test]
fn from_raw_refuses_too_few_samples() {
    assert!(GrayscaleBuffer::from_raw(3, 2, vec![1, 2, 3, 4, 5]).is_none());
    assert!(GrayscaleBuffer::from_raw(1, 1, vec![]).is_none());
}

#[test]
fn from_raw_ignores_samples_beyond_the_raster() {
    let img = GrayscaleBuffer::from_raw(2, 1, vec![7, 8, 9, 10]).unwrap();
    assert_eq!(img.dimensions(), (2, 1));
    assert_eq!(img.get_pixel(1, 0), Some(8));
    assert_eq!(img.get_pixel(0, 1), None);
}

#[test]
fn from_raw_accepts_a_raster_without_pixels() {
    let img = GrayscaleBuffer::from_raw(0, 0, vec![]).unwrap();
    assert_eq!(img.dimensions(), (0, 0));
    let img = GrayscaleBuffer::from_raw(4, 0, vec![]).unwrap();
    assert_eq!(img.dimensions(), (4, 0));
    assert_eq!(img.get_pixel(0, 0), None);
}

#[test]
fn get_pixel_is_none_outside_the_raster() {
    let img = GrayscaleBuffer::from_raw(3, 2, vec![1, 2, 3, 4, 5, 6]).unwrap();
    assert_eq!(img.get_pixel(3, 0), None);
    assert_eq!(img.get_pixel(0, 2), None);
    assert_eq!(img.get_pixel(u32::MAX, u32::MAX), None);
}

#[test]
fn new_raster_is_black() {
    let img = GrayscaleBuffer::new(4, 3);
    assert_eq!(img.dimensions(), (4, 3));
    for y in 0..3 {
        for x in 0..4 {
            assert_eq!(img.get_pixel(x, y), Some(0));
        }
    }
}

#[test]
fn put_pixel_changes_one_pixel() {
    let mut img = GrayscaleBuffer::from_raw(3, 2, vec![1, 2, 3, 4, 5, 6]).unwrap();
    assert!(img.put_pixel(1, 1, 200));
    assert_eq!(img.get_pixel(1, 1), Some(200));
    assert_eq!(img.get_pixel(0, 1), Some(4));
    assert_eq!(img.get_pixel(2, 1), Some(6));
    assert_eq!(img.get_pixel(1, 0), Some(2));
    assert_eq!(img.dimensions(), (3, 2));
}

#[test]
fn put_pixel_outside_the_raster_writes_nothing() {
    let mut img = GrayscaleBuffer::from_raw(2, 2, vec![1, 2, 3, 4]).unwrap();
    assert!(!img.put_pixel(2, 0, 9));
    assert!(!img.put_pixel(0, 2, 9));
    assert_eq!(img.get_pixel(0, 0), Some(1));
    assert_eq!(img.get_pixel(1, 0), Some(2));
    assert_eq!(img.get_pixel(0, 1), Some(3));
    assert_eq!(img.get_pixel(1, 1), Some(4));
}

#[test]
fn into_raw_gives_the_samples_back() {
    let mut img = GrayscaleBuffer::from_raw(3, 2, vec![1, 2, 3, 4, 5, 6]).unwrap();
    assert!(img.put_pixel(2, 1, 60));
    assert!(img.put_pixel(0, 0, 10));
    assert_eq!(img.into_raw(), vec![10, 2, 3, 4, 5, 60]);
    assert_eq!(GrayscaleBuffer::new(2, 2).into_raw(), vec![0, 0, 0, 0]);
}

#[test]
fn into_raw_leaves_out_what_lies_beyond_the_raster() {
    let img = GrayscaleBuffer::from_raw(2, 1, vec![7, 8, 9, 10]).unwrap();
    assert_eq!(img.into_raw(), vec![7, 8]);
    let img = GrayscaleBuffer::from_raw(0, 3, vec![1, 2, 3]).unwrap();
    assert_eq!(img.into_raw(), Vec::<u8>::new());
}
