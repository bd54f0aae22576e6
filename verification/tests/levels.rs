use sat_sight::frame::GrayscaleBuffer;
use sat_sight::levels::{apply_levels, intensity_range};

#[test]
fn range_is_darkest_and_brightest() {
    let img = GrayscaleBuffer::from_raw(3, 2, vec![40, 12, 200, 13, 199, 40]).unwrap();
    assert_eq!(intensity_range(&img), Some((12, 200)));
}

#[test]
fn range_of_a_flat_raster() {
    let img = GrayscaleBuffer::from_raw(2, 2, vec![77; 4]).unwrap();
    assert_eq!(intensity_range(&img), Some((77, 77)));
    let img = GrayscaleBuffer::from_raw(2, 2, vec![255; 4]).unwrap();
    assert_eq!(intensity_range(&img), Some((255, 255)));
    let img = GrayscaleBuffer::from_raw(2, 2, vec![0; 4]).unwrap();
    assert_eq!(intensity_range(&img), Some((0, 0)));
}

#[test]
fn range_looks_at_the_last_pixel_and_no_further() {
    let img = GrayscaleBuffer::from_raw(2, 2, vec![5, 5, 5, 9, 1, 250]).unwrap();
    assert_eq!(intensity_range(&img), Some((5, 9)));
    let img = GrayscaleBuffer::from_raw(2, 2, vec![5, 5, 5, 1]).unwrap();
    assert_eq!(intensity_range(&img), Some((1, 5)));
}

#[test]
fn raster_without_pixels_has_no_range() {
    for (width, height) in [(0, 0), (0, 2), (2, 0)] {
        let img = GrayscaleBuffer::from_raw(width, height, vec![]).unwrap();
        assert_eq!(intensity_range(&img), None);
    }
}

#[test]
fn levels_are_looked_up_pixel_by_pixel() {
    let mut table = [0u8; 256];
    for v in 0..256 {
        table[v] = 255 - v as u8;
    }
    let mut img = GrayscaleBuffer::from_raw(3, 2, vec![0, 1, 2, 100, 254, 255]).unwrap();
    apply_levels(&mut img, &table);
    assert_eq!(img.dimensions(), (3, 2));
    assert_eq!(img.into_raw(), vec![255, 254, 253, 155, 1, 0]);
}

#[test]
fn levels_stretch_the_contrast() {
    let mut img = GrayscaleBuffer::from_raw(2, 2, vec![100, 150, 125, 200]).unwrap();
    let (lo, hi) = intensity_range(&img).unwrap();
    let factor = 255.0 / f64::from(hi - lo);
    let mut table = [0u8; 256];
    for v in lo..=hi {
        table[v as usize] = ((f64::from(v) - f64::from(lo)) * factor) as u8;
    }
    apply_levels(&mut img, &table);
    // 255 / 100 is not exact, and 100 times the quotient falls just short of 255
    assert_eq!(intensity_range(&img), Some((0, 254)));
    assert_eq!(img.get_pixel(1, 0), Some(127));
    assert_eq!(img.get_pixel(0, 1), Some(63));
}

#[test]
fn levels_on_a_raster_without_pixels_do_nothing() {
    let mut img = GrayscaleBuffer::from_raw(0, 0, vec![]).unwrap();
    apply_levels(&mut img, &[9u8; 256]);
    assert_eq!(img.dimensions(), (0, 0));
}
