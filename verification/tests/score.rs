use sat_sight::frame::GrayscaleBuffer;
use sat_sight::score::pin_prick_image;

fn ramp() -> GrayscaleBuffer {
    // 4 columns by 3 rows, intensity 10 * y + x
    let mut samples = Vec::new();
    for y in 0..3u8 {
        for x in 0..4u8 {
            samples.push(10 * y + x);
        }
    }
    GrayscaleBuffer::from_raw(4, 3, samples).unwrap()
}

#[test]
fn score_of_no_coordinates_is_zero() {
    assert_eq!(pin_prick_image(&ramp(), &vec![]), 0);
}

#[test]
fn score_sums_the_intensities() {
    let coords = vec![(1, 0), (3, 2), (0, 1)];
    assert_eq!(pin_prick_image(&ramp(), &coords), 1 + 23 + 10);
}

#[test]
fn score_counts_a_coordinate_as_often_as_it_occurs() {
    let coords = vec![(3, 2), (3, 2), (3, 2)];
    assert_eq!(pin_prick_image(&ramp(), &coords), 69);
}

#[test]
fn coordinate_one_past_the_edge_adds_nothing() {
    let img = ramp();
    assert_eq!(pin_prick_image(&img, &vec![(4, 0)]), 0);
    assert_eq!(pin_prick_image(&img, &vec![(0, 3)]), 0);
    assert_eq!(pin_prick_image(&img, &vec![(3, 2), (4, 0), (0, 3), (u32::MAX, u32::MAX)]), 23);
}

#[test]
fn one_more_coordinate_never_lowers_the_score() {
    let img = ramp();
    let mut coords = Vec::new();
    let mut last = pin_prick_image(&img, &coords);
    for c in [(0, 0), (2, 1), (9, 9), (3, 2), (2, 1), (4, 4), (1, 2)] {
        coords.push(c);
        let next = pin_prick_image(&img, &coords);
        assert!(next >= last);
        last = next;
    }
    assert_eq!(last, 0 + 12 + 0 + 23 + 12 + 0 + 21);
}

#[test]
fn score_of_joined_lists_is_the_sum_of_their_scores() {
    let img = ramp();
    let a = vec![(1, 1), (2, 2)];
    let b = vec![(2, 2), (3, 0), (7, 7)];
    let mut both = a.clone();
    both.extend(b.iter().copied());
    assert_eq!(
        pin_prick_image(&img, &both),
        pin_prick_image(&img, &a) + pin_prick_image(&img, &b)
    );
}

#[test]
fn score_on_a_raster_without_pixels_is_zero() {
    let img = GrayscaleBuffer::from_raw(0, 0, vec![]).unwrap();
    assert_eq!(pin_prick_image(&img, &vec![(0, 0), (1, 1)]), 0);
}

#[test]
fn score_of_bright_pixels_is_255_each() {
    let img = GrayscaleBuffer::from_raw(2, 2, vec![255; 4]).unwrap();
    let coords = vec![(0, 0), (1, 0), (0, 1), (1, 1), (1, 1)];
    assert_eq!(pin_prick_image(&img, &coords), 5 * 255);
}

#[test]
fn checked_score_is_the_score_where_it_fits() {
    use_checked(&ramp(), &vec![(1, 0), (3, 2), (0, 1), (9, 9)], Some(34));
    use_checked(&ramp(), &vec![], Some(0));
}

#[test]
fn checked_score_is_none_where_the_sum_is_too_large() {
    let img = GrayscaleBuffer::from_raw(1, 1, vec![255]).unwrap();
    // 16843009 * 255 is u32::MAX and one more term does not fit
    let fits = vec![(0, 0); 16_843_009];
    use_checked(&img, &fits, Some(u32::MAX));
    assert_eq!(pin_prick_image(&img, &fits), u32::MAX);
    let mut too_many = fits;
    too_many.push((5, 5));
    use_checked(&img, &too_many, Some(u32::MAX));
    too_many.push((0, 0));
    use_checked(&img, &too_many, None);
}

fn use_checked(img: &GrayscaleBuffer, coords: &Vec<(u32, u32)>, expected: Option<u32>) {
    assert_eq!(sat_sight::score::checked_pin_prick_image(img, coords), expected);
}
