use sat_sight::blobs::{
    extract_blobs, get_star_centroids_from_image, get_stars_from_image, Blob, DEFAULT_THRESHOLD,
};
use sat_sight::frame::GrayscaleBuffer;

fn raster(width: u32, height: u32, lit: &[(u32, u32, u8)]) -> GrayscaleBuffer {
    let mut samples = vec![0u8; (width * height) as usize];
    for &(x, y, value) in lit {
        samples[(y * width + x) as usize] = value;
    }
    GrayscaleBuffer::from_raw(width, height, samples).unwrap()
}

fn picture(rows: &[&str]) -> GrayscaleBuffer {
    let height = rows.len() as u32;
    let width = rows[0].len() as u32;
    let mut samples = Vec::new();
    for row in rows {
        for c in row.chars() {
            samples.push(if c == '#' { 255 } else { 0 });
        }
    }
    GrayscaleBuffer::from_raw(width, height, samples).unwrap()
}

#[test]
fn default_threshold_is_250() {
    assert_eq!(DEFAULT_THRESHOLD, 250);
}

#[test]
fn dark_raster_has_no_blobs() {
    let img = raster(16, 12, &[]);
    assert_eq!(get_stars_from_image(&img, DEFAULT_THRESHOLD), vec![]);
}

#[test]
fn single_bright_pixel_is_its_own_blob() {
    let img = raster(10, 10, &[(5, 5, 255)]);
    assert_eq!(get_stars_from_image(&img, 250), vec![(5, 5)]);
}

#[test]
fn raster_without_pixels_has_no_blobs() {
    for (width, height) in [(0, 0), (0, 7), (7, 0)] {
        let img = GrayscaleBuffer::from_raw(width, height, vec![]).unwrap();
        assert_eq!(get_stars_from_image(&img, 250), vec![]);
    }
}

#[test]
fn threshold_is_inclusive() {
    let img = raster(4, 4, &[(1, 1, 250), (3, 3, 249)]);
    assert_eq!(get_stars_from_image(&img, 250), vec![(1, 1)]);
    assert_eq!(get_stars_from_image(&img, 249), vec![(1, 1), (3, 3)]);
    assert_eq!(get_stars_from_image(&img, 251), vec![]);
}

#[test]
fn threshold_zero_makes_the_whole_raster_one_blob() {
    let img = raster(5, 3, &[(2, 1, 40)]);
    assert_eq!(get_stars_from_image(&img, 0), vec![(0, 0)]);
}

#[test]
fn border_pixels_are_scanned() {
    let img = raster(6, 5, &[(0, 0, 255), (5, 0, 255), (0, 4, 255), (5, 4, 255), (0, 2, 255)]);
    assert_eq!(
        get_stars_from_image(&img, 250),
        vec![(0, 0), (5, 0), (0, 2), (0, 4), (5, 4)]
    );
}

#[test]
fn blob_on_the_border_is_filled_whole() {
    let img = picture(&[
        "###..",
        "#....",
        "#....",
    ]);
    assert_eq!(get_stars_from_image(&img, 250), vec![(0, 0)]);
    let img = picture(&[
        "....#",
        "....#",
        "..###",
    ]);
    assert_eq!(get_stars_from_image(&img, 250), vec![(4, 0)]);
}

#[test]
fn pixels_that_touch_only_at_a_corner_are_two_blobs() {
    let img = picture(&[
        "#...",
        ".#..",
        "..#.",
    ]);
    assert_eq!(get_stars_from_image(&img, 250), vec![(0, 0), (1, 1), (2, 2)]);
}

#[test]
fn seed_is_the_first_pixel_of_the_scan_not_the_middle() {
    let img = picture(&[
        ".....#.",
        ".#####.",
        ".#####.",
        ".......",
    ]);
    assert_eq!(get_stars_from_image(&img, 250), vec![(5, 0)]);
}

#[test]
fn blob_that_winds_back_is_one_blob() {
    let img = picture(&[
        "#.###",
        "#.#.#",
        "#.#.#",
        "###.#",
    ]);
    assert_eq!(get_stars_from_image(&img, 250), vec![(0, 0)]);
}

#[test]
fn blobs_come_in_scan_order() {
    let img = picture(&[
        "....##..",
        "#...##..",
        "#.......",
        "...#...#",
        "...#...#",
    ]);
    assert_eq!(
        get_stars_from_image(&img, 250),
        vec![(4, 0), (0, 1), (3, 3), (7, 3)]
    );
}

#[test]
fn ring_and_its_centre_are_two_blobs() {
    let img = picture(&[
        "#####",
        "#...#",
        "#.#.#",
        "#...#",
        "#####",
    ]);
    assert_eq!(get_stars_from_image(&img, 250), vec![(0, 0), (2, 2)]);
}

#[test]
fn saturated_raster_is_one_blob() {
    let side = 700;
    let img = GrayscaleBuffer::from_raw(side, side, vec![255; (side * side) as usize]).unwrap();
    assert_eq!(get_stars_from_image(&img, 250), vec![(0, 0)]);
}

#[test]
fn long_thin_blob_is_one_blob() {
    let width = 200_000;
    let img = GrayscaleBuffer::from_raw(width, 1, vec![255; width as usize]).unwrap();
    assert_eq!(get_stars_from_image(&img, 250), vec![(0, 0)]);
}

#[test]
fn blob_is_measured() {
    let img = picture(&[
        ".....#.",
        ".#####.",
        ".#####.",
        ".......",
    ]);
    // columns: 5 + 2 * (1 + 2 + 3 + 4 + 5) = 35, rows: 0 + 5 * 1 + 5 * 2 = 15, pixels: 11
    assert_eq!(
        extract_blobs(&img, 250),
        vec![Blob { seed: (5, 0), centroid: (3, 1), size: 11 }]
    );
}

#[test]
fn centroid_of_a_single_pixel_is_the_pixel() {
    let img = raster(10, 10, &[(5, 5, 255)]);
    assert_eq!(get_star_centroids_from_image(&img, 250), vec![(5, 5)]);
    assert_eq!(extract_blobs(&img, 250), vec![Blob { seed: (5, 5), centroid: (5, 5), size: 1 }]);
}

#[test]
fn centroid_rounds_to_the_nearest_pixel_half_up() {
    // columns 0 and 1: mean 0.5, rounded up; rows 0, 0, 1: mean 1/3, rounded down
    let img = picture(&[
        "##.",
        "#..",
    ]);
    assert_eq!(get_star_centroids_from_image(&img, 250), vec![(0, 0)]);
    let img = picture(&[
        "##",
        "..",
    ]);
    assert_eq!(get_star_centroids_from_image(&img, 250), vec![(1, 0)]);
    // rows 0, 1, 1: mean 2/3, rounded up
    let img = picture(&[
        "#.",
        "##",
    ]);
    assert_eq!(get_star_centroids_from_image(&img, 250), vec![(0, 1)]);
}

#[test]
fn centroid_can_lie_off_the_blob() {
    let img = picture(&[
        "#####",
        "#...#",
        "#...#",
        "#...#",
        "#####",
    ]);
    assert_eq!(
        extract_blobs(&img, 250),
        vec![Blob { seed: (0, 0), centroid: (2, 2), size: 16 }]
    );
    assert_eq!(img.get_pixel(2, 2), Some(0));
}

#[test]
fn centroids_come_in_the_order_of_the_seeds() {
    let img = picture(&[
        "......#.",
        "#.....#.",
        "#.....#.",
        "#.......",
        "#..###..",
    ]);
    assert_eq!(get_stars_from_image(&img, 250), vec![(6, 0), (0, 1), (3, 4)]);
    assert_eq!(get_star_centroids_from_image(&img, 250), vec![(6, 1), (0, 3), (4, 4)]);
    let sizes: Vec<usize> = extract_blobs(&img, 250).iter().map(|b| b.size).collect();
    assert_eq!(sizes, vec![3, 4, 3]);
}

#[test]
fn saturated_raster_has_its_centroid_in_the_middle() {
    let img = GrayscaleBuffer::from_raw(301, 201, vec![255; 301 * 201]).unwrap();
    assert_eq!(
        extract_blobs(&img, 250),
        vec![Blob { seed: (0, 0), centroid: (150, 100), size: 301 * 201 }]
    );
}

#[test]
fn dark_raster_has_no_centroids() {
    let img = raster(16, 12, &[]);
    assert_eq!(get_star_centroids_from_image(&img, 250), vec![]);
    assert_eq!(extract_blobs(&img, 250), vec![]);
}
