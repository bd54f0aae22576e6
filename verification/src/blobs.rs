//! Bright blobs of a raster, found by flood fill.
//!
//! A blob is a maximal set of pixels at or above a threshold that hang
//! together through shared edges. Each blob is reported once, by one pixel
//! that stands for it.
//!
//! [`get_stars_from_image`] reports a blob by its scan seed, the pixel of the
//! blob that a row-by-row scan meets first. The seed is cheap and stable, but
//! it is a corner of the blob and not its middle: for a large blob it can lie
//! many pixels from where the star is. [`get_star_centroids_from_image`]
//! reports the centroid instead, the mean of the blob's pixels, which is the
//! better estimate of the star's place; on a blob that is not convex the
//! centroid may be a pixel that is not part of the blob. [`extract_blobs`]
//! gives both, with the size of the blob.

use vstd::prelude::*;
use crate::blobs::fill::{blank_table, flood_fill, is_marked};
use crate::blobs::scan::{
    lemma_scan_found, lemma_scan_next_row, lemma_scan_skip, lemma_scan_start, scanned,
};
use crate::frame::{buffer_get, holds, point, rectangular, scans_before, GrayscaleBuffer};

mod fill;
mod scan;

verus! {

/// Pixel `p` lies inside the raster and its intensity is at least `threshold`.
pub open spec fn bright(rows: Seq<Seq<u8>>, threshold: u8, p: (int, int)) -> bool {
    &&& 0 <= p.1 < rows.len()
    &&& 0 <= p.0 < rows[p.1].len()
    &&& rows[p.1][p.0] >= threshold
}

/// `a` and `b` share an edge: one is directly left of, right of, above or
/// below the other.
pub open spec fn adjacent(a: (int, int), b: (int, int)) -> bool {
    ||| a.1 == b.1 && (a.0 == b.0 + 1 || b.0 == a.0 + 1)
    ||| a.0 == b.0 && (a.1 == b.1 + 1 || b.1 == a.1 + 1)
}

/// `path` is a walk over bright pixels in which each step crosses an edge.
pub open spec fn is_path(rows: Seq<Seq<u8>>, threshold: u8, path: Seq<(int, int)>) -> bool {
    &&& path.len() > 0
    &&& forall|i: int| 0 <= i < path.len() ==> bright(rows, threshold, #[trigger] path[i])
    &&& forall|i: int| 0 <= i < path.len() - 1 ==> adjacent(#[trigger] path[i], path[i + 1])
}

/// `a` and `b` belong to one blob: a walk over bright pixels leads from `a`
/// to `b`.
pub open spec fn connected(
    rows: Seq<Seq<u8>>,
    threshold: u8,
    a: (int, int),
    b: (int, int),
) -> bool {
    exists|path: Seq<(int, int)>|
        #[trigger] is_path(rows, threshold, path) && path[0] == a && path.last() == b
}

/// `p` is the pixel of its blob that the scan meets first.
pub open spec fn is_seed(rows: Seq<Seq<u8>>, threshold: u8, p: (int, int)) -> bool {
    &&& bright(rows, threshold, p)
    &&& forall|q: (int, int)| #[trigger] connected(rows, threshold, q, p) ==> !scans_before(q, p)
}

/// `stars` lists the seed of every blob once, in the order of the scan.
pub open spec fn is_seed_list(rows: Seq<Seq<u8>>, threshold: u8, stars: Seq<(u32, u32)>) -> bool {
    &&& forall|i: int|
        0 <= i < stars.len() ==> is_seed(rows, threshold, point(#[trigger] stars[i]))
    &&& forall|p: (int, int)| #[trigger] is_seed(rows, threshold, p) ==> holds(stars, p)
    &&& forall|i: int, j: int|
        0 <= i < j < stars.len() ==> scans_before(
            point(#[trigger] stars[i]),
            point(#[trigger] stars[j]),
        )
}

/// Pixel `p` belongs to the blob of one of `stars`.
#[verifier::opaque]
pub open spec fn represented(
    rows: Seq<Seq<u8>>,
    threshold: u8,
    stars: Seq<(u32, u32)>,
    p: (int, int),
) -> bool {
    exists|i: int|
        0 <= i < stars.len() && #[trigger] connected(rows, threshold, point(stars[i]), p)
}

/// The blob of `seed`: every pixel that a walk over bright pixels reaches
/// from it.
pub open spec fn blob_of(rows: Seq<Seq<u8>>, threshold: u8, seed: (int, int)) -> Set<(int, int)> {
    Set::new(|p: (int, int)| connected(rows, threshold, seed, p))
}

/// The sum of the columns of `pixels`.
pub open spec fn column_sum(pixels: Set<(int, int)>) -> int {
    pixels.fold(0int, |sum: int, p: (int, int)| sum + p.0)
}

/// The sum of the rows of `pixels`.
pub open spec fn row_sum(pixels: Set<(int, int)>) -> int {
    pixels.fold(0int, |sum: int, p: (int, int)| sum + p.1)
}

/// `sum / count`, rounded to the nearest whole number, a half upwards.
pub open spec fn rounded_mean(sum: int, count: int) -> int {
    (2 * sum + count) / (2 * count)
}

/// One bright blob of a raster.
#[derive(Clone, Copy, Debug, PartialEq, Eq)]
pub struct Blob {
    /// The pixel of the blob that a scan by rows meets first.
    pub seed: (u32, u32),
    /// The mean of the blob's pixels, each coordinate rounded to the nearest
    /// whole number.
    pub centroid: (u32, u32),
    /// The number of pixels of the blob.
    pub size: usize,
}

/// The blob that has `seed` as a pixel.
pub open spec fn blob_at(rows: Seq<Seq<u8>>, threshold: u8, seed: (u32, u32)) -> Blob {
    let pixels = blob_of(rows, threshold, point(seed));
    Blob {
        seed,
        centroid: (
            rounded_mean(column_sum(pixels), pixels.len() as int) as u32,
            rounded_mean(row_sum(pixels), pixels.len() as int) as u32,
        ),
        size: pixels.len() as usize,
    }
}

/// `blobs` lists every blob of the raster once, in the order in which a scan
/// meets their seeds.
pub open spec fn is_blob_list(rows: Seq<Seq<u8>>, threshold: u8, blobs: Seq<Blob>) -> bool {
    &&& is_seed_list(rows, threshold, blobs.map_values(|blob: Blob| blob.seed))
    &&& forall|i: int|
        0 <= i < blobs.len() ==> #[trigger] blobs[i] == blob_at(rows, threshold, blobs[i].seed)
}

/// A bright pixel is connected to itself.
pub proof fn lemma_connected_reflexive(rows: Seq<Seq<u8>>, threshold: u8, p: (int, int))
    requires
        bright(rows, threshold, p),
    ensures
        connected(rows, threshold, p, p),
{
    let path = seq![p];
    assert(is_path(rows, threshold, path));
    assert(path[0] == p && path.last() == p);
}

/// A walk can be continued by one step to a bright neighbour.
pub proof fn lemma_connected_step(
    rows: Seq<Seq<u8>>,
    threshold: u8,
    a: (int, int),
    p: (int, int),
    n: (int, int),
)
    requires
        connected(rows, threshold, a, p),
        adjacent(p, n),
        bright(rows, threshold, n),
    ensures
        connected(rows, threshold, a, n),
{
    let path = choose|path: Seq<(int, int)>|
        #[trigger] is_path(rows, threshold, path) && path[0] == a && path.last() == p;
    let longer = path.push(n);
    assert forall|i: int| 0 <= i < longer.len() implies bright(
        rows,
        threshold,
        #[trigger] longer[i],
    ) by {
        if i < path.len() {
            assert(longer[i] == path[i]);
        }
    }
    assert forall|i: int| 0 <= i < longer.len() - 1 implies adjacent(
        #[trigger] longer[i],
        longer[i + 1],
    ) by {
        assert(longer[i] == path[i]);
        if i + 1 < path.len() {
            assert(longer[i + 1] == path[i + 1]);
        }
    }
    assert(is_path(rows, threshold, longer));
    assert(longer[0] == path[0]);
    assert(longer.last() == n);
}

/// Connection runs both ways: a walk can be taken backwards.
pub proof fn lemma_connected_symmetric(
    rows: Seq<Seq<u8>>,
    threshold: u8,
    a: (int, int),
    b: (int, int),
)
    requires
        connected(rows, threshold, a, b),
    ensures
        connected(rows, threshold, b, a),
{
    let path = choose|path: Seq<(int, int)>|
        #[trigger] is_path(rows, threshold, path) && path[0] == a && path.last() == b;
    let back = Seq::new(path.len(), |i: int| path[path.len() - 1 - i]);
    assert forall|i: int| 0 <= i < back.len() - 1 implies adjacent(
        #[trigger] back[i],
        back[i + 1],
    ) by {
        let k = path.len() - 2 - i;
        assert(adjacent(path[k], path[k + 1]));
    }
    assert(is_path(rows, threshold, back));
    assert(back[0] == b && back.last() == a);
}

/// Two walks that meet make one walk.
pub proof fn lemma_connected_transitive(
    rows: Seq<Seq<u8>>,
    threshold: u8,
    a: (int, int),
    b: (int, int),
    c: (int, int),
)
    requires
        connected(rows, threshold, a, b),
        connected(rows, threshold, b, c),
    ensures
        connected(rows, threshold, a, c),
{
    let first = choose|path: Seq<(int, int)>|
        #[trigger] is_path(rows, threshold, path) && path[0] == a && path.last() == b;
    let second = choose|path: Seq<(int, int)>|
        #[trigger] is_path(rows, threshold, path) && path[0] == b && path.last() == c;
    let cut = first.len() - 1;
    let whole = first.drop_last() + second;
    assert forall|i: int| 0 <= i < whole.len() implies bright(
        rows,
        threshold,
        #[trigger] whole[i],
    ) by {
        if i < cut {
            assert(whole[i] == first[i]);
        } else {
            assert(whole[i] == second[i - cut]);
        }
    }
    assert forall|i: int| 0 <= i < whole.len() - 1 implies adjacent(
        #[trigger] whole[i],
        whole[i + 1],
    ) by {
        if i + 1 < cut {
            assert(whole[i] == first[i] && whole[i + 1] == first[i + 1]);
        } else if i < cut {
            assert(whole[i] == first[i] && whole[i + 1] == second[0]);
            assert(adjacent(first[i], first[i + 1]));
        } else {
            assert(whole[i] == second[i - cut] && whole[i + 1] == second[i - cut + 1]);
            assert(adjacent(second[i - cut], second[i - cut + 1]));
        }
    }
    assert(is_path(rows, threshold, whole));
    assert(whole[0] == a) by {
        if cut > 0 {
            assert(whole[0] == first[0]);
        } else {
            assert(whole[0] == second[0]);
        }
    }
    assert(whole.last() == second[second.len() - 1]);
}

/// A raster without a bright pixel has no stars.
pub proof fn lemma_dark_raster_has_no_stars(
    rows: Seq<Seq<u8>>,
    threshold: u8,
    stars: Seq<(u32, u32)>,
)
    requires
        forall|p: (int, int)| !#[trigger] bright(rows, threshold, p),
        is_seed_list(rows, threshold, stars),
    ensures
        stars == Seq::<(u32, u32)>::empty(),
{
    if stars.len() > 0 {
        assert(is_seed(rows, threshold, point(stars[0])));
    }
    assert(stars =~= Seq::<(u32, u32)>::empty());
}

/// A bright pixel without a bright neighbour is a blob of its own, and so
/// its own seed.
pub proof fn lemma_isolated_pixel_is_seed(rows: Seq<Seq<u8>>, threshold: u8, p: (int, int))
    requires
        bright(rows, threshold, p),
        forall|n: (int, int)| adjacent(p, n) ==> !#[trigger] bright(rows, threshold, n),
    ensures
        is_seed(rows, threshold, p),
        forall|q: (int, int)| #[trigger] connected(rows, threshold, q, p) ==> q == p,
{
    assert forall|q: (int, int)| #[trigger] connected(rows, threshold, q, p) implies q == p by {
        let path = choose|path: Seq<(int, int)>|
            #[trigger] is_path(rows, threshold, path) && path[0] == q && path.last() == p;
        if path.len() > 1 {
            let k = path.len() - 2;
            assert(adjacent(path[k], path[k + 1]));
            assert(bright(rows, threshold, path[k]));
            assert(adjacent(p, path[k]));
        }
    }
}

/// A raster whose only bright pixel is `c` has that pixel as its only star.
pub proof fn lemma_lone_pixel_is_the_only_star(
    rows: Seq<Seq<u8>>,
    threshold: u8,
    stars: Seq<(u32, u32)>,
    c: (u32, u32),
)
    requires
        bright(rows, threshold, point(c)),
        forall|q: (int, int)| #[trigger] bright(rows, threshold, q) ==> q == point(c),
        is_seed_list(rows, threshold, stars),
    ensures
        stars == seq![c],
{
    assert forall|n: (int, int)| adjacent(point(c), n) implies !#[trigger] bright(
        rows,
        threshold,
        n,
    ) by {}
    lemma_isolated_pixel_is_seed(rows, threshold, point(c));
    assert(holds(stars, point(c)));
    assert forall|i: int| 0 <= i < stars.len() implies #[trigger] stars[i] == c by {
        assert(is_seed(rows, threshold, point(stars[i])));
    }
    if stars.len() > 1 {
        assert(scans_before(point(stars[0]), point(stars[1])));
    }
    assert(stars =~= seq![c]);
}

/// Two lists of the seeds of one raster agree on every entry of the first.
proof fn lemma_seed_lists_agree(
    rows: Seq<Seq<u8>>,
    threshold: u8,
    a: Seq<(u32, u32)>,
    b: Seq<(u32, u32)>,
    i: int,
)
    requires
        is_seed_list(rows, threshold, a),
        is_seed_list(rows, threshold, b),
        0 <= i < a.len(),
    ensures
        i < b.len(),
        a[i] == b[i],
    decreases i,
{
    assert(is_seed(rows, threshold, point(a[i])));
    assert(holds(b, point(a[i])));
    let j = choose|j: int| 0 <= j < b.len() && point(#[trigger] b[j]) == point(a[i]);
    if j < i {
        lemma_seed_lists_agree(rows, threshold, a, b, j);
        assert(scans_before(point(a[j]), point(a[i])));
    } else if j > i {
        assert(is_seed(rows, threshold, point(b[i])));
        assert(holds(a, point(b[i])));
        let k = choose|k: int| 0 <= k < a.len() && point(#[trigger] a[k]) == point(b[i]);
        assert(scans_before(point(b[i]), point(b[j])));
        if k < i {
            lemma_seed_lists_agree(rows, threshold, a, b, k);
            assert(scans_before(point(b[k]), point(b[i])));
        } else if k > i {
            assert(scans_before(point(a[i]), point(a[k])));
        }
    }
}

/// A raster has one list of seeds and no other: what
/// [`get_stars_from_image`] returns is fixed by its contract.
pub proof fn lemma_seed_list_is_unique(
    rows: Seq<Seq<u8>>,
    threshold: u8,
    a: Seq<(u32, u32)>,
    b: Seq<(u32, u32)>,
)
    requires
        is_seed_list(rows, threshold, a),
        is_seed_list(rows, threshold, b),
    ensures
        a == b,
{
    if a.len() > 0 {
        lemma_seed_lists_agree(rows, threshold, a, b, a.len() - 1);
    }
    if b.len() > 0 {
        lemma_seed_lists_agree(rows, threshold, b, a, b.len() - 1);
    }
    assert forall|i: int| 0 <= i < a.len() implies a[i] == b[i] by {
        lemma_seed_lists_agree(rows, threshold, a, b, i);
    }
    assert(a =~= b);
}

/// A raster has one list of blobs and no other: what [`extract_blobs`]
/// returns is fixed by its contract.
pub proof fn lemma_blob_list_is_unique(
    rows: Seq<Seq<u8>>,
    threshold: u8,
    a: Seq<Blob>,
    b: Seq<Blob>,
)
    requires
        is_blob_list(rows, threshold, a),
        is_blob_list(rows, threshold, b),
    ensures
        a == b,
{
    let seeds_a = a.map_values(|blob: Blob| blob.seed);
    let seeds_b = b.map_values(|blob: Blob| blob.seed);
    lemma_seed_list_is_unique(rows, threshold, seeds_a, seeds_b);
    assert forall|i: int| 0 <= i < a.len() implies a[i] == b[i] by {
        assert(seeds_a[i] == a[i].seed);
        assert(seeds_b[i] == b[i].seed);
    }
    assert(a.len() == seeds_a.len() && b.len() == seeds_b.len());
    assert(a =~= b);
}

/// The threshold at which a pixel counts as part of a star unless the caller
/// chooses another.
pub const DEFAULT_THRESHOLD: u8 = 250;

/// Finds the bright blobs of `img`: for each its scan seed, its centroid and
/// its size. The blobs come in the order in which a scan by rows from the
/// top, each row from the left, meets them. Pixels on the border of the
/// raster are pixels like any other.
pub fn extract_blobs(img: &GrayscaleBuffer, threshold: u8) -> (blobs: Vec<Blob>)
    ensures
        is_blob_list(img@, threshold, blobs@),
        forall|p: (int, int)|
            #[trigger] bright(img@, threshold, p) ==> represented(
                img@,
                threshold,
                blobs@.map_values(|blob: Blob| blob.seed),
                p,
            ),
        forall|i: int|
            0 <= i < blobs.len() ==> (#[trigger] blobs[i]).size >= 1 && blobs[i].centroid.0
                < img.spec_width() && blobs[i].centroid.1 < img.spec_height(),
{
    let (width, height) = img.dimensions();
    let mut visited: Vec<bool> = blank_table(width, height);
    let mut blobs: Vec<Blob> = Vec::new();
    let ghost mut stars: Seq<(u32, u32)> = Seq::empty();
    proof {
        lemma_scan_start(img@, threshold, width as int, visited@);
        assert(blobs@.map_values(|blob: Blob| blob.seed) =~= stars);
    }
    let mut y: u32 = 0;
    while y < height
        invariant
            width == img.spec_width(),
            height == img.spec_height(),
            rectangular(img@, width as nat),
            width * height <= usize::MAX,
            visited@.len() == width * height,
            y <= height,
            scanned(img@, threshold, width as int, visited@, stars, (0, y as int)),
            stars == blobs@.map_values(|blob: Blob| blob.seed),
            forall|i: int|
                0 <= i < blobs.len() ==> #[trigger] blobs[i] == blob_at(
                    img@,
                    threshold,
                    blobs[i].seed,
                ),
            forall|i: int|
                0 <= i < blobs.len() ==> (#[trigger] blobs[i]).size >= 1 && blobs[i].centroid.0
                    < width && blobs[i].centroid.1 < height,
        decreases height - y,
    {
        let mut x: u32 = 0;
        while x < width
            invariant
                width == img.spec_width(),
                height == img.spec_height(),
                rectangular(img@, width as nat),
                width * height <= usize::MAX,
                visited@.len() == width * height,
                y < height,
                x <= width,
                scanned(img@, threshold, width as int, visited@, stars, (x as int, y as int)),
                stars == blobs@.map_values(|blob: Blob| blob.seed),
                forall|i: int|
                    0 <= i < blobs.len() ==> #[trigger] blobs[i] == blob_at(
                        img@,
                        threshold,
                        blobs[i].seed,
                    ),
                forall|i: int|
                    0 <= i < blobs.len() ==> (#[trigger] blobs[i]).size >= 1
                        && blobs[i].centroid.0 < width && blobs[i].centroid.1 < height,
            decreases width - x,
        {
            if !is_marked(&visited, width, height, x, y) && buffer_get(img, x, y) >= threshold {
                let ghost before = visited@;
                let blob = flood_fill(img, threshold, width, height, &mut visited, x, y);
                proof {
                    lemma_scan_found(
                        img@,
                        threshold,
                        width as int,
                        before,
                        visited@,
                        stars,
                        (x, y),
                    );
                    assert(blobs@.push(blob).map_values(|blob: Blob| blob.seed) =~= stars.push(
                        (x, y),
                    ));
                    stars = stars.push((x, y));
                }
                blobs.push(blob);
            } else {
                proof {
                    lemma_scan_skip(
                        img@,
                        threshold,
                        width as int,
                        visited@,
                        stars,
                        (x as int, y as int),
                    );
                }
            }
            x += 1;
        }
        proof {
            lemma_scan_next_row(img@, threshold, width as int, visited@, stars, y as int);
        }
        y += 1;
    }
    blobs
}

/// Finds the bright blobs of `img` and returns one pixel for each: its scan
/// seed, the first pixel of the blob in a scan by rows from the top, each
/// row from the left. The seeds come in the order of that scan.
pub fn get_stars_from_image(img: &GrayscaleBuffer, threshold: u8) -> (stars: Vec<(u32, u32)>)
    ensures
        is_seed_list(img@, threshold, stars@),
        forall|p: (int, int)|
            #[trigger] bright(img@, threshold, p) ==> represented(img@, threshold, stars@, p),
{
    let blobs = extract_blobs(img, threshold);
    let mut stars: Vec<(u32, u32)> = Vec::new();
    let mut i: usize = 0;
    while i < blobs.len()
        invariant
            i <= blobs.len(),
            stars@ == blobs@.map_values(|blob: Blob| blob.seed).take(i as int),
        decreases blobs.len() - i,
    {
        stars.push(blobs[i].seed);
        proof {
            let seeds = blobs@.map_values(|blob: Blob| blob.seed);
            assert(seeds.take(i + 1) =~= seeds.take(i as int).push(seeds[i as int]));
        }
        i += 1;
    }
    proof {
        let seeds = blobs@.map_values(|blob: Blob| blob.seed);
        assert(seeds.take(i as int) =~= seeds);
    }
    stars
}

/// Finds the bright blobs of `img` and returns one pixel for each: its
/// centroid, the mean of the blob's pixels with each coordinate rounded to
/// the nearest whole number. The centroids come in the order in which a scan
/// by rows meets the blobs.
pub fn get_star_centroids_from_image(img: &GrayscaleBuffer, threshold: u8) -> (stars: Vec<
    (u32, u32),
>)
    ensures
        exists|blobs: Seq<Blob>|
            #[trigger] is_blob_list(img@, threshold, blobs) && stars@ == blobs.map_values(
                |blob: Blob| blob.centroid,
            ),
{
    let blobs = extract_blobs(img, threshold);
    let mut stars: Vec<(u32, u32)> = Vec::new();
    let mut i: usize = 0;
    while i < blobs.len()
        invariant
            i <= blobs.len(),
            stars@ == blobs@.map_values(|blob: Blob| blob.centroid).take(i as int),
        decreases blobs.len() - i,
    {
        stars.push(blobs[i].centroid);
        proof {
            let centroids = blobs@.map_values(|blob: Blob| blob.centroid);
            assert(centroids.take(i + 1) =~= centroids.take(i as int).push(centroids[i as int]));
        }
        i += 1;
    }
    proof {
        let centroids = blobs@.map_values(|blob: Blob| blob.centroid);
        assert(centroids.take(i as int) =~= centroids);
    }
    stars
}

} // verus!
