//! Intensity levels: the span of a raster's intensities, and a change of
//! every intensity by a table.
//!
//! Stretching the contrast of a raster takes three steps: find the darkest
//! and the brightest intensity, make a table that says what each intensity
//! becomes, and put every pixel through the table. The first and the last
//! step are here. The table is for the caller to make.

use vstd::prelude::*;
use crate::frame::{buffer_get, buffer_put, rectangular, scans_before, GrayscaleBuffer};

verus! {

/// `lo` is the darkest and `hi` the brightest intensity in `rows`.
pub open spec fn is_range_of(rows: Seq<Seq<u8>>, lo: u8, hi: u8) -> bool {
    &&& forall|x: int, y: int|
        0 <= y < rows.len() && 0 <= x < rows[y].len() ==> lo <= (#[trigger] rows[y][x]) <= hi
    &&& exists|x: int, y: int|
        0 <= y < rows.len() && 0 <= x < rows[y].len() && (#[trigger] rows[y][x]) == lo
    &&& exists|x: int, y: int|
        0 <= y < rows.len() && 0 <= x < rows[y].len() && (#[trigger] rows[y][x]) == hi
}

/// `after` is `before` with every intensity looked up in `table`.
pub open spec fn is_relevelled(
    before: Seq<Seq<u8>>,
    after: Seq<Seq<u8>>,
    width: nat,
    table: Seq<u8>,
) -> bool {
    &&& after.len() == before.len()
    &&& rectangular(after, width)
    &&& forall|x: int, y: int|
        0 <= y < before.len() && 0 <= x < width ==> (#[trigger] after[y][x])
            == table[before[y][x] as int]
}

/// Finds the darkest and the brightest intensity of `img`, in this order,
/// or `None` where the raster has no pixel.
pub fn intensity_range(img: &GrayscaleBuffer) -> (range: Option<(u8, u8)>)
    ensures
        range is None <==> img.spec_width() == 0 || img.spec_height() == 0,
        range matches Some((lo, hi)) ==> is_range_of(img@, lo, hi),
{
    let (width, height) = img.dimensions();
    if width == 0 || height == 0 {
        return None;
    }
    let mut lo: u8 = u8::MAX;
    let mut hi: u8 = 0;
    let ghost mut lo_at: (int, int) = (0, 0);
    let ghost mut hi_at: (int, int) = (0, 0);
    let mut y: u32 = 0;
    while y < height
        invariant
            width == img.spec_width(),
            height == img.spec_height(),
            rectangular(img@, width as nat),
            width > 0,
            y <= height,
            y == 0 ==> lo == u8::MAX && hi == 0,
            forall|px: int, py: int|
                0 <= px < width && 0 <= py < y ==> lo <= (#[trigger] img@[py][px]) <= hi,
            y > 0 ==> 0 <= lo_at.0 < width && 0 <= lo_at.1 < y && img@[lo_at.1][lo_at.0] == lo,
            y > 0 ==> 0 <= hi_at.0 < width && 0 <= hi_at.1 < y && img@[hi_at.1][hi_at.0] == hi,
        decreases height - y,
    {
        let mut x: u32 = 0;
        while x < width
            invariant
                width == img.spec_width(),
                height == img.spec_height(),
                rectangular(img@, width as nat),
                y < height,
                x <= width,
                x == 0 && y == 0 ==> lo == u8::MAX && hi == 0,
                forall|px: int, py: int|
                    0 <= px < width && 0 <= py < height && scans_before(
                        (px, py),
                        (x as int, y as int),
                    ) ==> lo <= (#[trigger] img@[py][px]) <= hi,
                x > 0 || y > 0 ==> 0 <= lo_at.0 < width && scans_before(
                    lo_at,
                    (x as int, y as int),
                ) && 0 <= lo_at.1 && img@[lo_at.1][lo_at.0] == lo,
                x > 0 || y > 0 ==> 0 <= hi_at.0 < width && scans_before(
                    hi_at,
                    (x as int, y as int),
                ) && 0 <= hi_at.1 && img@[hi_at.1][hi_at.0] == hi,
            decreases width - x,
        {
            let value = buffer_get(img, x, y);
            if value < lo {
                lo = value;
            }
            if value > hi {
                hi = value;
            }
            proof {
                if value == lo {
                    lo_at = (x as int, y as int);
                }
                if value == hi {
                    hi_at = (x as int, y as int);
                }
            }
            x += 1;
        }
        y += 1;
    }
    proof {
        assert(img@[lo_at.1][lo_at.0] == lo);
        assert(img@[hi_at.1][hi_at.0] == hi);
        assert forall|px: int, py: int|
            0 <= py < img@.len() && 0 <= px < img@[py].len() implies lo <= (
        #[trigger] img@[py][px]) <= hi by {}
    }
    Some((lo, hi))
}

/// Replaces every intensity `v` of `img` by `table[v]`.
pub fn apply_levels(img: &mut GrayscaleBuffer, table: &[u8; 256])
    ensures
        final(img).spec_width() == old(img).spec_width(),
        is_relevelled(old(img)@, final(img)@, old(img).spec_width(), table@),
{
    let (width, height) = img.dimensions();
    let ghost before = img@;
    let mut y: u32 = 0;
    while y < height
        invariant
            width == img.spec_width(),
            height == before.len(),
            img@.len() == before.len(),
            rectangular(before, width as nat),
            rectangular(img@, width as nat),
            y <= height,
            forall|px: int, py: int|
                0 <= px < width && 0 <= py < height ==> (#[trigger] img@[py][px]) == if py < y {
                    table@[before[py][px] as int]
                } else {
                    before[py][px]
                },
        decreases height - y,
    {
        let mut x: u32 = 0;
        while x < width
            invariant
                width == img.spec_width(),
                height == before.len(),
                img@.len() == before.len(),
                rectangular(before, width as nat),
                rectangular(img@, width as nat),
                y < height,
                x <= width,
                forall|px: int, py: int|
                    0 <= px < width && 0 <= py < height ==> (#[trigger] img@[py][px])
                        == if scans_before((px, py), (x as int, y as int)) {
                        table@[before[py][px] as int]
                    } else {
                        before[py][px]
                    },
            decreases width - x,
        {
            let ghost now = img@;
            let value = buffer_get(img, x, y);
            buffer_put(img, x, y, table[value as usize]);
            proof {
                assert forall|py: int| 0 <= py < img@.len() implies (#[trigger] img@[py]).len()
                    == width by {
                    assert(now[py].len() == width);
                }
                assert forall|px: int, py: int| 0 <= px < width && 0 <= py < height implies (
                #[trigger] img@[py][px]) == if scans_before((px, py), (x + 1, y as int)) {
                    table@[before[py][px] as int]
                } else {
                    before[py][px]
                } by {
                    assert(now[py].len() == width);
                    assert(now[py][px] == if scans_before((px, py), (x as int, y as int)) {
                        table@[before[py][px] as int]
                    } else {
                        before[py][px]
                    });
                }
            }
            x += 1;
        }
        y += 1;
    }
}

} // verus!
