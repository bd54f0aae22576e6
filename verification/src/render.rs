//! A raster of marks, for looking at where stars were predicted.

use vstd::prelude::*;
use crate::frame::{buffer_new, buffer_put, holds, rectangular, GrayscaleBuffer};

verus! {

/// The intensity of a marked pixel.
pub const MARK: u8 = 255;

/// `rows` is the picture of `coords` on a raster of the given size: 255 on
/// every pixel that `coords` names, 0 on every other.
pub open spec fn is_marking(
    rows: Seq<Seq<u8>>,
    width: nat,
    height: nat,
    coords: Seq<(u32, u32)>,
) -> bool {
    &&& rows.len() == height
    &&& rectangular(rows, width)
    &&& forall|x: int, y: int|
        0 <= x < width && 0 <= y < height ==> (#[trigger] rows[y][x]) == if holds(coords, (x, y)) {
            MARK
        } else {
            0u8
        }
}

/// Draws `coords` on a black raster of the given size. A coordinate outside
/// the raster leaves no mark.
pub fn render_marks(width: u32, height: u32, coords: &Vec<(u32, u32)>) -> (raster: GrayscaleBuffer)
    requires
        width * height <= usize::MAX,
    ensures
        raster.spec_width() == width,
        is_marking(raster@, width as nat, height as nat, coords@),
{
    let mut raster = buffer_new(width, height);
    let mut i: usize = 0;
    assert forall|x: int, y: int| 0 <= x < width && 0 <= y < height implies !holds(
        coords@.take(0),
        (x, y),
    ) by {}
    while i < coords.len()
        invariant
            i <= coords.len(),
            raster.spec_width() == width,
            is_marking(raster@, width as nat, height as nat, coords@.take(i as int)),
        decreases coords.len() - i,
    {
        let (x, y) = coords[i];
        let ghost before = raster@;
        let ghost seen = coords@.take(i as int);
        let ghost more = coords@.take(i + 1);
        if x < width && y < height {
            buffer_put(&mut raster, x, y, MARK);
        }
        proof {
            assert(more =~= seen.push((x, y)));
            assert forall|px: int, py: int| 0 <= px < width && 0 <= py < height implies (
            #[trigger] raster@[py][px]) == if holds(more, (px, py)) {
                MARK
            } else {
                0u8
            } by {
                assert(before[py].len() == width);
                if holds(seen, (px, py)) {
                    let k = choose|k: int|
                        0 <= k < seen.len() && crate::frame::point(#[trigger] seen[k]) == (px, py);
                    assert(crate::frame::point(more[k]) == (px, py));
                }
                if px == x && py == y {
                    assert(crate::frame::point(more[i as int]) == (px, py));
                } else if holds(more, (px, py)) {
                    let k = choose|k: int|
                        0 <= k < more.len() && crate::frame::point(#[trigger] more[k]) == (px, py);
                    assert(k < i);
                    assert(crate::frame::point(seen[k]) == (px, py));
                }
            }
            assert forall|py: int| 0 <= py < raster@.len() implies (#[trigger] raster@[py]).len()
                == width by {
                assert(before[py].len() == width);
            }
        }
        i += 1;
    }
    assert(coords@.take(i as int) =~= coords@);
    raster
}

} // verus!
