//! The pin-prick score: how bright a reference raster is at a set of
//! predicted pixel positions.
//!
//! The score is a plain sum. It is not normalised: of two hypotheses the one
//! with more stars has more terms, and a caller who compares such hypotheses
//! has to divide by the count itself.

use vstd::prelude::*;
use crate::frame::{buffer_get, GrayscaleBuffer};

verus! {

/// The intensity of `rows` at column `x` of row `y`, and 0 where the raster
/// has no such pixel.
pub open spec fn intensity(rows: Seq<Seq<u8>>, x: int, y: int) -> int {
    if 0 <= y < rows.len() && 0 <= x < rows[y].len() {
        rows[y][x] as int
    } else {
        0
    }
}

/// The sum of the intensities of `rows` at `coords`, each entry of `coords`
/// counted as often as it occurs.
pub open spec fn score_of(rows: Seq<Seq<u8>>, coords: Seq<(u32, u32)>) -> int
    decreases coords.len(),
{
    if coords.len() == 0 {
        0
    } else {
        score_of(rows, coords.drop_last()) + intensity(
            rows,
            coords.last().0 as int,
            coords.last().1 as int,
        )
    }
}

/// Where nothing is looked at the score is 0.
pub proof fn lemma_score_of_nothing(rows: Seq<Seq<u8>>)
    ensures
        score_of(rows, Seq::empty()) == 0,
{
}

/// No term of a score is negative or above 255.
pub proof fn lemma_score_bounds(rows: Seq<Seq<u8>>, coords: Seq<(u32, u32)>)
    ensures
        0 <= score_of(rows, coords) <= 255 * coords.len(),
    decreases coords.len(),
{
    if coords.len() > 0 {
        lemma_score_bounds(rows, coords.drop_last());
    }
}

/// One more coordinate adds its intensity, so it never lowers the score.
pub proof fn lemma_score_push(rows: Seq<Seq<u8>>, coords: Seq<(u32, u32)>, c: (u32, u32))
    ensures
        score_of(rows, coords.push(c)) == score_of(rows, coords) + intensity(
            rows,
            c.0 as int,
            c.1 as int,
        ),
        score_of(rows, coords.push(c)) >= score_of(rows, coords),
{
    assert(coords.push(c).drop_last() =~= coords);
}

/// The score of two lists put together is the sum of their scores: joining
/// lists never lowers the score, and a coordinate that occurs in both counts
/// twice.
pub proof fn lemma_score_concat(rows: Seq<Seq<u8>>, a: Seq<(u32, u32)>, b: Seq<(u32, u32)>)
    ensures
        score_of(rows, a + b) == score_of(rows, a) + score_of(rows, b),
        score_of(rows, a + b) >= score_of(rows, a),
        score_of(rows, a + b) >= score_of(rows, b),
    decreases b.len(),
{
    lemma_score_bounds(rows, a);
    lemma_score_bounds(rows, b);
    if b.len() == 0 {
        assert(a + b =~= a);
    } else {
        assert((a + b).drop_last() =~= a + b.drop_last());
        lemma_score_concat(rows, a, b.drop_last());
    }
}

/// A coordinate one past the right or the lower edge, or further out, adds
/// nothing.
pub proof fn lemma_outside_adds_nothing(
    rows: Seq<Seq<u8>>,
    width: nat,
    coords: Seq<(u32, u32)>,
    c: (u32, u32),
)
    requires
        crate::frame::rectangular(rows, width),
        c.0 >= width || c.1 >= rows.len(),
    ensures
        score_of(rows, coords.push(c)) == score_of(rows, coords),
{
    lemma_score_push(rows, coords, c);
}

/// The score of the first `upto` coordinates is no greater than the score of
/// them all.
proof fn lemma_score_of_part(rows: Seq<Seq<u8>>, coords: Seq<(u32, u32)>, upto: int)
    requires
        0 <= upto <= coords.len(),
    ensures
        score_of(rows, coords.take(upto)) <= score_of(rows, coords),
{
    assert(coords =~= coords.take(upto) + coords.skip(upto));
    lemma_score_concat(rows, coords.take(upto), coords.skip(upto));
}

/// Sums the intensities of `image` at `coordinates`, or gives `None` where
/// the sum does not fit 32 bits. A coordinate outside the raster adds 0; one
/// that occurs twice is counted twice.
pub fn checked_pin_prick_image(image: &GrayscaleBuffer, coordinates: &Vec<(u32, u32)>) -> (score:
    Option<u32>)
    ensures
        score == if score_of(image@, coordinates@) <= u32::MAX {
            Some(score_of(image@, coordinates@) as u32)
        } else {
            None
        },
{
    let (width, height) = image.dimensions();
    let mut score: u32 = 0;
    let mut i: usize = 0;
    while i < coordinates.len()
        invariant
            width == image.spec_width(),
            height == image.spec_height(),
            crate::frame::rectangular(image@, width as nat),
            i <= coordinates.len(),
            score == score_of(image@, coordinates@.take(i as int)),
        decreases coordinates.len() - i,
    {
        let (x, y) = coordinates[i];
        proof {
            let seen = coordinates@.take(i as int);
            assert(coordinates@.take(i + 1) =~= seen.push((x, y)));
            lemma_score_push(image@, seen, (x, y));
            lemma_score_of_part(image@, coordinates@, i + 1);
        }
        if x < width && y < height {
            let value = buffer_get(image, x, y) as u32;
            if value > u32::MAX - score {
                return None;
            }
            score = score + value;
        }
        i += 1;
    }
    assert(coordinates@.take(i as int) =~= coordinates@);
    Some(score)
}

/// Sums the intensities of `image` at `coordinates`. A coordinate outside the
/// raster adds 0; one that occurs twice is counted twice.
pub fn pin_prick_image(image: &GrayscaleBuffer, coordinates: &Vec<(u32, u32)>) -> (score: u32)
    requires
        score_of(image@, coordinates@) <= u32::MAX,
    ensures
        score == score_of(image@, coordinates@),
{
    proof {
        lemma_score_bounds(image@, coordinates@);
    }
    match checked_pin_prick_image(image, coordinates) {
        Some(score) => score,
        None => 0,
    }
}

} // verus!
