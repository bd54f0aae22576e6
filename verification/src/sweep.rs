//! The directional sweep: one score for every direction that sees a star.
//!
//! A sweep walks a grid of boresight directions. For each direction the
//! caller works out which stars are in view and where on the image plane
//! they fall; this module lays out the grid and turns what the caller found
//! into the score table. No direction depends on another, so the grid can
//! be cut into parts that are swept apart and whose tables are joined.

use vstd::prelude::*;
use crate::frame::GrayscaleBuffer;
use crate::score::{pin_prick_image, score_of};

verus! {

/// What the camera sees in one direction: how many catalogue stars are in
/// view, and the pixels on which those of them fall that can be projected.
#[derive(Debug)]
pub struct Sighting {
    /// Latitude of the boresight in whole degrees.
    pub lat: i32,
    /// Longitude of the boresight in whole degrees.
    pub lon: i32,
    /// The number of stars in view.
    pub visible: usize,
    /// Where the stars in view fall on the image plane. A pixel may lie
    /// outside the raster.
    pub pixels: Vec<(u32, u32)>,
}

/// The score of one direction.
#[derive(Clone, Copy, Debug, PartialEq, Eq)]
pub struct ScoreRecord {
    /// Latitude of the boresight in whole degrees.
    pub lat: i32,
    /// Longitude of the boresight in whole degrees.
    pub lon: i32,
    /// The pin-prick score of the direction.
    pub score: u32,
}

/// The latitudes of the whole sphere, both ends included.
pub const ALL_LATITUDES: (i32, i32) = (-90, 90);

/// The longitudes of the whole sphere, the upper end left out.
pub const ALL_LONGITUDES: (i32, i32) = (0, 360);

/// The values `from`, `from + step`, `from + 2 * step` and so on, as long as
/// they are below `until`. A step that is not positive gives none.
pub open spec fn steps(from: int, until: int, step: int) -> Seq<int>
    decreases
            (if from < until {
                until - from
            } else {
                0
            }),
{
    if step <= 0 || from >= until {
        Seq::empty()
    } else {
        seq![from] + steps(from + step, until, step)
    }
}

/// The directions of latitude `lat` at the longitudes `lons`.
pub open spec fn grid_row(lat: int, lons: Seq<int>) -> Seq<(i32, i32)> {
    Seq::new(lons.len(), |i: int| (lat as i32, lons[i] as i32))
}

/// The directions at the latitudes `lats` and the longitudes `lons`,
/// latitude by latitude.
pub open spec fn grid(lats: Seq<int>, lons: Seq<int>) -> Seq<(i32, i32)>
    decreases lats.len(),
{
    if lats.len() == 0 {
        Seq::empty()
    } else {
        grid(lats.drop_last(), lons) + grid_row(lats.last(), lons)
    }
}

/// The record that a sighting leaves in the table of a raster with the given
/// rows and width: none where no star is in view or the raster has no
/// pixels, else the pin-prick score of its pixels.
pub open spec fn record_of(rows: Seq<Seq<u8>>, width: nat, cell: Sighting) -> Option<ScoreRecord> {
    if cell.visible == 0 || width == 0 || rows.len() == 0 {
        None
    } else {
        Some(
            ScoreRecord {
                lat: cell.lat,
                lon: cell.lon,
                score: score_of(rows, cell.pixels@) as u32,
            },
        )
    }
}

/// The table of `cells`: the records that they leave, in their order.
pub open spec fn records_of(rows: Seq<Seq<u8>>, width: nat, cells: Seq<Sighting>) -> Seq<
    ScoreRecord,
>
    decreases cells.len(),
{
    if cells.len() == 0 {
        Seq::empty()
    } else {
        match record_of(rows, width, cells.last()) {
            Some(record) => records_of(rows, width, cells.drop_last()).push(record),
            None => records_of(rows, width, cells.drop_last()),
        }
    }
}

/// What `steps` holds: the values from `from` up to but not including
/// `until` that are a whole number of steps above `from`.
pub proof fn lemma_steps_members(from: int, until: int, step: int, v: int)
    requires
        step > 0,
    ensures
        steps(from, until, step).contains(v) <==> from <= v < until && (v - from) % step == 0,
    decreases
            (if from < until {
                until - from
            } else {
                0
            }),
{
    let all = steps(from, until, step);
    if from < until {
        let rest = steps(from + step, until, step);
        lemma_steps_members(from + step, until, step, v);
        assert(all =~= seq![from] + rest);
        if from <= v {
            let d = v - from;
            vstd::arithmetic::div_mod::lemma_mod_sub_multiples_vanish(d, step);
            if d < step {
                vstd::arithmetic::div_mod::lemma_small_mod(d as nat, step as nat);
            }
        }
        if all.contains(v) {
            let i = choose|i: int| 0 <= i < all.len() && all[i] == v;
            if i > 0 {
                assert(rest[i - 1] == v);
            }
        }
        if v == from {
            assert(all[0] == v);
        }
        if rest.contains(v) {
            let i = choose|i: int| 0 <= i < rest.len() && rest[i] == v;
            assert(all[i + 1] == v);
        }
    }
}

/// `steps` ascends.
pub proof fn lemma_steps_ascend(from: int, until: int, step: int, i: int, j: int)
    requires
        step > 0,
        0 <= i < j < steps(from, until, step).len(),
    ensures
        steps(from, until, step)[i] < steps(from, until, step)[j],
    decreases
            (if from < until {
                until - from
            } else {
                0
            }),
{
    let all = steps(from, until, step);
    let rest = steps(from + step, until, step);
    assert(all =~= seq![from] + rest);
    assert(all[j] == rest[j - 1]);
    if i == 0 {
        assert(rest.contains(rest[j - 1]));
        lemma_steps_members(from + step, until, step, rest[j - 1]);
    } else {
        assert(all[i] == rest[i - 1]);
        lemma_steps_ascend(from + step, until, step, i - 1, j - 1);
    }
}

/// A direction without a star in view leaves no record: the table is the
/// same with it and without it.
pub proof fn lemma_unseen_direction_leaves_no_record(
    rows: Seq<Seq<u8>>,
    width: nat,
    cells: Seq<Sighting>,
    cell: Sighting,
)
    requires
        cell.visible == 0,
    ensures
        record_of(rows, width, cell) is None,
        records_of(rows, width, cells.push(cell)) == records_of(rows, width, cells),
{
    assert(cells.push(cell).drop_last() =~= cells);
}

/// The values from `from` up to but not including `until`, `step` apart.
fn range_steps(from: i32, until: i64, step: u32) -> (values: Vec<i32>)
    requires
        until <= i32::MAX + 1,
    ensures
        values@.map_values(|v: i32| v as int) == steps(from as int, until as int, step as int),
{
    let mut values: Vec<i32> = Vec::new();
    if step == 0 {
        assert(values@.map_values(|v: i32| v as int) =~= Seq::<int>::empty());
        return values;
    }
    let mut next: i64 = from as i64;
    while next < until
        invariant
            step > 0,
            from <= next,
            until <= i32::MAX + 1,
            steps(from as int, until as int, step as int) == values@.map_values(|v: i32| v as int)
                + steps(next as int, until as int, step as int),
        decreases until + step - next,
    {
        proof {
            assert(values@.push(next as i32).map_values(|v: i32| v as int) + steps(
                next + step,
                until as int,
                step as int,
            ) =~= values@.map_values(|v: i32| v as int) + (seq![next as int] + steps(
                next + step,
                until as int,
                step as int,
            )));
        }
        values.push(next as i32);
        next = next + step as i64;
    }
    values
}

/// Lays out the grid of a sweep: the directions whose latitude is
/// `lat_range.0` or a whole number of steps above it and at most
/// `lat_range.1`, and whose longitude is `lon_range.0` or a whole number of
/// steps above it and below `lon_range.1`. They come latitude by latitude,
/// each latitude from its lowest longitude up. A step of 0 gives no
/// direction.
pub fn grid_directions(lat_range: (i32, i32), lon_range: (i32, i32), step: u32) -> (directions:
    Vec<(i32, i32)>)
    ensures
        directions@ == grid(
            steps(lat_range.0 as int, lat_range.1 + 1, step as int),
            steps(lon_range.0 as int, lon_range.1 as int, step as int),
        ),
{
    let lats = range_steps(lat_range.0, lat_range.1 as i64 + 1, step);
    let lons = range_steps(lon_range.0, lon_range.1 as i64, step);
    let ghost lat_values = lats@.map_values(|v: i32| v as int);
    let ghost lon_values = lons@.map_values(|v: i32| v as int);
    let mut directions: Vec<(i32, i32)> = Vec::new();
    let mut i: usize = 0;
    while i < lats.len()
        invariant
            i <= lats.len(),
            lat_values == lats@.map_values(|v: i32| v as int),
            lon_values == lons@.map_values(|v: i32| v as int),
            directions@ == grid(lat_values.take(i as int), lon_values),
        decreases lats.len() - i,
    {
        let lat = lats[i];
        let ghost row_start = directions@;
        let mut j: usize = 0;
        while j < lons.len()
            invariant
                j <= lons.len(),
                i < lats.len(),
                lat == lats[i as int],
                lat_values == lats@.map_values(|v: i32| v as int),
                lon_values == lons@.map_values(|v: i32| v as int),
                directions@ == row_start + grid_row(lat as int, lon_values).take(j as int),
            decreases lons.len() - j,
        {
            directions.push((lat, lons[j]));
            proof {
                let row = grid_row(lat as int, lon_values);
                assert(row.take(j + 1) =~= row.take(j as int).push(row[j as int]));
                assert(row[j as int] == (lat, lons[j as int]));
            }
            j += 1;
        }
        proof {
            let row = grid_row(lat as int, lon_values);
            assert(row.take(j as int) =~= row);
            assert(lat_values.take(i + 1).drop_last() =~= lat_values.take(i as int));
            assert(lat_values.take(i + 1).last() == lat as int);
        }
        i += 1;
    }
    assert(lat_values.take(i as int) =~= lat_values);
    directions
}

/// Scores one direction: `None` where no star is in view or the raster has
/// no pixels, else the direction with the pin-prick score of its pixels.
pub fn score_cell(image: &GrayscaleBuffer, cell: &Sighting) -> (record: Option<ScoreRecord>)
    requires
        score_of(image@, cell.pixels@) <= u32::MAX,
    ensures
        record == record_of(image@, image.spec_width(), *cell),
{
    let (width, height) = image.dimensions();
    if cell.visible == 0 || width == 0 || height == 0 {
        None
    } else {
        let score = pin_prick_image(image, &cell.pixels);
        Some(ScoreRecord { lat: cell.lat, lon: cell.lon, score })
    }
}

/// Scores every direction of `cells` against `image` and returns the table:
/// one record for each direction that has a star in view, in the order of
/// `cells`. A raster without pixels gives an empty table.
pub fn sweep(image: &GrayscaleBuffer, cells: &Vec<Sighting>) -> (table: Vec<ScoreRecord>)
    requires
        forall|i: int|
            0 <= i < cells.len() ==> score_of(image@, (#[trigger] cells[i]).pixels@) <= u32::MAX,
    ensures
        table@ == records_of(image@, image.spec_width(), cells@),
{
    let mut table: Vec<ScoreRecord> = Vec::new();
    let mut i: usize = 0;
    while i < cells.len()
        invariant
            i <= cells.len(),
            forall|i: int|
                0 <= i < cells.len() ==> score_of(image@, (#[trigger] cells[i]).pixels@)
                    <= u32::MAX,
            table@ == records_of(image@, image.spec_width(), cells@.take(i as int)),
        decreases cells.len() - i,
    {
        proof {
            assert(cells@.take(i + 1).drop_last() =~= cells@.take(i as int));
            assert(cells@.take(i + 1).last() == cells[i as int]);
        }
        match score_cell(image, &cells[i]) {
            Some(record) => {
                table.push(record);
            },
            None => {},
        }
        i += 1;
    }
    assert(cells@.take(i as int) =~= cells@);
    table
}

/// A grid swept in two parts gives the two tables one after the other.
pub proof fn lemma_records_concat(
    rows: Seq<Seq<u8>>,
    width: nat,
    a: Seq<Sighting>,
    b: Seq<Sighting>,
)
    ensures
        records_of(rows, width, a + b) == records_of(rows, width, a) + records_of(rows, width, b),
    decreases b.len(),
{
    if b.len() == 0 {
        assert(a + b =~= a);
        assert(records_of(rows, width, a) + records_of(rows, width, b) =~= records_of(
            rows,
            width,
            a,
        ));
    } else {
        assert((a + b).drop_last() =~= a + b.drop_last());
        lemma_records_concat(rows, width, a, b.drop_last());
        match record_of(rows, width, b.last()) {
            Some(record) => {
                assert(records_of(rows, width, a) + records_of(rows, width, b) =~= (records_of(
                    rows,
                    width,
                    a,
                ) + records_of(rows, width, b.drop_last())).push(record));
            },
            None => {},
        }
    }
}

/// A sweep over a degenerate input leaves an empty table: where the raster
/// has no pixels, or where no direction has a star in view, as with an empty
/// catalogue.
pub proof fn lemma_nothing_to_score(rows: Seq<Seq<u8>>, width: nat, cells: Seq<Sighting>)
    requires
        width == 0 || rows.len() == 0 || forall|i: int|
            0 <= i < cells.len() ==> (#[trigger] cells[i]).visible == 0,
    ensures
        records_of(rows, width, cells) == Seq::<ScoreRecord>::empty(),
    decreases cells.len(),
{
    if cells.len() > 0 {
        assert(cells.drop_last().len() == cells.len() - 1);
        let rest = cells.drop_last();
        assert forall|i: int| 0 <= i < rest.len() implies (#[trigger] rest[i]) == cells[i] by {}
        lemma_nothing_to_score(rows, width, cells.drop_last());
    }
}

} // verus!
