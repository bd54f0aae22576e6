//! A single-channel 8-bit raster, kept in an `image::GrayImage`.

use vstd::prelude::*;

verus! {

/// A grayscale raster: `width` columns by `height` rows of 8-bit intensities,
/// origin at the top left.
///
/// The pixels live in an `image::GrayImage`, which the verifier cannot look
/// into. What the raster holds is named by [`frame_rows`] and
/// [`frame_width`]; the private functions of this module that touch the
/// `GrayImage` state, without proof, what each call does to those two.
#[verifier::external_body]
pub struct GrayscaleBuffer {
    inner: image::GrayImage,
}

/// The rows of a raster from top to bottom, each from left to right.
pub uninterp spec fn frame_rows(frame: &GrayscaleBuffer) -> Seq<Seq<u8>>;

/// The number of columns of a raster, which its rows alone do not give when
/// there are none.
pub uninterp spec fn frame_width(frame: &GrayscaleBuffer) -> nat;

/// The pixel that a pair of coordinates names: column first, then row.
pub open spec fn point(c: (u32, u32)) -> (int, int) {
    (c.0 as int, c.1 as int)
}

/// `coords` names pixel `p`.
pub open spec fn holds(coords: Seq<(u32, u32)>, p: (int, int)) -> bool {
    exists|i: int| 0 <= i < coords.len() && point(#[trigger] coords[i]) == p
}

/// A scan by rows from the top, each row from the left, meets `a` before `b`.
pub open spec fn scans_before(a: (int, int), b: (int, int)) -> bool {
    a.1 < b.1 || (a.1 == b.1 && a.0 < b.0)
}

/// Every one of `rows` has `width` entries.
pub open spec fn rectangular(rows: Seq<Seq<u8>>, width: nat) -> bool {
    forall|y: int| 0 <= y < rows.len() ==> (#[trigger] rows[y]).len() == width
}

/// `rows` is `samples` cut into `height` rows of `width` entries.
pub open spec fn row_major(rows: Seq<Seq<u8>>, width: nat, height: nat, samples: Seq<u8>) -> bool {
    &&& rows.len() == height
    &&& rectangular(rows, width)
    &&& width * height <= samples.len()
    &&& forall|x: int, y: int|
        0 <= x < width && 0 <= y < height ==> (#[trigger] rows[y][x]) == samples[y * width + x]
}

/// `image::ImageBuffer::from_raw` for one 8-bit channel. It succeeds exactly
/// when `samples` holds at least `width * height` entries, and then the
/// raster is the first `width * height` of them, row by row.
#[verifier::external_body]
fn buffer_from_raw(width: u32, height: u32, samples: Vec<u8>) -> (made: Option<GrayscaleBuffer>)
    ensures
        made is Some <==> width * height <= samples.len(),
        made matches Some(frame) ==> frame_width(&frame) == width && row_major(
            frame_rows(&frame),
            width as nat,
            height as nat,
            samples@,
        ),
{
    image::GrayImage::from_raw(width, height, samples).map(|inner| GrayscaleBuffer { inner })
}

/// `image::ImageBuffer::new`: a raster of the given size with every pixel 0.
/// The call panics when the pixel count does not fit `usize`.
#[verifier::external_body]
pub(crate) fn buffer_new(width: u32, height: u32) -> (frame: GrayscaleBuffer)
    requires
        width * height <= usize::MAX,
    ensures
        frame_width(&frame) == width,
        frame_rows(&frame).len() == height,
        rectangular(frame_rows(&frame), width as nat),
        forall|x: int, y: int|
            0 <= x < width && 0 <= y < height ==> (#[trigger] frame_rows(&frame)[y][x]) == 0,
{
    GrayscaleBuffer { inner: image::GrayImage::new(width, height) }
}

/// `image::ImageBuffer::dimensions`: width and height. Every raster is
/// rectangular and its pixel count fits `usize`, since `from_raw` and `new`
/// let no other be made.
#[verifier::external_body]
fn buffer_dimensions(frame: &GrayscaleBuffer) -> (size: (u32, u32))
    ensures
        size.0 == frame_width(frame),
        size.1 == frame_rows(frame).len(),
        rectangular(frame_rows(frame), size.0 as nat),
        size.0 * size.1 <= usize::MAX,
{
    frame.inner.dimensions()
}

/// `image::ImageBuffer::get_pixel`: the intensity at column `x` of row `y`.
/// The call panics outside the raster.
#[verifier::external_body]
pub(crate) fn buffer_get(frame: &GrayscaleBuffer, x: u32, y: u32) -> (value: u8)
    requires
        x < frame_width(frame),
        y < frame_rows(frame).len(),
    ensures
        value == frame_rows(frame)[y as int][x as int],
{
    frame.inner.get_pixel(x, y).0[0]
}

/// `image::ImageBuffer::put_pixel`: overwrites the intensity at column `x` of
/// row `y` and nothing else. The call panics outside the raster.
#[verifier::external_body]
pub(crate) fn buffer_put(frame: &mut GrayscaleBuffer, x: u32, y: u32, value: u8)
    requires
        x < frame_width(old(frame)),
        y < frame_rows(old(frame)).len(),
    ensures
        frame_width(final(frame)) == frame_width(old(frame)),
        frame_rows(final(frame)) == frame_rows(old(frame)).update(
            y as int,
            frame_rows(old(frame))[y as int].update(x as int, value),
        ),
{
    frame.inner.put_pixel(x, y, image::Luma([value]));
}

/// `image::ImageBuffer::into_raw`: the samples that the raster was made
/// of, row by row, with whatever the buffer holds beyond them.
#[verifier::external_body]
fn buffer_into_raw(frame: GrayscaleBuffer) -> (samples: Vec<u8>)
    ensures
        row_major(frame_rows(&frame), frame_width(&frame), frame_rows(&frame).len(), samples@),
{
    frame.inner.into_raw()
}

impl View for GrayscaleBuffer {
    type V = Seq<Seq<u8>>;

    /// The rows of the raster from top to bottom.
    open spec fn view(&self) -> Seq<Seq<u8>> {
        frame_rows(self)
    }
}

impl GrayscaleBuffer {
    /// The number of columns.
    pub open spec fn spec_width(&self) -> nat {
        frame_width(self)
    }

    /// The number of rows.
    pub open spec fn spec_height(&self) -> nat {
        frame_rows(self).len()
    }

    /// Makes a raster from `samples` in row-major order, or `None` when they
    /// are fewer than `width * height`. Samples beyond that count are ignored.
    pub fn from_raw(width: u32, height: u32, samples: Vec<u8>) -> (made: Option<GrayscaleBuffer>)
        ensures
            made is Some <==> width * height <= samples.len(),
            made matches Some(frame) ==> frame.spec_width() == width && row_major(
                frame@,
                width as nat,
                height as nat,
                samples@,
            ),
    {
        buffer_from_raw(width, height, samples)
    }

    /// Takes the raster apart: its `width * height` samples in row-major
    /// order.
    pub fn into_raw(self) -> (samples: Vec<u8>)
        ensures
            samples@.len() == self.spec_width() * self.spec_height(),
            row_major(self@, self.spec_width(), self.spec_height(), samples@),
    {
        let (width, height) = buffer_dimensions(&self);
        let mut samples = buffer_into_raw(self);
        let ghost all = samples@;
        samples.truncate((width as usize) * (height as usize));
        proof {
            assert forall|x: int, y: int| 0 <= x < width && 0 <= y < height implies (
            #[trigger] self@[y][x]) == samples@[y * width + x] by {
                assert(0 <= y * width + x < width * height) by (nonlinear_arith)
                    requires
                        0 <= x < width,
                        0 <= y < height,
                ;
                assert(self@[y][x] == all[y * width + x]);
            }
        }
        samples
    }

    /// Width and height in pixels.
    pub fn dimensions(&self) -> (size: (u32, u32))
        ensures
            size.0 == self.spec_width(),
            size.1 == self.spec_height(),
            rectangular(self@, size.0 as nat),
            size.0 * size.1 <= usize::MAX,
    {
        buffer_dimensions(self)
    }

    /// Makes a raster of the given size with every pixel 0.
    pub fn new(width: u32, height: u32) -> (frame: GrayscaleBuffer)
        requires
            width * height <= usize::MAX,
        ensures
            frame.spec_width() == width,
            frame.spec_height() == height,
            rectangular(frame@, width as nat),
            forall|x: int, y: int|
                0 <= x < width && 0 <= y < height ==> (#[trigger] frame@[y][x]) == 0,
    {
        buffer_new(width, height)
    }

    /// Overwrites the intensity at column `x` of row `y`. Outside the raster
    /// nothing is written and the answer is `false`.
    pub fn put_pixel(&mut self, x: u32, y: u32, value: u8) -> (written: bool)
        ensures
            written <==> x < old(self).spec_width() && y < old(self).spec_height(),
            final(self).spec_width() == old(self).spec_width(),
            written ==> final(self)@ == old(self)@.update(
                y as int,
                old(self)@[y as int].update(x as int, value),
            ),
            !written ==> final(self)@ == old(self)@,
    {
        let (width, height) = buffer_dimensions(self);
        if x < width && y < height {
            buffer_put(self, x, y, value);
            true
        } else {
            false
        }
    }

    /// The intensity at column `x` of row `y`, or `None` outside the raster.
    pub fn get_pixel(&self, x: u32, y: u32) -> (value: Option<u8>)
        ensures
            value is Some <==> x < self.spec_width() && y < self.spec_height(),
            value matches Some(v) ==> v == self@[y as int][x as int],
    {
        let (width, height) = buffer_dimensions(self);
        if x < width && y < height {
            Some(buffer_get(self, x, y))
        } else {
            None
        }
    }
}

} // verus!
