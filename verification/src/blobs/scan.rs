//! What a scan by rows knows when it stands before a pixel.

use vstd::prelude::*;
use crate::blobs::fill::{closed, lemma_closed_reaches, marked, marks_bright};
use crate::blobs::{bright, connected, is_path, is_seed, represented};
use crate::frame::{holds, point, rectangular, scans_before};

verus! {

/// A pixel connected to a listed star is represented.
proof fn lemma_represented_by(
    rows: Seq<Seq<u8>>,
    threshold: u8,
    stars: Seq<(u32, u32)>,
    i: int,
    p: (int, int),
)
    requires
        0 <= i < stars.len(),
        connected(rows, threshold, point(stars[i]), p),
    ensures
        represented(rows, threshold, stars, p),
{
    reveal(represented);
}

/// A longer list represents what the shorter one did.
proof fn lemma_represented_still(
    rows: Seq<Seq<u8>>,
    threshold: u8,
    stars: Seq<(u32, u32)>,
    c: (u32, u32),
    p: (int, int),
)
    requires
        represented(rows, threshold, stars, p),
    ensures
        represented(rows, threshold, stars.push(c), p),
{
    reveal(represented);
    let i = choose|i: int|
        0 <= i < stars.len() && #[trigger] connected(rows, threshold, point(stars[i]), p);
    assert(stars.push(c)[i] == stars[i]);
}

/// A pixel whose blob holds an earlier pixel is no seed.
proof fn lemma_represented_is_no_seed(
    rows: Seq<Seq<u8>>,
    threshold: u8,
    stars: Seq<(u32, u32)>,
    p: (int, int),
)
    requires
        represented(rows, threshold, stars, p),
        forall|i: int| 0 <= i < stars.len() ==> scans_before(point(#[trigger] stars[i]), p),
    ensures
        !is_seed(rows, threshold, p),
{
    reveal(represented);
}

/// The state of the scan when it stands before pixel `pos`: the blobs that
/// begin before `pos` are marked whole, nothing else is, and `stars` lists
/// their seeds in order.
pub(super) open spec fn scanned(
    rows: Seq<Seq<u8>>,
    threshold: u8,
    width: int,
    table: Seq<bool>,
    stars: Seq<(u32, u32)>,
    pos: (int, int),
) -> bool {
    &&& marks_bright(rows, threshold, table, width)
    &&& closed(rows, threshold, table, width)
    &&& forall|p: (int, int)|
        #[trigger] bright(rows, threshold, p) && scans_before(p, pos) ==> marked(table, width, p)
    &&& forall|p: (int, int)|
        #[trigger] marked(table, width, p) ==> represented(rows, threshold, stars, p)
    &&& forall|i: int|
        0 <= i < stars.len() ==> is_seed(rows, threshold, point(#[trigger] stars[i]))
            && scans_before(point(stars[i]), pos)
    &&& forall|p: (int, int)|
        #[trigger] is_seed(rows, threshold, p) && scans_before(p, pos) ==> holds(stars, p)
    &&& forall|i: int, j: int|
        0 <= i < j < stars.len() ==> scans_before(
            point(#[trigger] stars[i]),
            point(#[trigger] stars[j]),
        )
}

/// Before the first pixel nothing is marked and nothing is listed.
pub(super) proof fn lemma_scan_start(
    rows: Seq<Seq<u8>>,
    threshold: u8,
    width: int,
    table: Seq<bool>,
)
    requires
        forall|p: (int, int)| !#[trigger] marked(table, width, p),
    ensures
        scanned(rows, threshold, width, table, Seq::empty(), (0, 0)),
{
    assert forall|p: (int, int)|
        is_seed(rows, threshold, p) && scans_before(p, (0, 0)) implies holds(Seq::empty(), p) by {}
}

/// The scan passes a pixel that is dark or already marked.
pub(super) proof fn lemma_scan_skip(
    rows: Seq<Seq<u8>>,
    threshold: u8,
    width: int,
    table: Seq<bool>,
    stars: Seq<(u32, u32)>,
    pos: (int, int),
)
    requires
        scanned(rows, threshold, width, table, stars, pos),
        !bright(rows, threshold, pos) || marked(table, width, pos),
    ensures
        scanned(rows, threshold, width, table, stars, (pos.0 + 1, pos.1)),
{
    let next = (pos.0 + 1, pos.1);
    if marked(table, width, pos) {
        lemma_represented_is_no_seed(rows, threshold, stars, pos);
    }
    assert forall|p: (int, int)|
        #[trigger] is_seed(rows, threshold, p) && scans_before(p, next) implies holds(stars, p) by {
        assert(p != pos);
        assert(scans_before(p, pos));
    }
}

/// The scan stands on a bright pixel that is not marked: it is the seed of
/// a new blob, and once the blob is marked the scan can go on.
pub(super) proof fn lemma_scan_found(
    rows: Seq<Seq<u8>>,
    threshold: u8,
    width: int,
    before: Seq<bool>,
    table: Seq<bool>,
    stars: Seq<(u32, u32)>,
    c: (u32, u32),
)
    requires
        scanned(rows, threshold, width, before, stars, point(c)),
        bright(rows, threshold, point(c)),
        !marked(before, width, point(c)),
        marks_bright(rows, threshold, table, width),
        closed(rows, threshold, table, width),
        marked(table, width, point(c)),
        forall|p: (int, int)| #[trigger] marked(before, width, p) ==> marked(table, width, p),
        forall|p: (int, int)|
            #[trigger] marked(table, width, p) && !marked(before, width, p) ==> connected(
                rows,
                threshold,
                point(c),
                p,
            ),
    ensures
        scanned(rows, threshold, width, table, stars.push(c), (point(c).0 + 1, point(c).1)),
{
    let pos = point(c);
    let next = (pos.0 + 1, pos.1);
    let longer = stars.push(c);
    assert forall|q: (int, int)|
        #[trigger] connected(rows, threshold, q, pos) implies !scans_before(q, pos) by {
        if scans_before(q, pos) {
            let path = choose|path: Seq<(int, int)>|
                #[trigger] is_path(rows, threshold, path) && path[0] == q && path.last() == pos;
            assert(bright(rows, threshold, path[0]));
            assert(marked(before, width, q));
            lemma_closed_reaches(rows, threshold, before, width, q, pos);
        }
    }
    assert(is_seed(rows, threshold, pos));
    assert forall|p: (int, int)|
        #[trigger] bright(rows, threshold, p) && scans_before(p, next) implies marked(
        table,
        width,
        p,
    ) by {
        if p != pos {
            assert(scans_before(p, pos));
            assert(marked(before, width, p));
        }
    }
    assert forall|p: (int, int)| #[trigger] marked(table, width, p) implies represented(
        rows,
        threshold,
        longer,
        p,
    ) by {
        if marked(before, width, p) {
            lemma_represented_still(rows, threshold, stars, c, p);
        } else {
            lemma_represented_by(rows, threshold, longer, stars.len() as int, p);
        }
    }
    assert forall|i: int| 0 <= i < longer.len() implies is_seed(
        rows,
        threshold,
        point(#[trigger] longer[i]),
    ) && scans_before(point(longer[i]), next) by {
        if i < stars.len() {
            assert(longer[i] == stars[i]);
            assert(scans_before(point(stars[i]), pos));
        }
    }
    assert forall|p: (int, int)|
        #[trigger] is_seed(rows, threshold, p) && scans_before(p, next) implies holds(
        longer,
        p,
    ) by {
        if p == pos {
            assert(point(longer[stars.len() as int]) == p);
        } else {
            assert(scans_before(p, pos));
            assert(holds(stars, p));
            let i = choose|i: int| 0 <= i < stars.len() && point(#[trigger] stars[i]) == p;
            assert(point(longer[i]) == p);
        }
    }
    assert forall|i: int, j: int| 0 <= i < j < longer.len() implies scans_before(
        point(#[trigger] longer[i]),
        point(#[trigger] longer[j]),
    ) by {
        assert(longer[i] == stars[i]);
        if j < stars.len() {
            assert(longer[j] == stars[j]);
        } else {
            assert(scans_before(point(stars[i]), pos));
        }
    }
}

/// The end of one row is the start of the next.
pub(super) proof fn lemma_scan_next_row(
    rows: Seq<Seq<u8>>,
    threshold: u8,
    width: int,
    table: Seq<bool>,
    stars: Seq<(u32, u32)>,
    y: int,
)
    requires
        rectangular(rows, width as nat),
        0 <= width,
        scanned(rows, threshold, width, table, stars, (width, y)),
    ensures
        scanned(rows, threshold, width, table, stars, (0, y + 1)),
{
    let pos = (width, y);
    let next = (0, y + 1);
    assert forall|p: (int, int)|
        #[trigger] bright(rows, threshold, p) && scans_before(p, next) implies marked(
        table,
        width,
        p,
    ) by {
        assert(scans_before(p, pos));
    }
    assert forall|p: (int, int)|
        #[trigger] is_seed(rows, threshold, p) && scans_before(p, next) implies holds(stars, p) by {
        assert(scans_before(p, pos));
    }
}

} // verus!
