//! The flood fill that marks one blob and measures it.
//!
//! The fill keeps a table with one entry for each pixel of the raster, in
//! row-major order, and a stack of marked pixels whose neighbours it has
//! still to look at. It calls itself nowhere: however large a blob is, what
//! grows is the stack on the heap.

use vstd::prelude::*;
use crate::blobs::{
    adjacent, blob_at, blob_of, bright, column_sum, connected, is_path,
    lemma_connected_reflexive, lemma_connected_step, lemma_connected_symmetric, rounded_mean,
    row_sum, Blob,
};
use crate::frame::{buffer_get, holds, point, rectangular, GrayscaleBuffer};

verus! {

/// Position of pixel `p` in a row-major table with `width` columns.
pub(super) open spec fn cell(width: int, p: (int, int)) -> int {
    p.1 * width + p.0
}

/// The table `table` marks pixel `p`.
pub(super) open spec fn marked(table: Seq<bool>, width: int, p: (int, int)) -> bool {
    &&& 0 <= p.0 < width
    &&& 0 <= p.1
    &&& cell(width, p) < table.len()
    &&& table[cell(width, p)]
}

/// How many entries of `table` are still unset.
spec fn unmarked_count(table: Seq<bool>) -> nat
    decreases table.len(),
{
    if table.len() == 0 {
        0
    } else {
        unmarked_count(table.drop_last()) + if table.last() {
            0nat
        } else {
            1nat
        }
    }
}

proof fn lemma_cell_bound(width: int, height: int, p: (int, int))
    requires
        0 <= p.0 < width,
        0 <= p.1 < height,
    ensures
        0 <= cell(width, p) < width * height,
{
    assert(p.1 * width + width <= height * width) by (nonlinear_arith)
        requires
            0 <= p.1 < height,
            0 < width,
    ;
    assert(0 <= p.1 * width) by (nonlinear_arith)
        requires
            0 <= p.1,
            0 < width,
    ;
    assert(height * width == width * height) by (nonlinear_arith);
}

proof fn lemma_cell_injective(width: int, p: (int, int), q: (int, int))
    requires
        0 <= p.0 < width,
        0 <= q.0 < width,
        cell(width, p) == cell(width, q),
    ensures
        p == q,
{
    assert(p.1 == q.1) by (nonlinear_arith)
        requires
            0 <= p.0 < width,
            0 <= q.0 < width,
            p.1 * width + p.0 == q.1 * width + q.0,
    ;
}

proof fn lemma_unmarked_update(table: Seq<bool>, at: int)
    requires
        0 <= at < table.len(),
        !table[at],
    ensures
        unmarked_count(table.update(at, true)) + 1 == unmarked_count(table),
    decreases table.len(),
{
    let after = table.update(at, true);
    if at == table.len() - 1 {
        assert(after.drop_last() =~= table.drop_last());
    } else {
        assert(after.drop_last() =~= table.drop_last().update(at, true));
        lemma_unmarked_update(table.drop_last(), at);
    }
}

/// Setting the entry of pixel `n` marks `n` and leaves every other pixel as
/// it was.
proof fn lemma_mark(table: Seq<bool>, width: int, height: int, n: (int, int))
    requires
        0 <= n.0 < width,
        0 <= n.1 < height,
        table.len() == width * height,
    ensures
        0 <= cell(width, n) < table.len(),
        marked(table.update(cell(width, n), true), width, n),
        forall|q: (int, int)|
            q != n ==> (#[trigger] marked(table.update(cell(width, n), true), width, q) == marked(
                table,
                width,
                q,
            )),
{
    lemma_cell_bound(width, height, n);
    let after = table.update(cell(width, n), true);
    assert forall|q: (int, int)| q != n implies (#[trigger] marked(after, width, q) == marked(
        table,
        width,
        q,
    )) by {
        if 0 <= q.0 < width && cell(width, q) == cell(width, n) {
            lemma_cell_injective(width, q, n);
        }
    }
}

/// Every marked pixel is bright.
pub(super) open spec fn marks_bright(
    rows: Seq<Seq<u8>>,
    threshold: u8,
    table: Seq<bool>,
    width: int,
) -> bool {
    forall|p: (int, int)| #[trigger] marked(table, width, p) ==> bright(rows, threshold, p)
}

/// Every bright neighbour of a marked pixel is marked too, except for the
/// neighbours of the pixels that wait on `stack` and of `current`.
pub(super) open spec fn closed_except(
    rows: Seq<Seq<u8>>,
    threshold: u8,
    table: Seq<bool>,
    width: int,
    stack: Seq<(u32, u32)>,
    current: Option<(int, int)>,
) -> bool {
    forall|p: (int, int), n: (int, int)|
        #![trigger marked(table, width, p), bright(rows, threshold, n)]
        marked(table, width, p) && adjacent(p, n) && bright(rows, threshold, n) ==> marked(
            table,
            width,
            n,
        ) || holds(stack, p) || current == Some(p)
}

/// The marked pixels are whole blobs: every bright neighbour of a marked
/// pixel is marked.
pub(super) open spec fn closed(
    rows: Seq<Seq<u8>>,
    threshold: u8,
    table: Seq<bool>,
    width: int,
) -> bool {
    closed_except(rows, threshold, table, width, Seq::empty(), None)
}

/// In a closed table a walk that starts on a marked pixel stays on marked
/// pixels.
proof fn lemma_walk_stays_marked(
    rows: Seq<Seq<u8>>,
    threshold: u8,
    table: Seq<bool>,
    width: int,
    path: Seq<(int, int)>,
    upto: int,
)
    requires
        closed(rows, threshold, table, width),
        is_path(rows, threshold, path),
        marked(table, width, path[0]),
        0 <= upto < path.len(),
    ensures
        marked(table, width, path[upto]),
    decreases upto,
{
    if upto > 0 {
        lemma_walk_stays_marked(rows, threshold, table, width, path, upto - 1);
        let p = path[upto - 1];
        let n = path[upto];
        assert(adjacent(p, path[upto - 1 + 1]));
        assert(bright(rows, threshold, n));
        assert(!holds(Seq::<(u32, u32)>::empty(), p));
    }
}

/// In a closed table everything connected to a marked pixel is marked.
pub(super) proof fn lemma_closed_reaches(
    rows: Seq<Seq<u8>>,
    threshold: u8,
    table: Seq<bool>,
    width: int,
    a: (int, int),
    b: (int, int),
)
    requires
        closed(rows, threshold, table, width),
        marked(table, width, a),
        connected(rows, threshold, a, b),
    ensures
        marked(table, width, b),
{
    let path = choose|path: Seq<(int, int)>|
        #[trigger] is_path(rows, threshold, path) && path[0] == a && path.last() == b;
    lemma_walk_stays_marked(rows, threshold, table, width, path, path.len() - 1);
}

/// The state of a flood fill that started from `seed` on the table `before`:
/// what has been marked since belongs to the blob of `seed`, and only the
/// pixels on `stack` and `current` may still have unmarked bright neighbours.
spec fn filling(
    rows: Seq<Seq<u8>>,
    threshold: u8,
    width: int,
    height: int,
    before: Seq<bool>,
    table: Seq<bool>,
    stack: Seq<(u32, u32)>,
    current: Option<(int, int)>,
    seed: (int, int),
) -> bool {
    &&& before.len() == width * height
    &&& table.len() == width * height
    &&& marks_bright(rows, threshold, table, width)
    &&& forall|p: (int, int)| #[trigger] marked(before, width, p) ==> marked(table, width, p)
    &&& forall|p: (int, int)|
        #[trigger] marked(table, width, p) && !marked(before, width, p) ==> connected(
            rows,
            threshold,
            seed,
            p,
        )
    &&& forall|i: int|
        0 <= i < stack.len() ==> {
            &&& (#[trigger] stack[i]).0 < width
            &&& stack[i].1 < height
            &&& marked(table, width, point(stack[i]))
            &&& !marked(before, width, point(stack[i]))
        }
    &&& closed_except(rows, threshold, table, width, stack, current)
}

/// Marking a bright, unmarked pixel of the seed's blob and putting it on the
/// stack keeps a flood fill in order.
proof fn lemma_fill_marks(
    rows: Seq<Seq<u8>>,
    threshold: u8,
    width: int,
    height: int,
    before: Seq<bool>,
    table: Seq<bool>,
    stack: Seq<(u32, u32)>,
    current: Option<(int, int)>,
    seed: (int, int),
    c: (u32, u32),
)
    requires
        filling(rows, threshold, width, height, before, table, stack, current, seed),
        c.0 < width,
        c.1 < height,
        bright(rows, threshold, point(c)),
        !marked(table, width, point(c)),
        connected(rows, threshold, seed, point(c)),
    ensures
        0 <= cell(width, point(c)) < table.len(),
        filling(
            rows,
            threshold,
            width,
            height,
            before,
            table.update(cell(width, point(c)), true),
            stack.push(c),
            current,
            seed,
        ),
        forall|p: (int, int)|
            #[trigger] marked(table, width, p) ==> marked(
                table.update(cell(width, point(c)), true),
                width,
                p,
            ),
        marked(table.update(cell(width, point(c)), true), width, point(c)),
        unmarked_count(table.update(cell(width, point(c)), true)) < unmarked_count(table),
{
    let n = point(c);
    let after = table.update(cell(width, n), true);
    let longer = stack.push(c);
    lemma_mark(table, width, height, n);
    lemma_unmarked_update(table, cell(width, n));
    assert forall|p: (int, int)| #[trigger] marked(table, width, p) implies marked(
        after,
        width,
        p,
    ) by {
        if p != n {
            assert(marked(after, width, p) == marked(table, width, p));
        }
    }
    assert forall|p: (int, int)| #[trigger] marked(after, width, p) implies bright(
        rows,
        threshold,
        p,
    ) by {
        if p != n {
            assert(marked(after, width, p) == marked(table, width, p));
        }
    }
    assert forall|p: (int, int)| #[trigger] marked(before, width, p) implies marked(
        after,
        width,
        p,
    ) by {
        assert(marked(table, width, p));
    }
    assert forall|p: (int, int)|
        #[trigger] marked(after, width, p) && !marked(before, width, p) implies connected(
        rows,
        threshold,
        seed,
        p,
    ) by {
        if p != n {
            assert(marked(after, width, p) == marked(table, width, p));
        }
    }
    assert forall|i: int| 0 <= i < longer.len() implies {
        &&& (#[trigger] longer[i]).0 < width
        &&& longer[i].1 < height
        &&& marked(after, width, point(longer[i]))
        &&& !marked(before, width, point(longer[i]))
    } by {
        if i < stack.len() {
            assert(longer[i] == stack[i]);
            assert(marked(table, width, point(stack[i])));
        } else {
            assert(longer[i] == c);
            if marked(before, width, n) {
                assert(marked(table, width, n));
            }
        }
    }
    assert forall|p: (int, int), m: (int, int)|
        #![trigger marked(after, width, p), bright(rows, threshold, m)]
        marked(after, width, p) && adjacent(p, m) && bright(rows, threshold, m) implies marked(
        after,
        width,
        m,
    ) || holds(longer, p) || current == Some(p) by {
        if p == n {
            assert(point(longer[stack.len() as int]) == p);
        } else {
            assert(marked(after, width, p) == marked(table, width, p));
            if marked(table, width, m) {
                assert(marked(after, width, m));
            } else if holds(stack, p) {
                let i = choose|i: int| 0 <= i < stack.len() && point(#[trigger] stack[i]) == p;
                assert(point(longer[i]) == p);
            }
        }
    }
}

/// Before anything is marked a flood fill is in order.
proof fn lemma_fill_idle(
    rows: Seq<Seq<u8>>,
    threshold: u8,
    width: int,
    height: int,
    before: Seq<bool>,
    seed: (int, int),
)
    requires
        before.len() == width * height,
        marks_bright(rows, threshold, before, width),
        closed(rows, threshold, before, width),
    ensures
        filling(rows, threshold, width, height, before, before, Seq::empty(), None, seed),
{
}

/// When a flood fill has come to rest, what it has marked is the blob of
/// its seed.
proof fn lemma_fill_is_the_blob(
    rows: Seq<Seq<u8>>,
    threshold: u8,
    width: int,
    before: Seq<bool>,
    table: Seq<bool>,
    seed: (int, int),
    filled: Set<(int, int)>,
)
    requires
        closed(rows, threshold, before, width),
        closed(rows, threshold, table, width),
        marked(table, width, seed),
        !marked(before, width, seed),
        forall|p: (int, int)|
            #[trigger] marked(table, width, p) && !marked(before, width, p) ==> connected(
                rows,
                threshold,
                seed,
                p,
            ),
        forall|p: (int, int)|
            filled.contains(p) <==> #[trigger] marked(table, width, p) && !marked(before, width, p),
    ensures
        filled == blob_of(rows, threshold, seed),
{
    let blob = blob_of(rows, threshold, seed);
    assert forall|p: (int, int)| filled.contains(p) <==> blob.contains(p) by {
        if filled.contains(p) {
            assert(marked(table, width, p));
        }
        if connected(rows, threshold, seed, p) {
            lemma_closed_reaches(rows, threshold, table, width, seed, p);
            if marked(before, width, p) {
                lemma_connected_symmetric(rows, threshold, seed, p);
                lemma_closed_reaches(rows, threshold, before, width, p, seed);
            }
        }
    }
    assert(filled =~= blob);
}

/// Taking the top pixel off the stack to work on it keeps a flood fill in
/// order.
proof fn lemma_fill_takes(
    rows: Seq<Seq<u8>>,
    threshold: u8,
    width: int,
    height: int,
    before: Seq<bool>,
    table: Seq<bool>,
    stack: Seq<(u32, u32)>,
    seed: (int, int),
)
    requires
        stack.len() > 0,
        filling(rows, threshold, width, height, before, table, stack, None, seed),
    ensures
        filling(
            rows,
            threshold,
            width,
            height,
            before,
            table,
            stack.drop_last(),
            Some(point(stack.last())),
            seed,
        ),
        stack.last().0 < width,
        stack.last().1 < height,
        connected(rows, threshold, seed, point(stack.last())),
        marked(table, width, point(stack.last())),
{
    let rest = stack.drop_last();
    let current = Some(point(stack.last()));
    assert forall|i: int| 0 <= i < rest.len() implies {
        &&& (#[trigger] rest[i]).0 < width
        &&& rest[i].1 < height
        &&& marked(table, width, point(rest[i]))
        &&& !marked(before, width, point(rest[i]))
    } by {
        assert(rest[i] == stack[i]);
    }
    assert forall|p: (int, int), m: (int, int)|
        #![trigger marked(table, width, p), bright(rows, threshold, m)]
        marked(table, width, p) && adjacent(p, m) && bright(rows, threshold, m) implies marked(
        table,
        width,
        m,
    ) || holds(rest, p) || current == Some(p) by {
        if !marked(table, width, m) {
            assert(holds(stack, p));
            let i = choose|i: int| 0 <= i < stack.len() && point(#[trigger] stack[i]) == p;
            if i < rest.len() {
                assert(point(rest[i]) == p);
            }
        }
    }
    assert(marked(table, width, point(stack[stack.len() - 1])));
}

/// Once every bright neighbour of the pixel being worked on is marked, the
/// pixel needs no more attention.
proof fn lemma_fill_leaves(
    rows: Seq<Seq<u8>>,
    threshold: u8,
    width: int,
    height: int,
    before: Seq<bool>,
    table: Seq<bool>,
    stack: Seq<(u32, u32)>,
    current: (int, int),
    seed: (int, int),
)
    requires
        filling(rows, threshold, width, height, before, table, stack, Some(current), seed),
        forall|n: (int, int)|
            adjacent(current, n) && #[trigger] bright(rows, threshold, n) ==> marked(
                table,
                width,
                n,
            ),
    ensures
        filling(rows, threshold, width, height, before, table, stack, None, seed),
{
}

/// Whether the table marks pixel `(x, y)`.
pub(super) fn is_marked(visited: &Vec<bool>, width: u32, height: u32, x: u32, y: u32) -> (answer:
    bool)
    requires
        visited@.len() == width * height,
        width * height <= usize::MAX,
        x < width,
        y < height,
    ensures
        answer == marked(visited@, width as int, (x as int, y as int)),
{
    proof {
        lemma_cell_bound(width as int, height as int, (x as int, y as int));
        assert(0 <= y * width) by (nonlinear_arith)
            requires
                0 <= y,
                0 <= width,
        ;
    }
    visited[(y as usize) * (width as usize) + (x as usize)]
}

/// A table of the right size for the raster with nothing marked.
pub(super) fn blank_table(width: u32, height: u32) -> (visited: Vec<bool>)
    requires
        width * height <= usize::MAX,
    ensures
        visited@.len() == width * height,
        forall|p: (int, int)| !#[trigger] marked(visited@, width as int, p),
{
    let total: usize = (width as usize) * (height as usize);
    vec![false; total]
}

/// What a flood fill has counted so far: how many pixels it has marked, and
/// the sums of their columns and of their rows.
struct Tally {
    columns: u128,
    rows: u128,
    pixels: usize,
}

/// Adding a pixel to a set adds its column and its row to the sums.
proof fn lemma_sums_insert(pixels: Set<(int, int)>, p: (int, int))
    requires
        pixels.finite(),
        !pixels.contains(p),
    ensures
        pixels.insert(p).finite(),
        pixels.insert(p).len() == pixels.len() + 1,
        column_sum(pixels.insert(p)) == column_sum(pixels) + p.0,
        row_sum(pixels.insert(p)) == row_sum(pixels) + p.1,
{
    let by_column = |sum: int, q: (int, int)| sum + q.0;
    let by_row = |sum: int, q: (int, int)| sum + q.1;
    assert(vstd::set::fold::is_fun_commutative(by_column));
    assert(vstd::set::fold::is_fun_commutative(by_row));
    vstd::set::fold::lemma_fold_insert(pixels, 0int, by_column, p);
    vstd::set::fold::lemma_fold_insert(pixels, 0int, by_row, p);
    vstd::set::axiom_set_insert_len(pixels, p);
    vstd::set::axiom_set_insert_finite(pixels, p);
}

proof fn lemma_unmarked_bound(table: Seq<bool>)
    ensures
        unmarked_count(table) <= table.len(),
    decreases table.len(),
{
    if table.len() > 0 {
        lemma_unmarked_bound(table.drop_last());
    }
}

/// `tally` counts the pixels of `filled`, which are the pixels marked since
/// the table was `before`.
spec fn tallied(
    before: Seq<bool>,
    table: Seq<bool>,
    width: int,
    height: int,
    filled: Set<(int, int)>,
    tally: Tally,
) -> bool {
    &&& filled.finite()
    &&& forall|p: (int, int)|
        filled.contains(p) <==> #[trigger] marked(table, width, p) && !marked(before, width, p)
    &&& tally.pixels == filled.len()
    &&& tally.columns == column_sum(filled)
    &&& tally.rows == row_sum(filled)
    &&& tally.pixels + unmarked_count(table) == unmarked_count(before)
    &&& tally.columns <= tally.pixels * (width - 1)
    &&& tally.rows <= tally.pixels * (height - 1)
}

/// Marks the bright, unmarked pixel `(x, y)` of the seed's blob, counts it
/// and puts it on the stack.
fn take_in(
    visited: &mut Vec<bool>,
    stack: &mut Vec<(u32, u32)>,
    tally: &mut Tally,
    width: u32,
    height: u32,
    x: u32,
    y: u32,
    Ghost(rows): Ghost<Seq<Seq<u8>>>,
    Ghost(threshold): Ghost<u8>,
    Ghost(before): Ghost<Seq<bool>>,
    Ghost(current): Ghost<Option<(int, int)>>,
    Ghost(seed): Ghost<(int, int)>,
    Ghost(filled): Ghost<Set<(int, int)>>,
) -> (grown: Ghost<Set<(int, int)>>)
    requires
        width * height <= usize::MAX,
        x < width,
        y < height,
        filling(
            rows,
            threshold,
            width as int,
            height as int,
            before,
            old(visited)@,
            old(stack)@,
            current,
            seed,
        ),
        tallied(before, old(visited)@, width as int, height as int, filled, *old(tally)),
        bright(rows, threshold, (x as int, y as int)),
        !marked(old(visited)@, width as int, (x as int, y as int)),
        connected(rows, threshold, seed, (x as int, y as int)),
    ensures
        filling(
            rows,
            threshold,
            width as int,
            height as int,
            before,
            final(visited)@,
            final(stack)@,
            current,
            seed,
        ),
        tallied(before, final(visited)@, width as int, height as int, grown@, *final(tally)),
        final(stack)@ == old(stack)@.push((x, y)),
        marked(final(visited)@, width as int, (x as int, y as int)),
        forall|p: (int, int)|
            #[trigger] marked(old(visited)@, width as int, p) ==> marked(
                final(visited)@,
                width as int,
                p,
            ),
        unmarked_count(final(visited)@) < unmarked_count(old(visited)@),
{
    let ghost n = (x as int, y as int);
    let ghost table = visited@;
    proof {
        lemma_cell_bound(width as int, height as int, n);
        assert(0 <= y * width) by (nonlinear_arith)
            requires
                0 <= y,
                0 <= width,
        ;
        lemma_fill_marks(
            rows,
            threshold,
            width as int,
            height as int,
            before,
            table,
            stack@,
            current,
            seed,
            (x, y),
        );
        lemma_unmarked_update(table, cell(width as int, n));
        lemma_unmarked_bound(before);
        lemma_sums_insert(filled, n);
        if marked(before, width as int, n) {
            assert(marked(table, width as int, n));
        }
        lemma_mark(table, width as int, height as int, n);
        let counted = tally.pixels as int;
        assert((counted + 1) * (width - 1) == counted * (width - 1) + (width - 1))
            by (nonlinear_arith);
        assert((counted + 1) * (height - 1) == counted * (height - 1) + (height - 1))
            by (nonlinear_arith);
        assert(counted * (width - 1) <= usize::MAX * u32::MAX) by (nonlinear_arith)
            requires
                0 <= counted <= usize::MAX,
                0 <= width - 1 <= u32::MAX,
        ;
        assert(counted * (height - 1) <= usize::MAX * u32::MAX) by (nonlinear_arith)
            requires
                0 <= counted <= usize::MAX,
                0 <= height - 1 <= u32::MAX,
        ;
    }
    let at: usize = (y as usize) * (width as usize) + (x as usize);
    visited.set(at, true);
    stack.push((x, y));
    tally.columns = tally.columns + x as u128;
    tally.rows = tally.rows + y as u128;
    tally.pixels = tally.pixels + 1;
    proof {
        assert forall|p: (int, int)|
            filled.insert(n).contains(p) <==> #[trigger] marked(visited@, width as int, p)
                && !marked(before, width as int, p) by {
            if p != n {
                assert(marked(visited@, width as int, p) == marked(table, width as int, p));
            }
        }
    }
    Ghost(filled.insert(n))
}

/// Looks at the neighbour `(nx, ny)` of the pixel that a flood fill is
/// working on: if it is bright and not yet marked it is taken in.
fn visit(
    img: &GrayscaleBuffer,
    threshold: u8,
    width: u32,
    height: u32,
    visited: &mut Vec<bool>,
    stack: &mut Vec<(u32, u32)>,
    tally: &mut Tally,
    nx: u32,
    ny: u32,
    Ghost(before): Ghost<Seq<bool>>,
    Ghost(current): Ghost<(int, int)>,
    Ghost(seed): Ghost<(int, int)>,
    Ghost(filled): Ghost<Set<(int, int)>>,
) -> (grown: Ghost<Set<(int, int)>>)
    requires
        width == img.spec_width(),
        height == img.spec_height(),
        rectangular(img@, width as nat),
        width * height <= usize::MAX,
        nx < width,
        ny < height,
        filling(
            img@,
            threshold,
            width as int,
            height as int,
            before,
            old(visited)@,
            old(stack)@,
            Some(current),
            seed,
        ),
        tallied(before, old(visited)@, width as int, height as int, filled, *old(tally)),
        adjacent(current, (nx as int, ny as int)),
        connected(img@, threshold, seed, current),
    ensures
        filling(
            img@,
            threshold,
            width as int,
            height as int,
            before,
            final(visited)@,
            final(stack)@,
            Some(current),
            seed,
        ),
        tallied(before, final(visited)@, width as int, height as int, grown@, *final(tally)),
        bright(img@, threshold, (nx as int, ny as int)) ==> marked(
            final(visited)@,
            width as int,
            (nx as int, ny as int),
        ),
        forall|p: (int, int)|
            #[trigger] marked(old(visited)@, width as int, p) ==> marked(
                final(visited)@,
                width as int,
                p,
            ),
        unmarked_count(final(visited)@) <= unmarked_count(old(visited)@),
        unmarked_count(final(visited)@) == unmarked_count(old(visited)@) ==> final(stack)@ == old(
            stack,
        )@,
{
    if !is_marked(visited, width, height, nx, ny) && buffer_get(img, nx, ny) >= threshold {
        proof {
            lemma_connected_step(img@, threshold, seed, current, (nx as int, ny as int));
        }
        take_in(
            visited,
            stack,
            tally,
            width,
            height,
            nx,
            ny,
            Ghost(img@),
            Ghost(threshold),
            Ghost(before),
            Ghost(Some(current)),
            Ghost(seed),
            Ghost(filled),
        )
    } else {
        Ghost(filled)
    }
}

/// The nearest whole number to `sum / count`, where no term of the sum is
/// above `limit`.
fn mean_of(sum: u128, count: usize, limit: u32) -> (mean: u32)
    requires
        count > 0,
        sum <= count * limit,
    ensures
        mean == rounded_mean(sum as int, count as int),
        mean <= limit,
{
    assert(count * limit <= usize::MAX * u32::MAX) by (nonlinear_arith)
        requires
            0 <= count <= usize::MAX,
            0 <= limit <= u32::MAX,
    ;
    let doubled: u128 = 2 * sum + count as u128;
    let parts: u128 = 2 * (count as u128);
    assert(doubled / parts <= limit) by (nonlinear_arith)
        requires
            parts > 0,
            parts == 2 * count,
            doubled == 2 * sum + count,
            sum <= count * limit,
    ;
    (doubled / parts) as u32
}

/// Marks the whole blob of the bright, unmarked pixel `(sx, sy)`, with a
/// stack of pixels whose neighbours are still to be looked at, and
/// measures the blob.
pub(super) fn flood_fill(
    img: &GrayscaleBuffer,
    threshold: u8,
    width: u32,
    height: u32,
    visited: &mut Vec<bool>,
    sx: u32,
    sy: u32,
) -> (blob: Blob)
    requires
        width == img.spec_width(),
        height == img.spec_height(),
        rectangular(img@, width as nat),
        width * height <= usize::MAX,
        old(visited)@.len() == width * height,
        marks_bright(img@, threshold, old(visited)@, width as int),
        closed(img@, threshold, old(visited)@, width as int),
        sx < width,
        sy < height,
        bright(img@, threshold, (sx as int, sy as int)),
        !marked(old(visited)@, width as int, (sx as int, sy as int)),
    ensures
        final(visited)@.len() == width * height,
        marks_bright(img@, threshold, final(visited)@, width as int),
        closed(img@, threshold, final(visited)@, width as int),
        marked(final(visited)@, width as int, (sx as int, sy as int)),
        forall|p: (int, int)|
            #[trigger] marked(old(visited)@, width as int, p) ==> marked(
                final(visited)@,
                width as int,
                p,
            ),
        forall|p: (int, int)|
            #[trigger] marked(final(visited)@, width as int, p) && !marked(
                old(visited)@,
                width as int,
                p,
            ) ==> connected(img@, threshold, (sx as int, sy as int), p),
        blob == blob_at(img@, threshold, (sx, sy)),
        blob.size >= 1,
        blob.centroid.0 < width,
        blob.centroid.1 < height,
{
    let ghost before = visited@;
    let ghost seed = (sx as int, sy as int);
    let ghost w = width as int;
    let ghost h = height as int;
    let mut stack: Vec<(u32, u32)> = Vec::new();
    let mut tally = Tally { columns: 0, rows: 0, pixels: 0 };
    let ghost mut filled: Set<(int, int)> = Set::empty();
    proof {
        lemma_connected_reflexive(img@, threshold, seed);
        lemma_fill_idle(img@, threshold, w, h, before, seed);
        vstd::set::fold::lemma_fold_empty(0int, |sum: int, p: (int, int)| sum + p.0);
        vstd::set::fold::lemma_fold_empty(0int, |sum: int, p: (int, int)| sum + p.1);
    }
    let grown = take_in(
        visited,
        &mut stack,
        &mut tally,
        width,
        height,
        sx,
        sy,
        Ghost(img@),
        Ghost(threshold),
        Ghost(before),
        Ghost(None),
        Ghost(seed),
        Ghost(filled),
    );
    proof {
        filled = grown@;
    }
    while stack.len() > 0
        invariant
            width == img.spec_width(),
            height == img.spec_height(),
            rectangular(img@, width as nat),
            width * height <= usize::MAX,
            w == width,
            h == height,
            seed == (sx as int, sy as int),
            filling(img@, threshold, w, h, before, visited@, stack@, None, seed),
            tallied(before, visited@, w, h, filled, tally),
            marked(visited@, w, seed),
        decreases unmarked_count(visited@), stack.len(),
    {
        let ghost waiting = stack@;
        let (px, py) = stack.pop().unwrap();
        let ghost current = (px as int, py as int);
        proof {
            lemma_fill_takes(img@, threshold, w, h, before, visited@, waiting, seed);
        }
        let ghost table0 = visited@;
        if px + 1 < width {
            let grown = visit(
                img,
                threshold,
                width,
                height,
                visited,
                &mut stack,
                &mut tally,
                px + 1,
                py,
                Ghost(before),
                Ghost(current),
                Ghost(seed),
                Ghost(filled),
            );
            proof {
                filled = grown@;
            }
        }
        let ghost table1 = visited@;
        if px > 0 {
            let grown = visit(
                img,
                threshold,
                width,
                height,
                visited,
                &mut stack,
                &mut tally,
                px - 1,
                py,
                Ghost(before),
                Ghost(current),
                Ghost(seed),
                Ghost(filled),
            );
            proof {
                filled = grown@;
            }
        }
        let ghost table2 = visited@;
        if py + 1 < height {
            let grown = visit(
                img,
                threshold,
                width,
                height,
                visited,
                &mut stack,
                &mut tally,
                px,
                py + 1,
                Ghost(before),
                Ghost(current),
                Ghost(seed),
                Ghost(filled),
            );
            proof {
                filled = grown@;
            }
        }
        let ghost table3 = visited@;
        if py > 0 {
            let grown = visit(
                img,
                threshold,
                width,
                height,
                visited,
                &mut stack,
                &mut tally,
                px,
                py - 1,
                Ghost(before),
                Ghost(current),
                Ghost(seed),
                Ghost(filled),
            );
            proof {
                filled = grown@;
            }
        }
        proof {
            assert forall|n: (int, int)|
                adjacent(current, n) && #[trigger] bright(img@, threshold, n) implies marked(
                visited@,
                w,
                n,
            ) by {
                if n == (px + 1, py as int) {
                    assert(marked(table1, w, n));
                    assert(marked(table2, w, n));
                    assert(marked(table3, w, n));
                } else if n == (px - 1, py as int) {
                    assert(marked(table2, w, n));
                    assert(marked(table3, w, n));
                } else if n == (px as int, py + 1) {
                    assert(marked(table3, w, n));
                } else {
                    assert(n == (px as int, py - 1));
                }
            }
            lemma_fill_leaves(img@, threshold, w, h, before, visited@, stack@, current, seed);
            assert(marked(table1, w, seed));
            assert(marked(table2, w, seed));
            assert(marked(table3, w, seed));
        }
    }
    proof {
        assert(stack@ =~= Seq::<(u32, u32)>::empty());
        lemma_fill_is_the_blob(img@, threshold, w, before, visited@, seed, filled);
    }
    Blob {
        seed: (sx, sy),
        centroid: (
            mean_of(tally.columns, tally.pixels, width - 1),
            mean_of(tally.rows, tally.pixels, height - 1),
        ),
        size: tally.pixels,
    }
}

} // verus!
