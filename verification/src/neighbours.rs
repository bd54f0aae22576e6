//! The nearest neighbours of a star, from which its fingerprint is made.
//!
//! A fingerprint is built from the `k` stars nearest to a star. This module
//! chooses them. It is handed the distance from the star to every star of
//! the catalogue and keeps a short list, best first, that it updates one
//! candidate at a time: while the list has room a candidate goes in; once it
//! is full a candidate goes in only if it is strictly nearer than the worst
//! on the list, which then leaves. So of two candidates at the same distance
//! the one found first wins.
//!
//! [`is_nearest`] says what comes out without speaking of the steps: the
//! `k` first stars when the candidates are ranked by distance and, in a tie,
//! by their place in the catalogue. The laws [`lemma_candidate_joins`],
//! [`lemma_candidate_evicts`] and [`lemma_candidate_is_turned_away`] say
//! that each step of the rule keeps the list right.

use vstd::prelude::*;
use crate::scalar::Scalar;

verus! {

/// Star `j` can be a neighbour of star `star`: it is in the catalogue and it
/// is another star.
pub open spec fn is_candidate(distances: Seq<Scalar>, star: int, j: int) -> bool {
    0 <= j < distances.len() && j != star
}

/// Star `a` ranks before star `b` as a neighbour: it is nearer, or as near
/// and earlier in the catalogue. A distance that is not a number counts as
/// farther than any number.
pub open spec fn nearer(distances: Seq<Scalar>, a: int, b: int) -> bool {
    distances[a].sort_rank() < distances[b].sort_rank() || (distances[a].sort_rank()
        == distances[b].sort_rank() && a < b)
}

/// How many of the first `upto` stars can be neighbours of `star`.
pub open spec fn candidate_count(star: int, upto: int) -> int {
    if 0 <= star < upto {
        upto - 1
    } else {
        upto
    }
}

/// `chosen` is the list of the `k` best neighbours of `star` among the first
/// `upto` stars, best first; where there are fewer than `k` candidates it
/// holds them all.
pub open spec fn is_nearest_among(
    distances: Seq<Scalar>,
    star: int,
    k: int,
    chosen: Seq<usize>,
    upto: int,
) -> bool {
    &&& forall|i: int|
        0 <= i < chosen.len() ==> is_candidate(distances, star, #[trigger] chosen[i] as int)
            && chosen[i] < upto
    &&& forall|i: int, j: int|
        0 <= i < j < chosen.len() ==> nearer(
            distances,
            #[trigger] chosen[i] as int,
            #[trigger] chosen[j] as int,
        )
    &&& chosen.len() == if k <= candidate_count(star, upto) {
        k
    } else {
        candidate_count(star, upto)
    }
    &&& forall|c: int|
        #![trigger is_candidate(distances, star, c)]
        is_candidate(distances, star, c) && c < upto && !chosen.contains(c as usize)
            ==> chosen.len() == k
    &&& forall|c: int, i: int|
        #![trigger is_candidate(distances, star, c), chosen[i]]
        is_candidate(distances, star, c) && c < upto && !chosen.contains(c as usize) && 0 <= i
            < chosen.len() ==> nearer(distances, chosen[i] as int, c)
}

/// `chosen` is the list of the `k` nearest neighbours of `star`, best first.
pub open spec fn is_nearest(distances: Seq<Scalar>, star: int, k: int, chosen: Seq<usize>) -> bool {
    is_nearest_among(distances, star, k, chosen, distances.len() as int)
}

/// In two lists of the nearest neighbours of one star no entry of the first
/// ranks before the entry of the second at the same place.
proof fn lemma_nearest_not_before(
    distances: Seq<Scalar>,
    star: int,
    k: int,
    a: Seq<usize>,
    b: Seq<usize>,
    i: int,
)
    requires
        is_nearest(distances, star, k, a),
        is_nearest(distances, star, k, b),
        0 <= i < a.len(),
    ensures
        i < b.len(),
        !nearer(distances, a[i] as int, b[i] as int),
    decreases i,
{
    let c = a[i];
    assert(is_candidate(distances, star, c as int));
    if nearer(distances, a[i] as int, b[i] as int) {
        if b.contains(c) {
            let t = choose|t: int| 0 <= t < b.len() && b[t] == c;
            if t < i {
                lemma_nearest_not_before(distances, star, k, a, b, t);
                lemma_nearest_not_before(distances, star, k, b, a, t);
                assert(a[t] == b[t]);
                assert(nearer(distances, a[t] as int, a[i] as int));
            } else if t > i {
                assert(nearer(distances, b[i] as int, b[t] as int));
            }
        } else {
            assert(nearer(distances, b[i] as int, c as int));
        }
    }
}

/// A star has one list of nearest neighbours and no other: what
/// [`nearest_neighbours`] returns is fixed by its contract.
pub proof fn lemma_nearest_is_unique(
    distances: Seq<Scalar>,
    star: int,
    k: int,
    a: Seq<usize>,
    b: Seq<usize>,
)
    requires
        is_nearest(distances, star, k, a),
        is_nearest(distances, star, k, b),
    ensures
        a == b,
{
    assert forall|i: int| 0 <= i < a.len() implies a[i] == b[i] by {
        lemma_nearest_not_before(distances, star, k, a, b, i);
        lemma_nearest_not_before(distances, star, k, b, a, i);
    }
    assert(a =~= b);
}

/// Of two stars at the same distance the one that comes first in the
/// catalogue is the better neighbour, and a star is never its own
/// neighbour.
pub proof fn lemma_first_found_wins(distances: Seq<Scalar>, star: int, a: int, b: int)
    requires
        distances[a].sort_rank() == distances[b].sort_rank(),
        a < b,
    ensures
        nearer(distances, a, b),
        !nearer(distances, b, a),
        !is_candidate(distances, star, star),
{
}

/// A star with fewer than `k` candidates has them all as neighbours.
pub proof fn lemma_few_candidates_are_all_chosen(
    distances: Seq<Scalar>,
    star: int,
    k: int,
    chosen: Seq<usize>,
    c: int,
)
    requires
        is_nearest(distances, star, k, chosen),
        candidate_count(star, distances.len() as int) < k,
        is_candidate(distances, star, c),
    ensures
        chosen.contains(c as usize),
        chosen.len() == candidate_count(star, distances.len() as int),
{
}

/// In a catalogue of two stars each star has the other as its only
/// neighbour, however many are asked for.
pub proof fn lemma_two_stars_have_one_neighbour(
    distances: Seq<Scalar>,
    star: int,
    k: int,
    chosen: Seq<usize>,
)
    requires
        distances.len() == 2,
        0 <= star < 2,
        k >= 1,
        is_nearest(distances, star, k, chosen),
    ensures
        chosen == seq![(1 - star) as usize],
{
    assert(chosen.len() == 1);
    assert(is_candidate(distances, star, chosen[0] as int));
    assert(chosen =~= seq![(1 - star) as usize]);
}

/// `place` is where star `j` belongs in the ordered list `held`: behind
/// everything that ranks before it and in front of everything that it ranks
/// before.
pub open spec fn is_place_for(
    distances: Seq<Scalar>,
    held: Seq<usize>,
    j: int,
    place: int,
) -> bool {
    &&& 0 <= place <= held.len()
    &&& forall|i: int| 0 <= i < place ==> nearer(distances, #[trigger] held[i] as int, j)
    &&& forall|i: int| place <= i < held.len() ==> nearer(distances, j, #[trigger] held[i] as int)
}

/// Putting `j` into an ordered list at its place keeps the list in order and
/// adds nothing but `j` to it.
proof fn lemma_inserted(distances: Seq<Scalar>, list: Seq<usize>, j: usize, place: int)
    requires
        is_place_for(distances, list, j as int, place),
        forall|a: int, b: int|
            0 <= a < b < list.len() ==> nearer(
                distances,
                #[trigger] list[a] as int,
                #[trigger] list[b] as int,
            ),
    ensures
        forall|a: int, b: int|
            0 <= a < b < list.len() + 1 ==> nearer(
                distances,
                #[trigger] list.insert(place, j)[a] as int,
                #[trigger] list.insert(place, j)[b] as int,
            ),
        forall|x: usize|
            #[trigger] list.insert(place, j).contains(x) <==> list.contains(x) || x == j,
{
    let longer = list.insert(place, j);
    assert forall|a: int, b: int| 0 <= a < b < longer.len() implies nearer(
        distances,
        #[trigger] longer[a] as int,
        #[trigger] longer[b] as int,
    ) by {
        if a < place {
            assert(longer[a] == list[a]);
        } else if a > place {
            assert(longer[a] == list[a - 1]);
        }
        if b < place {
            assert(longer[b] == list[b]);
        } else if b > place {
            assert(longer[b] == list[b - 1]);
        }
    }
    assert forall|x: usize| #[trigger] longer.contains(x) <==> list.contains(x) || x == j by {
        if longer.contains(x) {
            let i = choose|i: int| 0 <= i < longer.len() && longer[i] == x;
            if i < place {
                assert(list[i] == x);
            } else if i > place {
                assert(list[i - 1] == x);
            }
        }
        if list.contains(x) {
            let i = choose|i: int| 0 <= i < list.len() && list[i] == x;
            if i < place {
                assert(longer[i] == x);
            } else {
                assert(longer[i + 1] == x);
            }
        }
        if x == j {
            assert(longer[place] == x);
        }
    }
}

/// The star itself is passed over, and where no neighbour is asked for
/// every star is.
pub proof fn lemma_star_is_passed_over(
    distances: Seq<Scalar>,
    star: int,
    k: int,
    held: Seq<usize>,
    j: int,
)
    requires
        is_nearest_among(distances, star, k, held, j),
        0 <= j < distances.len(),
        j == star || k == 0,
    ensures
        is_nearest_among(distances, star, k, held, j + 1),
{
}

/// While the list has room a candidate goes in, whatever its distance.
pub proof fn lemma_candidate_joins(
    distances: Seq<Scalar>,
    star: int,
    k: int,
    held: Seq<usize>,
    j: usize,
    place: int,
)
    requires
        is_nearest_among(distances, star, k, held, j as int),
        is_candidate(distances, star, j as int),
        held.len() < k,
        is_place_for(distances, held, j as int, place),
    ensures
        is_nearest_among(distances, star, k, held.insert(place, j), j + 1),
{
    let longer = held.insert(place, j);
    lemma_inserted(distances, held, j, place);
    assert forall|i: int| 0 <= i < longer.len() implies is_candidate(
        distances,
        star,
        #[trigger] longer[i] as int,
    ) && longer[i] < j + 1 by {
        if i < place {
            assert(longer[i] == held[i]);
        } else if i > place {
            assert(longer[i] == held[i - 1]);
        }
    }
    assert forall|c: int|
        #![trigger is_candidate(distances, star, c)]
        is_candidate(distances, star, c) && c < j + 1 implies longer.contains(c as usize) by {
        if c < j {
            assert(held.contains(c as usize));
        }
    }
}

/// Once the list is full, a candidate that is strictly nearer than the
/// worst on the list takes the place of the worst.
pub proof fn lemma_candidate_evicts(
    distances: Seq<Scalar>,
    star: int,
    k: int,
    held: Seq<usize>,
    j: usize,
    place: int,
)
    requires
        is_nearest_among(distances, star, k, held, j as int),
        is_candidate(distances, star, j as int),
        k > 0,
        held.len() == k,
        distances[j as int].sort_rank() < distances[held.last() as int].sort_rank(),
        is_place_for(distances, held.drop_last(), j as int, place),
    ensures
        is_nearest_among(distances, star, k, held.drop_last().insert(place, j), j + 1),
{
    let rest = held.drop_last();
    let longer = rest.insert(place, j);
    let last = held.len() - 1;
    let worst = held[last];
    assert forall|a: int, b: int| 0 <= a < b < rest.len() implies nearer(
        distances,
        #[trigger] rest[a] as int,
        #[trigger] rest[b] as int,
    ) by {
        assert(rest[a] == held[a] && rest[b] == held[b]);
    }
    lemma_inserted(distances, rest, j, place);
    assert forall|i: int| 0 <= i < longer.len() implies is_candidate(
        distances,
        star,
        #[trigger] longer[i] as int,
    ) && longer[i] < j + 1 by {
        if i < place {
            assert(longer[i] == rest[i] && rest[i] == held[i]);
        } else if i > place {
            assert(longer[i] == rest[i - 1] && rest[i - 1] == held[i - 1]);
        }
    }
    assert forall|c: int, i: int|
        #![trigger is_candidate(distances, star, c), longer[i]]
        is_candidate(distances, star, c) && c < j + 1 && !longer.contains(c as usize) && 0 <= i
            < longer.len() implies nearer(distances, longer[i] as int, c) by {
        assert(!rest.contains(c as usize));
        if c != worst {
            assert(!held.contains(c as usize)) by {
                if held.contains(c as usize) {
                    let w = choose|w: int| 0 <= w < held.len() && held[w] == c as usize;
                    if w < last {
                        assert(rest[w] == c as usize);
                    }
                }
            }
            assert(nearer(distances, held[last] as int, c));
        }
        if i != place {
            let at = if i < place {
                i
            } else {
                i - 1
            };
            assert(longer[i] == rest[at] && rest[at] == held[at]);
            if c == worst {
                assert(nearer(distances, held[at] as int, held[last] as int));
            }
        } else {
            assert(longer[i] == j);
        }
    }
}

/// Once the list is full, a candidate that is as far as the worst on the
/// list, or farther, stays out: a tie does not evict.
pub proof fn lemma_candidate_is_turned_away(
    distances: Seq<Scalar>,
    star: int,
    k: int,
    held: Seq<usize>,
    j: usize,
)
    requires
        is_nearest_among(distances, star, k, held, j as int),
        is_candidate(distances, star, j as int),
        k > 0,
        held.len() == k,
        distances[j as int].sort_rank() >= distances[held.last() as int].sort_rank(),
    ensures
        is_nearest_among(distances, star, k, held, j + 1),
{
    let last = held.len() - 1;
    assert forall|c: int, i: int|
        #![trigger is_candidate(distances, star, c), held[i]]
        is_candidate(distances, star, c) && c < j + 1 && !held.contains(c as usize) && 0 <= i
            < held.len() implies nearer(distances, held[i] as int, c) by {
        if c == j {
            if i < last {
                assert(nearer(distances, held[i] as int, held[last] as int));
            }
        }
    }
}

/// Finds where candidate `j` goes in the list `held`, which is in order and
/// holds only earlier stars.
fn place_of(distances: &Vec<Scalar>, held: &Vec<usize>, j: usize) -> (place: usize)
    requires
        j < distances.len(),
        forall|i: int| 0 <= i < held.len() ==> #[trigger] held[i] < j,
        forall|a: int, b: int|
            0 <= a < b < held.len() ==> nearer(
                distances@,
                #[trigger] held[a] as int,
                #[trigger] held[b] as int,
            ),
    ensures
        is_place_for(distances@, held@, j as int, place as int),
{
    let key = distances[j].sort_key();
    let mut place: usize = held.len();
    while place > 0 && key < distances[held[place - 1]].sort_key()
        invariant
            j < distances.len(),
            place <= held.len(),
            key == distances[j as int].sort_rank(),
            forall|i: int| 0 <= i < held.len() ==> #[trigger] held[i] < j,
            forall|i: int|
                place <= i < held.len() ==> nearer(distances@, j as int, #[trigger] held[i] as int),
        decreases place,
    {
        place -= 1;
    }
    proof {
        if place > 0 {
            let last = place - 1;
            assert forall|i: int| 0 <= i < place implies nearer(
                distances@,
                #[trigger] held[i] as int,
                j as int,
            ) by {
                if i < last {
                    assert(nearer(distances@, held[i] as int, held[last] as int));
                }
            }
        }
    }
    place
}

/// Star `j` makes the list that was right for the stars before it right for
/// the stars up to it.
fn consider(distances: &Vec<Scalar>, star: usize, k: usize, held: &mut Vec<usize>, j: usize)
    requires
        j < distances.len(),
        is_nearest_among(distances@, star as int, k as int, old(held)@, j as int),
    ensures
        is_nearest_among(distances@, star as int, k as int, final(held)@, j + 1),
{
    let ghost before = held@;
    if j == star || k == 0 {
        proof {
            lemma_star_is_passed_over(distances@, star as int, k as int, before, j as int);
        }
    } else if held.len() < k {
        let place = place_of(distances, held, j);
        held.insert(place, j);
        proof {
            lemma_candidate_joins(distances@, star as int, k as int, before, j, place as int);
        }
    } else if distances[j].sort_key() < distances[held[held.len() - 1]].sort_key() {
        held.pop();
        proof {
            assert forall|i: int| 0 <= i < held@.len() implies #[trigger] held@[i] < j by {
                assert(held@[i] == before[i]);
            }
            assert forall|a: int, b: int| 0 <= a < b < held@.len() implies nearer(
                distances@,
                #[trigger] held@[a] as int,
                #[trigger] held@[b] as int,
            ) by {
                assert(held@[a] == before[a] && held@[b] == before[b]);
            }
        }
        let place = place_of(distances, held, j);
        held.insert(place, j);
        proof {
            lemma_candidate_evicts(distances@, star as int, k as int, before, j, place as int);
        }
    } else {
        proof {
            lemma_candidate_is_turned_away(distances@, star as int, k as int, before, j);
        }
    }
}

/// Chooses the `k` nearest neighbours of the star at index `star`, best
/// first. `distances[j]` is the distance from that star to star `j`; the
/// entry of the star itself is not looked at. A catalogue with fewer than
/// `k` other stars gives them all.
pub fn nearest_neighbours(distances: &Vec<Scalar>, star: usize, k: usize) -> (chosen: Vec<usize>)
    ensures
        is_nearest(distances@, star as int, k as int, chosen@),
{
    let mut held: Vec<usize> = Vec::new();
    let mut j: usize = 0;
    while j < distances.len()
        invariant
            j <= distances.len(),
            is_nearest_among(distances@, star as int, k as int, held@, j as int),
        decreases distances.len() - j,
    {
        consider(distances, star, k, &mut held, j);
        j += 1;
    }
    held
}

} // verus!
