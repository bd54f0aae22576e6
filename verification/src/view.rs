//! The field of view: which stars a camera sees.

use vstd::prelude::*;
use crate::scalar::Scalar;
use crate::star::Star;

verus! {

/// A star at angular distance `separation` from the boresight lies inside a
/// cone of half-angle `half_fov`. The edge of the cone belongs to it. A cone
/// whose half-angle is not above zero holds nothing.
pub open spec fn in_view(separation: Scalar, half_fov: Scalar) -> bool {
    !half_fov.is_nan() && half_fov.rank() > 0 && separation.spec_le(half_fov)
}

/// The stars of `sighted` that are in view, in the order in which `sighted`
/// has them. Each star comes with its angular distance from the boresight.
pub open spec fn visible_of(sighted: Seq<(Star, Scalar)>, half_fov: Scalar) -> Seq<Star>
    decreases sighted.len(),
{
    if sighted.len() == 0 {
        Seq::empty()
    } else if in_view(sighted.last().1, half_fov) {
        visible_of(sighted.drop_last(), half_fov).push(sighted.last().0)
    } else {
        visible_of(sighted.drop_last(), half_fov)
    }
}

/// Whether a star at angular distance `separation` from the boresight lies
/// inside the cone of half-angle `half_fov`.
pub fn is_in_view(separation: Scalar, half_fov: Scalar) -> (answer: bool)
    ensures
        answer == in_view(separation, half_fov),
{
    !half_fov.nan() && half_fov.sort_key() > 0 && separation.le(half_fov)
}

/// Keeps the stars that lie inside the cone of half-angle `half_fov`, in
/// catalogue order. `sighted` pairs each star with its angular distance from
/// the boresight, in the unit of `half_fov`.
pub fn viewable_stars(sighted: Vec<(Star, Scalar)>, half_fov: Scalar) -> (visible: Vec<Star>)
    ensures
        visible@ == visible_of(sighted@, half_fov),
{
    let mut visible: Vec<Star> = Vec::new();
    let mut i: usize = 0;
    while i < sighted.len()
        invariant
            i <= sighted.len(),
            visible@ == visible_of(sighted@.take(i as int), half_fov),
        decreases sighted.len() - i,
    {
        let (star, separation) = sighted[i];
        proof {
            assert(sighted@.take(i + 1).drop_last() =~= sighted@.take(i as int));
        }
        if is_in_view(separation, half_fov) {
            visible.push(star);
        }
        i += 1;
    }
    assert(sighted@.take(i as int) =~= sighted@);
    visible
}

/// Seeing is decided star by star: a catalogue in two parts is seen as its
/// parts are, one after the other.
pub proof fn lemma_visible_concat(a: Seq<(Star, Scalar)>, b: Seq<(Star, Scalar)>, half_fov: Scalar)
    ensures
        visible_of(a + b, half_fov) == visible_of(a, half_fov) + visible_of(b, half_fov),
    decreases b.len(),
{
    if b.len() == 0 {
        assert(a + b =~= a);
        assert(visible_of(a, half_fov) + visible_of(b, half_fov) =~= visible_of(a, half_fov));
    } else {
        assert((a + b).drop_last() =~= a + b.drop_last());
        lemma_visible_concat(a, b.drop_last(), half_fov);
        if in_view(b.last().1, half_fov) {
            assert(visible_of(a, half_fov) + visible_of(b, half_fov) =~= (visible_of(a, half_fov)
                + visible_of(b.drop_last(), half_fov)).push(b.last().0));
        }
    }
}

/// A cone whose half-angle is zero, below zero or not a number is empty.
pub proof fn lemma_empty_cone_sees_nothing(sighted: Seq<(Star, Scalar)>, half_fov: Scalar)
    requires
        half_fov.is_nan() || half_fov.rank() <= 0,
    ensures
        visible_of(sighted, half_fov) == Seq::<Star>::empty(),
    decreases sighted.len(),
{
    if sighted.len() > 0 {
        lemma_empty_cone_sees_nothing(sighted.drop_last(), half_fov);
    }
}

/// What is seen is part of the catalogue, in catalogue order: the seen stars
/// are the stars at an increasing choice of places, and the places chosen
/// are exactly those in view.
pub proof fn lemma_visible_is_ordered_part(
    sighted: Seq<(Star, Scalar)>,
    half_fov: Scalar,
) -> (places: Seq<int>)
    ensures
        places.len() == visible_of(sighted, half_fov).len(),
        forall|k: int|
            0 <= k < places.len() ==> 0 <= #[trigger] places[k] < sighted.len() && in_view(
                sighted[places[k]].1,
                half_fov,
            ) && visible_of(sighted, half_fov)[k] == sighted[places[k]].0,
        forall|k: int, l: int| 0 <= k < l < places.len() ==> places[k] < places[l],
        forall|i: int|
            0 <= i < sighted.len() && in_view(#[trigger] sighted[i].1, half_fov)
                ==> places.contains(i),
    decreases sighted.len(),
{
    if sighted.len() == 0 {
        Seq::empty()
    } else {
        let rest = sighted.drop_last();
        let before = lemma_visible_is_ordered_part(rest, half_fov);
        let last = sighted.len() - 1;
        if in_view(sighted.last().1, half_fov) {
            let places = before.push(last);
            assert forall|i: int|
                0 <= i < sighted.len() && in_view(
                    #[trigger] sighted[i].1,
                    half_fov,
                ) implies places.contains(i) by {
                if i < last {
                    assert(rest[i] == sighted[i]);
                    assert(before.contains(i));
                    let k = choose|k: int| 0 <= k < before.len() && before[k] == i;
                    assert(places[k] == i);
                } else {
                    assert(places[before.len() as int] == i);
                }
            }
            assert forall|k: int| 0 <= k < places.len() implies 0 <= #[trigger] places[k]
                < sighted.len() && in_view(sighted[places[k]].1, half_fov) && visible_of(
                sighted,
                half_fov,
            )[k] == sighted[places[k]].0 by {
                if k < before.len() {
                    assert(places[k] == before[k]);
                    assert(rest[before[k]] == sighted[before[k]]);
                }
            }
            places
        } else {
            assert forall|i: int|
                0 <= i < sighted.len() && in_view(
                    #[trigger] sighted[i].1,
                    half_fov,
                ) implies before.contains(i) by {
                assert(rest[i] == sighted[i]);
            }
            assert forall|k: int| 0 <= k < before.len() implies 0 <= #[trigger] before[k]
                < sighted.len() && in_view(sighted[before[k]].1, half_fov) && visible_of(
                sighted,
                half_fov,
            )[k] == sighted[before[k]].0 by {
                assert(rest[before[k]] == sighted[before[k]]);
            }
            before
        }
    }
}

} // verus!
