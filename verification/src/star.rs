//! Catalogue stars.

use vstd::prelude::*;
use crate::scalar::Scalar;

verus! {

/// One star of a catalogue.
#[derive(Clone, Copy, Debug)]
pub struct Star {
    /// Harvard Revised number, the star's identity within its catalogue.
    pub hr: u32,
    /// Latitude in degrees, from -90 to 90.
    pub lat: Scalar,
    /// Longitude in degrees, from 0 up to 360.
    pub lon: Scalar,
    /// Apparent magnitude.
    pub mag: Scalar,
    /// The star's fingerprint, once one has been computed for it.
    pub fingure_print: Scalar,
}

/// No two stars of `stars` share an identifier, as a catalogue requires.
pub open spec fn has_unique_ids(stars: Seq<Star>) -> bool {
    forall|i: int, j: int|
        0 <= i < j < stars.len() ==> (#[trigger] stars[i]).hr != (#[trigger] stars[j]).hr
}

/// `place` is where the first star with identifier `hr` stands in `stars`,
/// or `None` where there is no such star.
pub open spec fn is_place_of(stars: Seq<Star>, hr: u32, place: Option<usize>) -> bool {
    match place {
        Some(at) => at < stars.len() && stars[at as int].hr == hr && forall|i: int|
            0 <= i < at ==> (#[trigger] stars[i]).hr != hr,
        None => forall|i: int| 0 <= i < stars.len() ==> (#[trigger] stars[i]).hr != hr,
    }
}

/// Finds the star with identifier `hr`: its place in `stars`, the first
/// where there are several.
pub fn find_star(stars: &Vec<Star>, hr: u32) -> (place: Option<usize>)
    ensures
        is_place_of(stars@, hr, place),
{
    let mut i: usize = 0;
    while i < stars.len()
        invariant
            i <= stars.len(),
            forall|k: int| 0 <= k < i ==> (#[trigger] stars[k]).hr != hr,
        decreases stars.len() - i,
    {
        if stars[i].hr == hr {
            return Some(i);
        }
        i += 1;
    }
    None
}

/// Whether no two stars of `stars` share an identifier.
pub fn ids_are_unique(stars: &Vec<Star>) -> (answer: bool)
    ensures
        answer == has_unique_ids(stars@),
{
    let mut j: usize = 0;
    while j < stars.len()
        invariant
            j <= stars.len(),
            forall|a: int, b: int|
                0 <= a < b < j ==> (#[trigger] stars[a]).hr != (#[trigger] stars[b]).hr,
        decreases stars.len() - j,
    {
        let mut i: usize = 0;
        while i < j
            invariant
                i <= j < stars.len(),
                forall|a: int| 0 <= a < i ==> (#[trigger] stars[a]).hr != stars[j as int].hr,
            decreases j - i,
        {
            if stars[i].hr == stars[j].hr {
                return false;
            }
            i += 1;
        }
        j += 1;
    }
    true
}

/// In a catalogue a star is found by its identifier: the place that
/// [`find_star`] gives for the identifier of the star at `at` is `at`.
pub proof fn lemma_unique_ids_find(stars: Seq<Star>, at: int, place: Option<usize>)
    requires
        has_unique_ids(stars),
        0 <= at < stars.len(),
        is_place_of(stars, stars[at].hr, place),
    ensures
        place == Some(at as usize),
{
    match place {
        Some(found) => {
            if found < at {
                assert(stars[found as int].hr != stars[at].hr);
            }
        },
        None => {
            assert(stars[at].hr != stars[at].hr);
        },
    }
}

} // verus!
