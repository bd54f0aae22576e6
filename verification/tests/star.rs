use sat_sight::scalar::Scalar;
use sat_sight::star::{find_star, ids_are_unique, Star};

fn star(hr: u32) -> Star {
    let zero = Scalar::from_bits(0);
    Star { hr, lat: zero, lon: zero, mag: zero, fingure_print: zero }
}

#[test]
fn star_is_found_by_its_identifier() {
    let stars = vec![star(30), star(10), star(20)];
    assert_eq!(find_star(&stars, 30), Some(0));
    assert_eq!(find_star(&stars, 10), Some(1));
    assert_eq!(find_star(&stars, 20), Some(2));
    assert_eq!(find_star(&stars, 40), None);
    assert_eq!(find_star(&vec![], 0), None);
}

#[test]
fn first_of_two_stars_with_one_identifier_is_found() {
    let stars = vec![star(1), star(2), star(1), star(2)];
    assert_eq!(find_star(&stars, 1), Some(0));
    assert_eq!(find_star(&stars, 2), Some(1));
}

#[test]
fn identifiers_of_a_catalogue_are_unique() {
    assert!(ids_are_unique(&vec![]));
    assert!(ids_are_unique(&vec![star(0)]));
    assert!(ids_are_unique(&vec![star(3), star(1), star(2), star(0)]));
    assert!(!ids_are_unique(&vec![star(3), star(1), star(3)]));
    assert!(!ids_are_unique(&vec![star(1), star(2), star(2)]));
    assert!(!ids_are_unique(&vec![star(7), star(7)]));
}
