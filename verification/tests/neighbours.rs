use sat_sight::neighbours::nearest_neighbours;
use sat_sight::scalar::{sort_scalars, Scalar};

fn scalars(values: &[f32]) -> Vec<Scalar> {
    values.iter().map(|v| Scalar::from_bits(v.to_bits())).collect()
}

// The selection as the insertion rule describes it, step by step.
fn by_the_rule(distances: &[f32], star: usize, k: usize) -> Vec<usize> {
    let mut held: Vec<usize> = Vec::new();
    for j in 0..distances.len() {
        if j == star || k == 0 {
            continue;
        }
        if held.len() < k {
            held.push(j);
        } else {
            let mut worst = 0;
            for i in 1..held.len() {
                if distances[held[i]] >= distances[held[worst]] {
                    worst = i;
                }
            }
            if distances[j] < distances[held[worst]] {
                held.remove(worst);
                held.push(j);
            }
        }
    }
    held.sort_by(|&a, &b| distances[a].partial_cmp(&distances[b]).unwrap().then(a.cmp(&b)));
    held
}

#[test]
fn five_nearest_of_many() {
    let distances = scalars(&[0.0, 9.0, 2.0, 7.0, 1.0, 8.0, 3.0, 6.0, 4.0, 5.0]);
    assert_eq!(nearest_neighbours(&distances, 0, 5), vec![4, 2, 6, 8, 9]);
}

#[test]
fn the_star_itself_is_no_neighbour() {
    let distances = scalars(&[5.0, 0.0, 1.0, 0.5]);
    assert_eq!(nearest_neighbours(&distances, 1, 5), vec![3, 2, 0]);
    let distances = scalars(&[5.0, 100.0, 1.0, 0.5]);
    assert_eq!(nearest_neighbours(&distances, 3, 2), vec![2, 0]);
}

#[test]
fn fewer_stars_than_asked_for_gives_them_all() {
    let distances = scalars(&[0.0, 1234.5]);
    assert_eq!(nearest_neighbours(&distances, 0, 5), vec![1]);
    assert_eq!(nearest_neighbours(&distances, 1, 5), vec![0]);
}

#[test]
fn lone_star_has_no_neighbour() {
    assert_eq!(nearest_neighbours(&scalars(&[0.0]), 0, 5), vec![]);
    assert_eq!(nearest_neighbours(&scalars(&[]), 0, 5), vec![]);
}

#[test]
fn asking_for_none_gives_none() {
    assert_eq!(nearest_neighbours(&scalars(&[0.0, 1.0, 2.0]), 0, 0), vec![]);
}

#[test]
fn tie_with_the_worst_does_not_evict() {
    // stars 1 and 2 fill the list; star 3 is as far as the worst and stays out
    let distances = scalars(&[0.0, 4.0, 7.0, 7.0, 7.0]);
    assert_eq!(nearest_neighbours(&distances, 0, 2), vec![1, 2]);
}

#[test]
fn strictly_nearer_evicts_the_last_found_of_the_worst() {
    let distances = scalars(&[0.0, 7.0, 7.0, 7.0, 1.0]);
    assert_eq!(nearest_neighbours(&distances, 0, 3), vec![4, 1, 2]);
}

#[test]
fn equal_distances_come_in_catalogue_order() {
    let distances = scalars(&[3.0, 3.0, 0.0, 3.0, 3.0]);
    assert_eq!(nearest_neighbours(&distances, 2, 3), vec![0, 1, 3]);
}

#[test]
fn star_index_beyond_the_catalogue_excludes_nothing() {
    let distances = scalars(&[2.0, 1.0, 3.0]);
    assert_eq!(nearest_neighbours(&distances, 3, 5), vec![1, 0, 2]);
}

#[test]
fn distance_that_is_no_number_counts_as_farthest() {
    let distances = scalars(&[0.0, f32::NAN, 5.0, f32::INFINITY, 1.0]);
    assert_eq!(nearest_neighbours(&distances, 0, 5), vec![4, 2, 3, 1]);
    assert_eq!(nearest_neighbours(&distances, 0, 2), vec![4, 2]);
}

#[test]
fn selection_agrees_with_the_insertion_rule() {
    let mut state: u32 = 12345;
    for round in 0..200 {
        let n = 1 + (round % 17);
        let mut distances = Vec::new();
        for _ in 0..n {
            state = state.wrapping_mul(1664525).wrapping_add(1013904223);
            distances.push(((state >> 24) % 12) as f32 * 0.5);
        }
        for star in 0..n {
            for k in [0usize, 1, 2, 5, 20] {
                assert_eq!(
                    nearest_neighbours(&scalars(&distances), star, k),
                    by_the_rule(&distances, star, k),
                    "{:?} star {} k {}",
                    distances,
                    star,
                    k
                );
            }
        }
    }
}

#[test]
fn two_star_catalogue_has_fingerprint_of_the_distance_alone() {
    // Two stars, five neighbours asked for: each star has the other as its
    // only neighbour, so there is no gap between bearings to add.
    let distance = 1111.9493f32;
    for star in 0..2 {
        let mut distances = vec![distance; 2];
        distances[star] = 0.0;
        let chosen = nearest_neighbours(&scalars(&distances), star, 5);
        assert_eq!(chosen, vec![1 - star]);
        let bearings = sort_scalars(&scalars(&[90.0 + 180.0]));
        let mut gap_sum = 0.0f32;
        for i in 1..bearings.len() {
            gap_sum += f32::from_bits(bearings[i].bits) - f32::from_bits(bearings[i - 1].bits);
        }
        let distance_sum: f32 = chosen.iter().map(|&j| distances[j]).sum();
        assert_eq!(gap_sum, 0.0);
        assert_eq!(distance_sum + gap_sum, distance);
    }
}
