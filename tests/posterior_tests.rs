use battleship::posterior::{coords_to_mask, gen_placements, normalize, Posterior, Tally};

fn approx_eq(a: f64, b: f64) -> bool {
    (a - b).abs() < 1e-8
}

fn probabilities(post: &Posterior) -> Vec<Vec<f64>> {
    let h = post.heatmap().expect("the number of configurations fits");
    let mut out = vec![vec![0.0; 10]; 10];
    for r in 0..10 {
        for c in 0..10 {
            out[r][c] = h.numerator(r, c) as f64 / h.denominator as f64;
        }
    }
    out
}

#[test]
fn test_single_length1_uniform() {
    let post = Posterior::new(&[], &[], &[1]);
    let pm = probabilities(&post);
    for r in 0..10 {
        for c in 0..10 {
            assert!(approx_eq(pm[r][c], 1.0 / 100.0));
        }
    }
}

#[test]
fn test_length2_with_one_hit() {
    let post = Posterior::new(&[], &[(0, 0)], &[2]);
    let pm = probabilities(&post);
    assert!(approx_eq(pm[0][0], 1.0));
    assert!(approx_eq(pm[0][1], 0.5));
    assert!(approx_eq(pm[1][0], 0.5));
    for r in 0..10 {
        for c in 0..10 {
            let is_known = (r == 0 && c == 0) || (r == 0 && c == 1) || (r == 1 && c == 0);
            if !is_known {
                assert!(approx_eq(pm[r][c], 0.0));
            }
        }
    }
}

#[test]
fn test_two_length1_ships_uniform() {
    let post = Posterior::new(&[], &[], &[1, 1]);
    let pm = probabilities(&post);
    let expected = 99.0 / 4950.0;
    for r in 0..10 {
        for c in 0..10 {
            assert!(approx_eq(pm[r][c], expected));
        }
    }
}

#[test]
fn heatmap_cells_non_negative_and_single_cell_fleet_sums_to_one() {
    let post = Posterior::new(&[(3, 3), (4, 4)], &[], &[1]);
    let pm = probabilities(&post);
    let mut sum = 0.0;
    for r in 0..10 {
        for c in 0..10 {
            assert!(pm[r][c] >= 0.0);
            sum += pm[r][c];
        }
    }
    assert!(approx_eq(sum, 1.0));
    assert!(approx_eq(pm[3][3], 0.0));
}

#[test]
fn heatmap_sums_to_fleet_cells_for_bigger_fleets() {
    // Marginals of several ships add up to the number of ship cells.
    let post = Posterior::new(&[], &[], &[2, 3]);
    let pm = probabilities(&post);
    let sum: f64 = pm.iter().flatten().sum();
    assert!(approx_eq(sum, 5.0));
}

#[test]
fn repeated_computation_is_identical() {
    let post = Posterior::new(&[(1, 1)], &[(5, 5)], &[3, 2]);
    let a = post.compute().unwrap();
    let b = post.compute().unwrap();
    assert_eq!(a.weight, b.weight);
    assert_eq!(a.counts, b.counts);
    let again = Posterior::new(&[(1, 1)], &[(5, 5)], &[3, 2]).compute().unwrap();
    assert_eq!(a.counts, again.counts);
}

#[test]
fn uncoverable_hit_gives_uniform_fallback() {
    // The hit at (0, 0) is walled in by misses: no ship of length 2 can cover it.
    let post = Posterior::new(&[(0, 1), (1, 0)], &[(0, 0)], &[2]);
    let t = post.compute().unwrap();
    assert_eq!(t.weight, 0);
    let pm = probabilities(&post);
    for r in 0..10 {
        for c in 0..10 {
            assert!(approx_eq(pm[r][c], 0.01));
        }
    }
}

#[test]
fn fewer_placements_never_add_configurations() {
    let full = Posterior::new(&[], &[(4, 4)], &[2, 2]).compute().unwrap();
    let pruned = Posterior::new(&[(4, 5)], &[(4, 4)], &[2, 2]).compute().unwrap();
    assert!(pruned.weight <= full.weight);
    for c in 0..100 {
        assert!(pruned.counts[c] <= full.counts[c]);
    }
}

#[test]
fn parallel_and_sequential_agree() {
    let post = Posterior::new(&[(2, 2), (7, 1)], &[(3, 3)], &[3, 2, 2]);
    let par = post.compute().unwrap();
    let seq = post.compute_sequential().unwrap();
    assert_eq!(par.weight, seq.weight);
    assert_eq!(par.counts, seq.counts);
}

#[test]
fn no_ships_gives_zero_heatmap() {
    let post = Posterior::new(&[], &[(0, 0)], &[]);
    assert_eq!(post.ship_count(), 0);
    let h = post.heatmap().unwrap();
    assert!(h.numerators.iter().all(|&n| n == 0));
    assert_eq!(h.denominator, 1);
}

#[test]
fn two_single_cells_count_exactly() {
    // 200 placements each (every cell once across, once down); ordered pairs of
    // disjoint placements: 200 * 198.
    let t = Posterior::new(&[], &[], &[1, 1]).compute().unwrap();
    assert_eq!(t.weight, 200 * 198);
    assert_eq!(t.counts[0], 2 * 198 * 2);
}

#[test]
fn placements_of_a_long_ship() {
    let all = gen_placements(0, 5);
    assert_eq!(all.len(), 120);
    assert_eq!(all[0], 0b11111);
    assert!(gen_placements(0, 11).is_empty());
    let blocked = gen_placements(coords_to_mask(&[(0, 0)]), 5);
    assert_eq!(blocked.len(), 118);
}

#[test]
fn mask_of_coordinates() {
    assert_eq!(coords_to_mask(&[(0, 0), (0, 1), (9, 9)]), 0b11 | (1u128 << 99));
    assert_eq!(coords_to_mask(&[]), 0);
}

#[test]
fn normalize_falls_back_to_uniform() {
    let h = normalize(Tally::zero());
    assert_eq!(h.denominator, 100);
    assert!(h.numerators.iter().all(|&n| n == 1));
    let mut t = Tally::zero();
    t.weight = 4;
    t.counts[7] = 3;
    let h = normalize(t);
    assert_eq!(h.denominator, 4);
    assert_eq!(h.numerators[7], 3);
}

#[test]
fn branches_add_up_to_the_whole() {
    let post = Posterior::new(&[], &[(0, 0)], &[2, 1]);
    let whole = post.compute().unwrap();
    let firsts = gen_placements(0, 2);
    let mut sum = 0u128;
    for m in firsts {
        sum += post.branch(m).unwrap().weight;
    }
    assert_eq!(sum, whole.weight);
}
