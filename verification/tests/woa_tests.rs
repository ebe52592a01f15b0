use rand::rngs::StdRng;
use rand::SeedableRng;
use woa::assignment::{assign_clusters, calc_inf_delta, cluster_assignation, infeasibility, restriction_count, valid_sol};
use woa::bounds::{clamp_whales, data_bounds};
use woa::ieee::{eq, gt, is_nan, lt, negate, order_rank, F32_MAX_BITS};
use woa::mutation::{mutate_whale, shake, shake_round};
use woa::ranking::{find_best_whale, stable_order, top_n_elements};
use woa::search::{HistoryPoint, SearchState};

fn bits(values: &[f32]) -> Vec<u32> {
    values.iter().map(|x| x.to_bits()).collect()
}

fn bits_matrix(rows: &[&[f32]]) -> Vec<Vec<u32>> {
    rows.iter().map(|r| bits(r)).collect()
}

#[test]
fn test_top_n_elements() {
    let sol = vec![20.0f32, 30.0, 45.0, 30.0, 15.0, 100.0];
    assert_eq!(top_n_elements(&bits(&sol), 3), vec![4, 0, 1]);
    assert_eq!(top_n_elements(&bits(&sol), 4), vec![4, 0, 1, 3]);
}

#[test]
fn top_n_keeps_index_order_on_ties() {
    let sol = vec![1.0f32, 1.0, 0.5, -3.0];
    assert_eq!(top_n_elements(&bits(&sol), 3), vec![3, 2, 0]);
    // both zeros are equal floats
    let zeros = vec![0.0f32, -0.0, 0.0];
    assert_eq!(top_n_elements(&bits(&zeros), 2), vec![0, 1]);
}

#[test]
fn top_n_of_one_value_is_empty() {
    assert_eq!(top_n_elements(&bits(&[f32::NAN]), 0), Vec::<usize>::new());
    assert_eq!(top_n_elements(&bits(&[2.0, 1.0]), 0), Vec::<usize>::new());
}

#[test]
fn stable_order_sorts_all_indices() {
    let sol = vec![3.0f32, -1.0, 3.0, f32::INFINITY, f32::NEG_INFINITY];
    assert_eq!(stable_order(&bits(&sol)), vec![4, 1, 0, 2, 3]);
}

#[test]
fn float_comparisons_follow_ieee() {
    let z = 0.0f32.to_bits();
    let nz = (-0.0f32).to_bits();
    let nan = f32::NAN.to_bits();
    assert!(eq(z, nz));
    assert!(!lt(z, nz) && !lt(nz, z));
    assert!(lt((-2.5f32).to_bits(), (-1.0f32).to_bits()));
    assert!(gt(1.5f32.to_bits(), 1.25f32.to_bits()));
    assert!(lt(f32::MAX.to_bits(), f32::INFINITY.to_bits()));
    assert!(is_nan(nan) && !lt(nan, z) && !gt(nan, z) && !eq(nan, nan));
    assert!(!is_nan(f32::INFINITY.to_bits()));
    assert_eq!(negate(3.5f32.to_bits()), (-3.5f32).to_bits());
    assert_eq!(negate(negate(nan)), nan);
    assert_eq!(order_rank(nz), 0);
    assert_eq!(order_rank(1.0f32.to_bits()), 0x3f80_0000);
    assert_eq!(order_rank((-1.0f32).to_bits()), -0x3f80_0000);
}

#[test]
fn find_best_whale_takes_first_least_score() {
    let scores = bits(&[3.0, 1.0, 1.0, 2.0]);
    let mut evaluations = 10usize;
    assert_eq!(find_best_whale(&scores, &mut evaluations), (1, 1.0f32.to_bits()));
    assert_eq!(evaluations, 14);
}

#[test]
fn find_best_whale_without_improvement_keeps_whale_zero() {
    let scores = bits(&[f32::MAX, f32::NAN, f32::INFINITY]);
    let mut evaluations = 0usize;
    assert_eq!(find_best_whale(&scores, &mut evaluations), (0, F32_MAX_BITS));
    assert_eq!(evaluations, 3);
    let mut none = 0usize;
    assert_eq!(find_best_whale(&Vec::new(), &mut none), (0, F32_MAX_BITS));
    assert_eq!(none, 0);
}

#[test]
fn find_best_whale_skips_nan() {
    let scores = bits(&[f32::NAN, 5.0, -1.0]);
    let mut evaluations = 0usize;
    assert_eq!(find_best_whale(&scores, &mut evaluations), (2, (-1.0f32).to_bits()));
}

#[test]
fn calc_inf_delta_counts_broken_constraints() {
    let rest: Vec<Vec<i8>> = vec![vec![0, 1, -1, 1], vec![1, 0, 0, 0], vec![-1, 0, 0, 0], vec![1, 0, 0, 0]];
    let clusters = vec![0usize, 0, 0, 1];
    assert_eq!(calc_inf_delta(&rest, 0, &clusters), 2);
    assert_eq!(calc_inf_delta(&rest, 1, &clusters), 0);
    assert_eq!(calc_inf_delta(&rest, 2, &clusters), 1);
    assert_eq!(calc_inf_delta(&rest, 3, &clusters), 1);
}

#[test]
fn calc_inf_delta_of_empty_row_is_zero() {
    let rest: Vec<Vec<i8>> = vec![vec![]];
    assert_eq!(calc_inf_delta(&rest, 0, &Vec::new()), 0);
}

fn no_constraints(n: usize) -> Vec<Vec<i8>> {
    vec![vec![0i8; n]; n]
}

#[test]
fn assign_clusters_fills_empty_clusters_then_takes_nearest() {
    let dist = bits_matrix(&[&[9.0, 9.0], &[9.0, 9.0], &[5.0, 3.0], &[1.0, 1.0]]);
    let labels = assign_clusters(&vec![0, 1, 2, 3], &dist, &no_constraints(4), 2);
    assert_eq!(labels, vec![1, 0, 1, 0]);
}

#[test]
fn assign_clusters_follows_the_order() {
    let dist = bits_matrix(&[&[0.0, 7.0, 7.0], &[7.0, 0.0, 7.0], &[7.0, 7.0, 0.0], &[2.0, 1.0, 3.0]]);
    let labels = assign_clusters(&vec![3, 2, 1, 0], &dist, &no_constraints(4), 3);
    assert_eq!(labels, vec![0, 0, 1, 2]);
}

#[test]
fn assign_clusters_ignores_constraints_in_the_choice() {
    let dist = bits_matrix(&[&[1.0, 2.0], &[1.0, 2.0], &[1.0, 2.0]]);
    let rest: Vec<Vec<i8>> = vec![vec![0, -1, -1], vec![-1, 0, -1], vec![-1, -1, 0]];
    assert_eq!(assign_clusters(&vec![0, 1, 2], &dist, &rest, 2), vec![1, 0, 0]);
}

#[test]
fn assign_clusters_with_one_cluster() {
    let dist = bits_matrix(&[&[f32::NAN], &[2.0], &[3.0]]);
    assert_eq!(assign_clusters(&vec![2, 0, 1], &dist, &no_constraints(3), 1), vec![0, 0, 0]);
}

#[test]
fn assign_clusters_leaves_unvisited_points_unlabelled() {
    let dist = bits_matrix(&[&[1.0, 2.0], &[1.0, 2.0], &[1.0, 2.0]]);
    assert_eq!(assign_clusters(&vec![1], &dist, &no_constraints(3), 2), vec![3, 1, 3]);
    assert_eq!(assign_clusters(&vec![], &Vec::new(), &Vec::new(), 0), Vec::<usize>::new());
}

#[test]
fn cluster_assignation_labels_every_point_and_uses_every_cluster() {
    let dist = bits_matrix(&[
        &[1.0, 4.0, 2.0],
        &[3.0, 1.0, 2.0],
        &[2.0, 2.0, 2.0],
        &[0.5, 0.25, 9.0],
        &[6.0, 5.0, 4.0],
        &[1.0, 1.0, 0.0],
    ]);
    for seed in 0..8u64 {
        let mut rng = StdRng::seed_from_u64(seed);
        let labels = cluster_assignation(&dist, &no_constraints(6), 3, seed, &mut rng);
        assert_eq!(labels.len(), 6);
        assert!(labels.iter().all(|&c| c < 3));
        for c in 0..3 {
            assert!(labels.contains(&c));
        }
    }
}

#[test]
fn cluster_assignation_order_comes_from_the_generator() {
    // with as many clusters as points, point order[i] gets cluster n - 1 - i,
    // so the labels show the visiting order; unshuffled, every point keeps its own index
    let n = 10usize;
    let dist: Vec<Vec<u32>> = (0..n).map(|_| vec![1.0f32.to_bits(); n]).collect();
    let identity: Vec<usize> = (0..n).collect();
    let mut shuffled = false;
    for seed in 0..5u64 {
        let mut rng = StdRng::seed_from_u64(seed);
        let labels = cluster_assignation(&dist, &no_constraints(n), n as u32, 0, &mut rng);
        let mut sorted = labels.clone();
        sorted.sort();
        assert_eq!(sorted, identity);
        if labels != identity {
            shuffled = true;
        }
    }
    assert!(shuffled);
}

#[test]
fn data_bounds_span_the_data() {
    let data = bits_matrix(&[&[1.0, 5.0], &[3.0, -2.0], &[2.0]]);
    let (max, min) = data_bounds(&data);
    assert_eq!(max, bits(&[3.0, 5.0]));
    assert_eq!(min, bits(&[1.0, -2.0]));
}

#[test]
fn data_bounds_skip_nan() {
    let data = bits_matrix(&[&[f32::NAN], &[4.0]]);
    let (max, min) = data_bounds(&data);
    assert_eq!(max, bits(&[4.0]));
    assert_eq!(min, bits(&[4.0]));
    let only_nan = bits_matrix(&[&[f32::NAN]]);
    let (max, min) = data_bounds(&only_nan);
    assert_eq!(max, bits(&[f32::MIN]));
    assert_eq!(min, bits(&[f32::MAX]));
}

#[test]
fn clamp_whales_brings_centres_into_the_box() {
    let max = bits(&[1.0, 10.0]);
    let min = bits(&[0.0, 5.0]);
    let mut whales = vec![
        bits_matrix(&[&[2.0, 4.0], &[0.5, 7.0]]),
        bits_matrix(&[&[-1.0, 11.0, 99.0]]),
    ];
    clamp_whales(&mut whales, &max, &min);
    assert_eq!(whales[0], bits_matrix(&[&[1.0, 5.0], &[0.5, 7.0]]));
    assert_eq!(whales[1], bits_matrix(&[&[0.0, 10.0, 99.0]]));
}

#[test]
fn clamp_whales_with_an_inverted_box_ends_at_the_minimum() {
    let max = bits(&[0.0]);
    let min = bits(&[1.0]);
    let mut whales = vec![bits_matrix(&[&[3.0], &[0.5], &[-4.0]])];
    clamp_whales(&mut whales, &max, &min);
    assert_eq!(whales[0], bits_matrix(&[&[1.0], &[1.0], &[1.0]]));
}

#[test]
fn search_state_records_strict_improvements() {
    let mut state = SearchState::new();
    assert_eq!(state.best_score, F32_MAX_BITS);
    assert!(state.budget_left(10));
    state.add_evaluations(4);
    assert!(state.improve(3.0f32.to_bits(), &vec![0, 1]));
    state.add_evaluations(4);
    assert!(!state.improve(3.0f32.to_bits(), &vec![1, 1]));
    assert!(!state.improve(f32::NAN.to_bits(), &vec![1, 1]));
    assert!(state.improve(2.0f32.to_bits(), &vec![1, 0]));
    assert_eq!(state.best_score, 2.0f32.to_bits());
    assert_eq!(state.best_solution, vec![1, 0]);
    assert_eq!(
        state.history,
        vec![
            HistoryPoint { score: 3.0f32.to_bits(), evaluations: 4 },
            HistoryPoint { score: 2.0f32.to_bits(), evaluations: 8 },
        ]
    );
    assert_eq!(state.last_improvement, 8);
    state.add_evaluations(3);
    assert!(state.stagnant(2));
    assert!(!state.stagnant(3));
    assert!(!state.budget_left(11));
}

#[test]
fn search_state_ignores_scores_not_below_max() {
    let mut state = SearchState::new();
    assert!(!state.improve(f32::MAX.to_bits(), &vec![0]));
    assert!(!state.improve(f32::INFINITY.to_bits(), &vec![0]));
    assert!(state.best_solution.is_empty());
    assert!(state.history.is_empty());
}

#[test]
fn mutate_whale_negates_the_listed_centres() {
    let mut whales = vec![bits_matrix(&[&[1.0, 2.0], &[3.0, 4.0], &[5.0, 6.0]]), bits_matrix(&[&[7.0, 8.0]])];
    let donor = bits_matrix(&[&[-1.5, 2.5], &[9.0, 9.0], &[0.0, 1.0]]);
    mutate_whale(&mut whales, 0, &donor, &vec![2, 0]);
    assert_eq!(whales[0], bits_matrix(&[&[1.5, -2.5], &[3.0, 4.0], &[-0.0, -1.0]]));
    assert_eq!(whales[1], bits_matrix(&[&[7.0, 8.0]]));
}

#[test]
fn shake_keeps_shape_and_magnitudes() {
    let start = vec![
        bits_matrix(&[&[1.0, 2.0], &[3.0, 4.0]]),
        bits_matrix(&[&[5.0, 6.0], &[7.0, 8.0]]),
        bits_matrix(&[&[9.0, 10.0], &[11.0, 12.0]]),
    ];
    let mut changed = false;
    for seed in 0..6u64 {
        for from_elite in [false, true] {
            let mut whales = start.clone();
            let mut rng = StdRng::seed_from_u64(seed);
            shake(&mut whales, &vec![2, 0], from_elite, &mut rng);
            assert_eq!(whales.len(), 3);
            for w in 0..3 {
                assert_eq!(whales[w].len(), 2);
                for c in 0..2 {
                    assert_eq!(whales[w][c].len(), 2);
                    for j in 0..2 {
                        let x = whales[w][c][j];
                        assert!((0..3).any(|v| start[v][c][j] == x || negate(start[v][c][j]) == x));
                    }
                }
            }
            if whales != start {
                changed = true;
            }
        }
    }
    assert!(changed);
}

#[test]
fn valid_sol_needs_every_cluster_and_labels_below_k() {
    assert!(valid_sol(&vec![0, 1, 2, 1], 3));
    assert!(!valid_sol(&vec![0, 1, 1, 1], 3));
    assert!(!valid_sol(&vec![0, 1, 2, 3], 3));
    assert!(valid_sol(&vec![], 0));
    assert!(!valid_sol(&vec![], 1));
}

#[test]
fn infeasibility_counts_each_broken_pair_once() {
    let rest: Vec<Vec<i8>> = vec![vec![0, 1, -1], vec![1, 0, -1], vec![-1, -1, 0]];
    assert_eq!(infeasibility(&vec![0, 1, 0], &rest), 2);
    assert_eq!(infeasibility(&vec![0, 0, 1], &rest), 0);
    assert_eq!(infeasibility(&vec![0, 0, 0], &rest), 2);
}

#[test]
fn restriction_count_counts_entries_above_the_diagonal() {
    let rest: Vec<Vec<i8>> = vec![vec![1, 1, 0], vec![1, 1, -1], vec![0, -1, 1]];
    assert_eq!(restriction_count(&rest), 2);
    assert_eq!(restriction_count(&Vec::new()), 0);
}

#[test]
fn shake_round_overwrites_the_drawn_centres_from_the_drawn_donor() {
    let start = vec![
        bits_matrix(&[&[1.0, 2.0], &[3.0, 4.0], &[5.0, 6.0]]),
        bits_matrix(&[&[7.0, 8.0], &[9.0, 10.0], &[11.0, 12.0]]),
        bits_matrix(&[&[13.0, 14.0], &[15.0, 16.0], &[17.0, 18.0]]),
    ];
    // donor through the elite list: elite[1] is whale 2; two centres of order [2, 0, 1]
    let mut whales = start.clone();
    shake_round(&mut whales, &vec![0, 2], true, 1, 1, 2, vec![2, 0, 1]);
    assert_eq!(whales[0], start[0]);
    assert_eq!(whales[2], start[2]);
    assert_eq!(whales[1], bits_matrix(&[&[-13.0, -14.0], &[9.0, 10.0], &[-17.0, -18.0]]));
    // donor among all whales: whale 1; no centre drawn
    let mut whales = start.clone();
    shake_round(&mut whales, &vec![0, 2], false, 0, 1, 0, vec![1, 2, 0]);
    assert_eq!(whales, start);
    // donor among all whales: whale 1 overwrites one centre of whale 0
    let mut whales = start.clone();
    shake_round(&mut whales, &vec![], false, 0, 1, 1, vec![1, 2, 0]);
    assert_eq!(whales[0], bits_matrix(&[&[1.0, 2.0], &[-9.0, -10.0], &[5.0, 6.0]]));
}

#[test]
fn cluster_assignation_compares_no_distance_with_as_many_points_as_clusters() {
    let dist = bits_matrix(&[&[f32::NAN, 1.0], &[2.0, f32::NAN]]);
    let mut rng = StdRng::seed_from_u64(3);
    let labels = cluster_assignation(&dist, &no_constraints(2), 2, 0, &mut rng);
    let mut sorted = labels.clone();
    sorted.sort();
    assert_eq!(sorted, vec![0, 1]);
}
