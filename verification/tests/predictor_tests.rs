use oremine::predictor::{top_up_pick, HybridPredictor};
use oremine::subset::{
    cluster_adjacency, crossover, ga_best, initial_population, missing_squares, mutate,
    next_generation, random_subset, rank_order, tournament_select, GA_POP, SUBSET_K,
};

fn strictly_increasing(v: &[usize]) -> bool {
    v.windows(2).all(|w| w[0] < w[1])
}

fn identity_ranking() -> Vec<usize> {
    (0..25).collect()
}

#[test]
fn new_predictor_counts_every_square_once() {
    let p = HybridPredictor::new();
    assert_eq!(p.counts(), &vec![1u64; 25]);
    assert_eq!(p.total_rounds(), 0);
    assert_eq!(p.correct_hybrid(), 0);
}

#[test]
fn update_records_hits_misses_and_counts() {
    let mut p = HybridPredictor::new();
    p.update(3, &[1, 3, 5]);
    p.update(4, &[1, 3, 5]);
    assert_eq!(p.total_rounds(), 2);
    assert_eq!(p.correct_hybrid(), 1);
    assert_eq!(p.counts()[3], 2);
    assert_eq!(p.counts()[4], 2);
    assert_eq!(p.counts()[0], 1);
    // the counts add up to 25 plus the rounds recorded
    assert_eq!(p.counts().iter().sum::<u64>(), 27);
}

#[test]
fn accuracy_threshold_counts_hits_over_rounds() {
    let mut p = HybridPredictor::new();
    assert!(!p.accuracy_at_least(80));
    for _ in 0..4 {
        p.update(2, &[2]);
    }
    p.update(7, &[2]);
    // 4 hits out of 5 rounds: exactly 80%
    assert!(p.accuracy_at_least(80));
    assert!(!p.accuracy_at_least(81));
    p.update(7, &[2]);
    assert!(!p.accuracy_at_least(80));
}

#[test]
fn predict_keeps_top_eighteen_and_two_cold_boosters() {
    let p = HybridPredictor::new();
    let ranking: Vec<usize> = (0..25).rev().collect();
    for _ in 0..50 {
        let pick = p.predict(&ranking);
        assert_eq!(pick.len(), 20);
        assert!(strictly_increasing(&pick));
    }
    let pick = p.predict(&ranking);
    for s in 7..25 {
        assert!(pick.contains(&s));
    }
    let boosters: Vec<usize> = pick.iter().copied().filter(|&s| s < 7).collect();
    assert_eq!(boosters.len(), 2);
}

#[test]
fn predict_hybrid_merges_frequency_and_search_picks() {
    let p = HybridPredictor::new();
    let ranking = identity_ranking();
    let ec = vec![20, 21, 22, 23, 24, 0, 1, 2];
    let pick = p.predict_hybrid(&ranking, &ec);
    assert_eq!(pick.len(), 20);
    assert!(strictly_increasing(&pick));
    // 12 most frequent, the first 6 of the search pick, then square 12
    for s in [0, 1, 2, 3, 4, 5, 6, 7, 8, 9, 10, 11, 12, 20, 21, 22, 23, 24] {
        assert!(pick.contains(&s), "missing {}", s);
    }
    let extra: Vec<usize> = pick.iter().copied().filter(|&s| (13..20).contains(&s)).collect();
    assert_eq!(extra.len(), 2);
}

#[test]
fn predict_hybrid_tops_up_from_frequency_order() {
    let p = HybridPredictor::new();
    let ranking = identity_ranking();
    // search pick entirely inside the top twelve: the main part is 0..18
    let ec = vec![0, 1, 2, 3, 4, 5];
    let pick = p.predict_hybrid(&ranking, &ec);
    for s in 0..18 {
        assert!(pick.contains(&s));
    }
    assert_eq!(pick.iter().filter(|&&s| s >= 18).count(), 2);
}

#[test]
fn predict_3way_splits_the_board() {
    let p = HybridPredictor::new();
    let ranking: Vec<usize> = (0..25).rev().collect();
    let ec = vec![3, 1, 1, 2];
    let (a, b, c) = p.predict_3way(&ranking, &ec);
    assert_eq!(a, (7..25).collect::<Vec<usize>>());
    assert_eq!(b, (0..7).collect::<Vec<usize>>());
    // distinct search squares 1, 2, 3, then the most frequent ones: 24, 23, ...
    let mut expected: Vec<usize> = vec![1, 2, 3];
    expected.extend(10..25);
    assert_eq!(c, expected);
}

#[test]
fn predict_two_alt_cuts_to_smallest_and_complements() {
    let p = HybridPredictor::new();
    let ranking = identity_ranking();
    let hybrid: Vec<usize> = vec![24, 23, 22, 21, 20, 19, 18, 17, 16, 15, 14, 13, 12, 11, 10, 9, 8, 7, 6, 5];
    let draws: Vec<usize> = vec![30, 5, 23, 6, 7, 8, 9, 10, 11, 12, 13, 14, 15, 16];
    let (alt1, alt2) = p.predict_two_alt(&hybrid, &ranking, &draws);
    assert_eq!(alt1, (5..23).collect::<Vec<usize>>());
    let mut expected: Vec<usize> = (0..16).collect();
    expected.extend([23, 24]);
    assert_eq!(alt2, expected);
    // draws that run out are completed with the smallest squares left
    let (_, alt2) = p.predict_two_alt(&hybrid, &ranking, &vec![20, 18]);
    let mut expected: Vec<usize> = (0..14).collect();
    expected.extend([18, 20, 23, 24]);
    assert_eq!(alt2, expected);
    // every square the first alternative leaves out is in the second
    let (alt1, alt2) = p.predict_two_alt(&hybrid, &ranking, &vec![]);
    assert_eq!(alt2.len(), 18);
    assert!((0..25).all(|x| alt1.contains(&x) || alt2.contains(&x)));
}

#[test]
fn top_up_pick_fills_with_frequent_squares() {
    let ranking: Vec<usize> = (0..25).rev().collect();
    let pick = top_up_pick(&vec![0, 0, 1], &ranking);
    let mut expected = vec![0, 1];
    expected.extend(9..25);
    assert_eq!(pick, expected);
}

#[test]
fn cluster_adjacency_counts_neighbours() {
    assert_eq!(cluster_adjacency(&vec![1, 2, 3]), 4);
    assert_eq!(cluster_adjacency(&vec![0, 24]), 0);
    assert_eq!(cluster_adjacency(&vec![23, 24]), 2);
    assert_eq!(cluster_adjacency(&vec![]), 0);
}

#[test]
fn random_subset_is_a_candidate() {
    let mut rng = rand::thread_rng();
    for _ in 0..20 {
        let s = random_subset(&mut rng);
        assert_eq!(s.len(), SUBSET_K);
        assert!(strictly_increasing(&s));
        assert!(s.iter().all(|&x| x < 25));
    }
}

#[test]
fn crossover_keeps_parent_squares() {
    let mut rng = rand::thread_rng();
    let a: Vec<usize> = (0..18).collect();
    let b: Vec<usize> = (5..23).collect();
    for _ in 0..20 {
        let child = crossover(&a, &b, &mut rng);
        assert_eq!(child.len(), 18);
        assert!(strictly_increasing(&child));
        assert!(child.iter().all(|&x| x < 23));
    }
    let small = vec![1, 2, 3];
    let child = crossover(&small, &small, &mut rng);
    assert_eq!(child.len(), 18);
    assert!(strictly_increasing(&child));
    for s in [1, 2, 3] {
        assert!(child.contains(&s));
    }
}

#[test]
fn mutate_replaces_at_most_two_squares() {
    let mut rng = rand::thread_rng();
    for _ in 0..20 {
        let before: Vec<usize> = (0..18).collect();
        let mut sub = before.clone();
        mutate(&mut sub, &mut rng);
        assert_eq!(sub.len(), 18);
        assert!(strictly_increasing(&sub));
        let new_squares = sub.iter().filter(|s| !before.contains(s)).count();
        assert!((1..=2).contains(&new_squares));
        assert!(sub.iter().all(|&x| x < 25));
    }
    // a subset holding every square cannot change
    let mut full: Vec<usize> = (0..25).collect();
    mutate(&mut full, &mut rng);
    assert_eq!(full, (0..25).collect::<Vec<usize>>());
}

#[test]
fn missing_squares_complements() {
    assert_eq!(missing_squares(&(0..20).collect()), vec![20, 21, 22, 23, 24]);
    assert_eq!(missing_squares(&vec![]), (0..25).collect::<Vec<usize>>());
}

#[test]
fn rank_order_is_stable_descending() {
    assert_eq!(rank_order(&vec![5, 7, 7, 1]), vec![1, 2, 0, 3]);
    assert_eq!(rank_order(&vec![]), Vec::<usize>::new());
}

#[test]
fn tournament_select_picks_from_population() {
    let mut rng = rand::thread_rng();
    assert!(tournament_select(&vec![], &mut rng).is_empty());
    let one = vec![(3u64, vec![4usize, 5])];
    assert_eq!(tournament_select(&one, &mut rng), vec![4, 5]);
    // the lowest key can only win if all three draws land on it
    let scored = vec![(1u64, vec![1usize]), (9u64, vec![9usize])];
    let wins = (0..200).filter(|_| tournament_select(&scored, &mut rng) == vec![9]).count();
    assert!(wins > 100);
}

#[test]
fn next_generation_keeps_elites_and_fills_population() {
    let mut rng = rand::thread_rng();
    let pop = initial_population(&mut rng);
    assert_eq!(pop.len(), GA_POP);
    let scored: Vec<(u64, Vec<usize>)> =
        pop.iter().enumerate().map(|(i, ind)| (i as u64, ind.clone())).collect();
    let next = next_generation(&scored, &mut rng);
    assert_eq!(next.len(), GA_POP);
    for k in 0..6 {
        assert_eq!(next[k], pop[GA_POP - 1 - k]);
    }
    for ind in next.iter() {
        assert_eq!(ind.len(), 18);
        assert!(strictly_increasing(ind));
        assert!(ind.iter().all(|&x| x < 25));
    }
}

#[test]
fn ga_best_takes_first_highest_key() {
    let scored = vec![(2u64, vec![1usize]), (5, vec![2]), (5, vec![3]), (1, vec![4])];
    assert_eq!(ga_best(&scored), vec![2]);
    assert_eq!(ga_best(&vec![]), (0..18).collect::<Vec<usize>>());
}
