//! End-to-end tests of the clustering pipeline, run against the real
//! dependencies.

use happiness_clusters::clustering::{calculate_inertia, compute_seed, distance, kmeans};
use happiness_clusters::data_loader::{canonical_country_name, CountryData};
use happiness_clusters::preprocessing::normalize_features;
use happiness_clusters::transitions::{percent_hundredths, record_transitions, TransitionTable};
use happiness_clusters::SCALE;

fn rec(name: &str, features: [i64; 5]) -> CountryData {
    CountryData { country: name.to_string(), features: features.to_vec() }
}

#[test]
fn test_country_name_fixing() {
    assert_eq!(canonical_country_name("hong kong s.a.r., china"), "hong kong");
    assert_eq!(canonical_country_name("Taiwan Province of China"), "taiwan");
    assert_eq!(canonical_country_name("  United States of America "), "united states");
    assert_eq!(canonical_country_name("France"), "france");
}

#[test]
fn test_country_name_more_aliases() {
    assert_eq!(canonical_country_name("North Macedonia"), "macedonia");
    assert_eq!(canonical_country_name("Trinidad & Tobago"), "trinidad and tobago");
    assert_eq!(canonical_country_name("Somaliland region"), "somaliland");
    assert_eq!(canonical_country_name("Hong Kong China"), "hong kong");
    assert_eq!(canonical_country_name("germany"), "germany");
}

#[test]
fn test_normalize_between_0_and_1() {
    // One record at each column's minimum and one at its maximum, in
    // fixed-point representation.
    let mut sample_data = vec![
        rec("A", [1_000_000, 2_000_000, 3_000_000, 4_000_000, 5_000_000]),
        rec("B", [2_000_000, 4_000_000, 6_000_000, 8_000_000, 10_000_000]),
    ];
    normalize_features(&mut sample_data);
    for country in &sample_data {
        for j in 0..5 {
            assert!(0 <= country.features[j] && country.features[j] <= SCALE);
        }
    }
}

#[test]
fn test_normalize_min_and_max_attained() {
    let mut data = vec![
        rec("low", [10, 10, 10, 10, 10]),
        rec("mid", [15, 15, 15, 15, 15]),
        rec("high", [20, 20, 20, 20, 20]),
    ];
    normalize_features(&mut data);
    for j in 0..5 {
        assert_eq!(data[0].features[j], 0);
        assert_eq!(data[1].features[j], SCALE / 2);
        assert_eq!(data[2].features[j], SCALE);
    }
    assert_eq!(data[0].country, "low");
    assert_eq!(data[2].country, "high");
}

#[test]
fn test_normalize_constant_column_unchanged() {
    let mut data = vec![rec("A", [7, 1, 7, 7, 7]), rec("B", [7, 2, 7, 7, 7])];
    normalize_features(&mut data);
    // Columns 0 and 2..4 are constant and must stay exactly as they were.
    assert_eq!(data[0].features[0], 7);
    assert_eq!(data[1].features[0], 7);
    assert_eq!(data[0].features[2], 7);
    assert_eq!(data[1].features[4], 7);
    // Column 1 is not constant and is rescaled to the bounds.
    assert_eq!(data[0].features[1], 0);
    assert_eq!(data[1].features[1], SCALE);
}

#[test]
fn test_normalize_single_record_unchanged() {
    let mut data = vec![rec("only", [3, 4, 5, 6, 7])];
    normalize_features(&mut data);
    assert_eq!(data[0].features, vec![3, 4, 5, 6, 7]);
}

#[test]
fn test_distance_identity_symmetry() {
    let a = rec("A", [100_000, 200_000, 300_000, 400_000, 500_000]);
    let b = rec("B", [500_000, 600_000, 700_000, 800_000, 900_000]);
    assert_eq!(distance(&a, &a), 0);
    assert_eq!(distance(&b, &b), 0);
    assert_eq!(distance(&a, &b), distance(&b, &a));
}

#[test]
fn test_distance_exact_value() {
    let a = rec("A", [100_000, 100_000, 100_000, 100_000, 100_000]);
    let b = rec("B", [900_000, 900_000, 900_000, 900_000, 900_000]);
    // Five features each differing by 800 000: 5 * 800 000^2.
    assert_eq!(distance(&a, &b), 3_200_000_000_000);
}

#[test]
fn test_kmeans_returns_right_size() {
    let input = vec![
        rec("A", [100_000, 100_000, 100_000, 100_000, 100_000]),
        rec("B", [900_000, 900_000, 900_000, 900_000, 900_000]),
    ];
    let (labels, centers) = kmeans(&input, 2, 5, 42);
    assert_eq!(labels.len(), input.len());
    assert_eq!(centers.len(), 2);
    for &l in &labels {
        assert!(l < 2);
    }
}

#[test]
fn test_inertia_is_positive() {
    let points = vec![
        rec("A", [100_000, 200_000, 300_000, 400_000, 500_000]),
        rec("B", [500_000, 600_000, 700_000, 800_000, 900_000]),
    ];
    let (labels, centers) = kmeans(&points, 2, 5, 100);
    let inertia = calculate_inertia(&points, &centers, &labels);
    assert!(inertia >= 0);
}

#[test]
fn test_kmeans_deterministic() {
    let data = vec![
        rec("A", [1, 2, 3, 4, 5]),
        rec("B", [100, 200, 300, 400, 500]),
        rec("C", [10_000, 20_000, 30_000, 40_000, 50_000]),
        rec("D", [7, 7, 7, 7, 7]),
    ];
    let (labels1, centers1) = kmeans(&data, 2, 10, 12345);
    let (labels2, centers2) = kmeans(&data, 2, 10, 12345);
    assert_eq!(labels1, labels2);
    assert_eq!(centers1.len(), centers2.len());
    for (c1, c2) in centers1.iter().zip(centers2.iter()) {
        assert_eq!(c1.country, c2.country);
        assert_eq!(c1.features, c2.features);
    }
}

#[test]
fn test_kmeans_initial_centers_are_records() {
    // With zero iterations the centers are exactly the sampled records:
    // with k equal to the record count they are a permutation of the input.
    let data = vec![rec("A", [1, 1, 1, 1, 1]), rec("B", [2, 2, 2, 2, 2])];
    let (_, centers) = kmeans(&data, 2, 0, 9);
    let mut names: Vec<String> = centers.iter().map(|c| c.country.clone()).collect();
    names.sort();
    assert_eq!(names, vec!["A".to_string(), "B".to_string()]);
    assert_ne!(centers[0].features, centers[1].features);
}

#[test]
fn test_kmeans_tie_breaks_to_lowest_index_and_keeps_empty_center() {
    // Two identical records: both centers coincide, so every record is
    // assigned to the lower cluster index and the other cluster, left
    // empty, keeps its initial center.
    let data = vec![rec("A", [5, 5, 5, 5, 5]), rec("B", [5, 5, 5, 5, 5])];
    let (labels, centers) = kmeans(&data, 2, 3, 77);
    assert_eq!(labels, vec![0, 0]);
    assert_eq!(centers[0].features, vec![5, 5, 5, 5, 5]);
    assert_eq!(centers[1].features, vec![5, 5, 5, 5, 5]);
}

#[test]
fn test_two_far_records_end_in_their_own_clusters() {
    // Two records at opposite corners: for any seed each becomes its own
    // cluster after at least one round, and the inertia is exactly zero.
    for seed in [0u64, 1, 42, 99, 123_456_789] {
        let records = vec![
            rec("low", [100_000, 100_000, 100_000, 100_000, 100_000]),
            rec("high", [900_000, 900_000, 900_000, 900_000, 900_000]),
        ];
        let (labels, centers) = kmeans(&records, 2, 1, seed);
        assert_ne!(labels[0], labels[1]);
        assert_eq!(calculate_inertia(&records, &centers, &labels), 0);
    }
}

#[test]
fn test_kmeans_single_cluster_center_is_mean() {
    // With one cluster every record is labeled 0 and the center becomes
    // the coordinate-wise truncated mean: (1 + 2 + 4) / 3 = 2.
    let data = vec![rec("A", [1, 1, 1, 1, 1]), rec("B", [2, 2, 2, 2, 2]), rec("C", [4, 4, 4, 4, 4])];
    let (labels, centers) = kmeans(&data, 1, 1, 5);
    assert_eq!(labels, vec![0, 0, 0]);
    assert_eq!(centers.len(), 1);
    assert_eq!(centers[0].features, vec![2, 2, 2, 2, 2]);
}

#[test]
fn test_kmeans_mean_truncates_toward_zero() {
    // (-5 + -4) / 2 = -4.5, which truncates toward zero to -4.
    let data = vec![rec("A", [-5, -5, -5, -5, -5]), rec("B", [-4, -4, -4, -4, -4])];
    let (labels, centers) = kmeans(&data, 1, 1, 3);
    assert_eq!(labels, vec![0, 0]);
    assert_eq!(centers[0].features, vec![-4, -4, -4, -4, -4]);
}

#[test]
fn test_compute_seed_reproducible() {
    let s1 = compute_seed(2015, 4);
    let s2 = compute_seed(2015, 4);
    assert_eq!(s1, s2);
    assert_ne!(compute_seed(2015, 4), compute_seed(2016, 4));
    assert_ne!(compute_seed(2015, 4), compute_seed(2015, 5));
}

fn labeling(pairs: &[(&str, usize)]) -> Vec<(String, usize)> {
    pairs.iter().map(|(n, l)| (n.to_string(), *l)).collect()
}

#[test]
fn test_transition_table_records_pairs() {
    let prev = labeling(&[("A", 0), ("B", 1), ("C", 2)]);
    let curr = labeling(&[("A", 1), ("B", 1)]);
    let mut table = TransitionTable::new();
    record_transitions(&prev, &curr, &mut table);
    assert_eq!(table.count(0, 1), 1);
    assert_eq!(table.count(1, 1), 1);
    // "C" is absent from the current year and contributes nothing.
    assert_eq!(table.count(2, 0), 0);
    assert_eq!(table.count(2, 1), 0);
    assert_eq!(table.count(2, 2), 0);
    assert_eq!(table.from_total(0), 1);
    assert_eq!(table.from_total(1), 1);
    assert_eq!(table.from_total(2), 0);
}

#[test]
fn test_transition_table_accumulates_across_years() {
    let mut table = TransitionTable::new();
    let year1 = labeling(&[("A", 0), ("B", 0)]);
    let year2 = labeling(&[("A", 1), ("B", 2)]);
    record_transitions(&year1, &year2, &mut table);
    let year3 = labeling(&[("A", 1), ("B", 1)]);
    record_transitions(&year2, &year3, &mut table);
    assert_eq!(table.count(0, 1), 1);
    assert_eq!(table.count(0, 2), 1);
    assert_eq!(table.count(1, 1), 1);
    assert_eq!(table.count(2, 1), 1);
    assert_eq!(table.from_total(0), 2);
    assert_eq!(table.from_total(1), 1);
    assert_eq!(table.from_total(2), 1);
}

#[test]
fn test_percentage_derivation() {
    // "from" cluster 0 has total 4: three moves to cluster 1, one to
    // cluster 2. The percentages are 75.00% and 25.00% and sum to 100%.
    let mut table = TransitionTable::new();
    let prev = labeling(&[("A", 0), ("B", 0), ("C", 0), ("D", 0)]);
    let curr = labeling(&[("A", 1), ("B", 1), ("C", 1), ("D", 2)]);
    record_transitions(&prev, &curr, &mut table);
    let total = table.from_total(0);
    assert_eq!(total, 4);
    let p1 = percent_hundredths(table.count(0, 1), total);
    let p2 = percent_hundredths(table.count(0, 2), total);
    assert_eq!(p1, 7500);
    assert_eq!(p2, 2500);
    assert_eq!(p1 + p2, 10000);
}

#[test]
fn test_end_to_end_year_pipeline() {
    // Normalize a small year, cluster it, and track one transition.
    let mut year1 = vec![
        rec("alpha", [100_000, 100_000, 100_000, 100_000, 100_000]),
        rec("beta", [900_000, 900_000, 900_000, 900_000, 900_000]),
    ];
    normalize_features(&mut year1);
    let seed = compute_seed(2015, 2);
    let (labels, centers) = kmeans(&year1, 2, 10, seed);
    assert_eq!(calculate_inertia(&year1, &centers, &labels), 0);
    let prev: Vec<(String, usize)> =
        year1.iter().zip(labels.iter()).map(|(r, &l)| (r.country.clone(), l)).collect();
    let curr = labeling(&[("alpha", 0), ("beta", 0)]);
    let mut table = TransitionTable::new();
    record_transitions(&prev, &curr, &mut table);
    assert_eq!(table.count(labels[0], 0), 1);
    assert_eq!(table.count(labels[1], 0), 1);
    assert_eq!(table.from_total(labels[0]), 1);
}
