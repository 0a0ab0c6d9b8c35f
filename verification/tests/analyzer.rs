use gap_analysis::randomness::{BitSequenceError, BurstinessLevel, RandomnessAnalyzer};
use gap_analysis::Ratio;

fn value(r: Ratio) -> f64 {
    r.num as f64 / r.den as f64
}

/// The burstiness score from its exact moments, as a consumer computes it:
/// B = (sigma - mean) / (sigma + mean), and 0.0 when the denominator is zero.
fn burstiness_value(b: &BurstinessLevel) -> f64 {
    let n = b.gap_count as f64;
    let mean = b.gap_sum as f64 / n;
    let var = b.gap_square_sum as f64 / n - mean * mean;
    let sigma = if var > 0.0 { var.sqrt() } else { 0.0 };
    let denom = sigma + mean;
    if denom == 0.0 {
        0.0
    } else {
        (sigma - mean) / denom
    }
}

#[test]
fn construction_rejects_empty() {
    match RandomnessAnalyzer::new("") {
        Err(BitSequenceError::EmptySequence) => {}
        _ => panic!("empty input must fail with EmptySequence"),
    }
}

#[test]
fn construction_rejects_invalid_character() {
    match RandomnessAnalyzer::new("102") {
        Err(BitSequenceError::InvalidCharacter { character, index }) => {
            assert_eq!(character, '2');
            assert_eq!(index, 2);
        }
        _ => panic!("input with '2' must fail with InvalidCharacter"),
    }
}

#[test]
fn construction_reports_first_invalid_character() {
    match RandomnessAnalyzer::new("01a0b") {
        Err(BitSequenceError::InvalidCharacter { character, index }) => {
            assert_eq!(character, 'a');
            assert_eq!(index, 2);
        }
        _ => panic!("expected InvalidCharacter"),
    }
}

#[test]
fn scenario_1001() {
    let a = RandomnessAnalyzer::new("1001").unwrap();
    assert_eq!(value(a.bop()), 0.5);
    assert_eq!(a.gaps(), vec![2]);

    let density = a.gap_density();
    assert_eq!(density.len(), 1);
    assert_eq!(density[0].0, 2);
    assert_eq!(value(density[0].1), 1.0);

    let dist = a.gap_distribution();
    assert_eq!(dist.len(), 3);
    for (k, expected) in dist.iter().zip([1.0, 1.0, 1.0]) {
        assert_eq!(value(k.1), expected);
    }
    assert_eq!(dist[0].0, 0);
    assert_eq!(dist[1].0, 1);
    assert_eq!(dist[2].0, 2);

    let (p, v0, diff) = a.iid_du_check();
    assert_eq!(value(p), 0.5);
    assert_eq!(value(v0), 0.0);
    assert_eq!(value(diff), 0.5);

    let bursts = a.bursts(3);
    assert_eq!(bursts.len(), 1);
    assert_eq!(bursts[0].weight, 2);
    assert_eq!(bursts[0].length, 4);

    let b = a.burstiness_level().unwrap();
    assert_eq!(b.gap_count, 1);
    assert_eq!(b.gap_sum, 2);
    assert_eq!(b.gap_square_sum, 4);
    assert_eq!(burstiness_value(&b), -1.0);
}

#[test]
fn scenario_all_zeros() {
    let a = RandomnessAnalyzer::new("000000").unwrap();
    assert_eq!(value(a.bop()), 0.0);
    assert_eq!(a.gaps(), Vec::<usize>::new());
    assert!(a.gap_density().is_empty());
    assert!(a.gap_distribution().is_empty());

    let (p, v0, diff) = a.iid_du_check();
    assert_eq!(value(p), 0.0);
    assert_eq!(value(v0), 0.0);
    assert_eq!(value(diff), 0.0);

    for threshold in [0, 1, 3, 100] {
        assert!(a.bursts(threshold).is_empty());
    }
    assert!(a.burstiness_level().is_none());
}

#[test]
fn scenario_10101() {
    let a = RandomnessAnalyzer::new("10101").unwrap();
    assert_eq!(a.gaps(), vec![1, 1]);

    let b = a.burstiness_level().unwrap();
    assert_eq!(b.gap_count, 2);
    assert_eq!(b.gap_sum, 2);
    assert_eq!(b.gap_square_sum, 2);
    assert_eq!(burstiness_value(&b), -1.0);

    let density = a.gap_density();
    assert_eq!(density.len(), 1);
    assert_eq!(density[0].0, 1);
    assert_eq!(value(density[0].1), 1.0);

    let dist = a.gap_distribution();
    assert_eq!(dist.len(), 2);
    assert_eq!(value(dist[0].1), 1.0);
    assert_eq!(value(dist[1].1), 1.0);
}

#[test]
fn gap_count_is_ones_minus_one() {
    for (input, expected) in [
        ("0", 0),
        ("1", 0),
        ("10", 0),
        ("11", 1),
        ("1001", 1),
        ("10101", 2),
        ("1111", 3),
        ("0110100", 2),
    ] {
        let a = RandomnessAnalyzer::new(input).unwrap();
        assert_eq!(a.gaps().len(), expected, "input {input}");
    }
}

#[test]
fn bop_stays_within_unit_interval() {
    for input in ["0", "1", "0101", "111", "000", "1001110"] {
        let a = RandomnessAnalyzer::new(input).unwrap();
        let p = value(a.bop());
        assert!((0.0..=1.0).contains(&p), "input {input}");
    }
    assert_eq!(value(RandomnessAnalyzer::new("111").unwrap().bop()), 1.0);
    assert_eq!(value(RandomnessAnalyzer::new("0001").unwrap().bop()), 0.25);
}

#[test]
fn density_values_sum_to_one() {
    for input in ["1010011101", "1001", "110011", "101", "1111111"] {
        let a = RandomnessAnalyzer::new(input).unwrap();
        let sum: f64 = a.gap_density().iter().map(|e| value(e.1)).sum();
        assert!((sum - 1.0).abs() < 1e-12, "input {input}: sum {sum}");
    }
}

#[test]
fn distribution_starts_at_one_and_decreases() {
    for input in ["1010011101", "100101", "11010001", "101001000011"] {
        let a = RandomnessAnalyzer::new(input).unwrap();
        let dist = a.gap_distribution();
        assert_eq!(value(dist[0].1), 1.0, "input {input}");
        for w in dist.windows(2) {
            assert!(value(w[1].1) <= value(w[0].1), "input {input}");
        }
    }
}

#[test]
fn burstiness_absent_iff_no_gaps() {
    for input in ["0", "1", "000", "0100"] {
        let a = RandomnessAnalyzer::new(input).unwrap();
        assert!(a.burstiness_level().is_none(), "input {input}");
    }
    for input in ["11", "101", "100001"] {
        let a = RandomnessAnalyzer::new(input).unwrap();
        assert!(a.burstiness_level().is_some(), "input {input}");
    }
}

#[test]
fn burstiness_zero_for_all_zero_gaps() {
    let a = RandomnessAnalyzer::new("111").unwrap();
    let b = a.burstiness_level().unwrap();
    assert_eq!(b.gap_sum, 0);
    assert_eq!(burstiness_value(&b), 0.0);
}

#[test]
fn burstiness_zero_for_balanced_gaps() {
    let a = RandomnessAnalyzer::new("1101").unwrap();
    let b = a.burstiness_level().unwrap();
    assert_eq!(b.gap_count, 2);
    assert_eq!(b.gap_sum, 1);
    assert_eq!(b.gap_square_sum, 1);
    assert_eq!(burstiness_value(&b), 0.0);
}

#[test]
fn bursts_with_zero_threshold_never_merge() {
    let a = RandomnessAnalyzer::new("11011").unwrap();
    let bursts = a.bursts(0);
    assert_eq!(bursts.len(), 4);
    for b in bursts {
        assert_eq!(b.weight, 1);
        assert_eq!(b.length, 1);
    }
}

#[test]
fn bursts_merge_below_threshold() {
    let a = RandomnessAnalyzer::new("110011").unwrap();
    let bursts = a.bursts(1);
    assert_eq!(bursts.len(), 2);
    assert_eq!((bursts[0].weight, bursts[0].length), (2, 2));
    assert_eq!((bursts[1].weight, bursts[1].length), (2, 2));

    let merged = a.bursts(3);
    assert_eq!(merged.len(), 1);
    assert_eq!((merged[0].weight, merged[0].length), (4, 6));
}

#[test]
fn iid_du_check_without_gaps_reports_discrepancy_p() {
    let a = RandomnessAnalyzer::new("01").unwrap();
    let (p, v0, diff) = a.iid_du_check();
    assert_eq!(value(p), 0.5);
    assert_eq!(value(v0), 0.0);
    assert_eq!(value(diff), 0.5);
}

#[test]
fn single_one_is_a_single_burst() {
    let a = RandomnessAnalyzer::new("010").unwrap();
    let bursts = a.bursts(5);
    assert_eq!(bursts.len(), 1);
    assert_eq!((bursts[0].weight, bursts[0].length), (1, 1));
}

#[test]
fn iid_du_check_on_mixed_input() {
    let a = RandomnessAnalyzer::new("110101").unwrap();
    let (p, v0, diff) = a.iid_du_check();
    assert_eq!(value(p), 4.0 / 6.0);
    assert_eq!(value(v0), 1.0 / 3.0);
    assert!((value(diff) - 1.0 / 3.0).abs() < 1e-12);
}
