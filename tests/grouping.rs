use stats::decimal::ExactDecimal;
use stats::grouping::{frequency_distribution, mode, probability_distribution, sort_float};

fn whole(values: &[i64]) -> Vec<ExactDecimal> {
    values.iter().map(|v| ExactDecimal::new(*v, 0)).collect()
}

#[test]
fn sort_keeps_duplicates_in_order() {
    let input = vec![
        ExactDecimal::new(3, 0),
        ExactDecimal::new(-1, 5),
        ExactDecimal::new(3, 0),
        ExactDecimal::new(0, 2),
        ExactDecimal::new(-1, 4),
    ];
    let sorted = sort_float(&input);
    assert_eq!(
        sorted,
        vec![
            ExactDecimal::new(-1, 4),
            ExactDecimal::new(-1, 5),
            ExactDecimal::new(0, 2),
            ExactDecimal::new(3, 0),
            ExactDecimal::new(3, 0),
        ]
    );
    assert!(sort_float(&[]).is_empty());
}

#[test]
fn frequency_counts_sum_to_length() {
    let input = whole(&[5, 1, 5, 2, 5, 1]);
    let freq = frequency_distribution(&input);
    assert_eq!(
        freq,
        vec![
            (ExactDecimal::new(1, 0), 2),
            (ExactDecimal::new(2, 0), 1),
            (ExactDecimal::new(5, 0), 3),
        ]
    );
    assert_eq!(freq.iter().map(|e| e.1).sum::<usize>(), input.len());
    assert!(frequency_distribution(&[]).is_empty());
}

#[test]
fn probabilities_sum_to_one_within_tolerance() {
    let input = whole(&[1, 4, 4]);
    let prob = probability_distribution(&input);
    assert_eq!(prob.len(), 2);
    assert_eq!(prob[0].0, ExactDecimal::new(1, 0));
    assert_eq!(prob[0].1, ExactDecimal::new(0, 3_333_333_333_333_333_333));
    assert_eq!(prob[1].1, ExactDecimal::new(0, 6_666_666_666_666_666_666));
    let total: u128 = prob.iter().map(|e| e.1.trunc as u128 * 10_000_000_000_000_000_000 + e.1.fract as u128).sum();
    assert!(total <= 10_000_000_000_000_000_000);
    assert!(total + prob.len() as u128 > 10_000_000_000_000_000_000);
    let single = probability_distribution(&whole(&[9]));
    assert_eq!(single, vec![(ExactDecimal::new(9, 0), ExactDecimal::one())]);
}

#[test]
fn mode_single() {
    assert_eq!(mode(&whole(&[1, 4, 4])), (2, whole(&[4])));
}

#[test]
fn mode_multi_modal() {
    assert_eq!(mode(&whole(&[1, 2, 2, 3, 3])), (2, whole(&[2, 3])));
    assert_eq!(mode(&whole(&[7])), (1, whole(&[7])));
}
