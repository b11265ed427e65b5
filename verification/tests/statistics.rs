use machine_napkin_numbers::harness::{sort_samples, summarize};

#[test]
fn summary_of_odd_count() {
    let s = summarize(&vec![30, 10, 20, 50, 40]);
    assert_eq!(s.median, 30);
    assert_eq!(s.min, 10);
}

#[test]
fn summary_of_even_count_takes_upper_middle() {
    let s = summarize(&vec![4, 1, 3, 2]);
    assert_eq!(s.median, 3);
    assert_eq!(s.min, 1);
}

#[test]
fn summary_of_one_sample() {
    let s = summarize(&vec![7]);
    assert_eq!(s.median, 7);
    assert_eq!(s.min, 7);
}

#[test]
fn summary_with_repeats() {
    let s = summarize(&vec![5, 5, 1, 5, 9, 9, 1]);
    assert_eq!(s.median, 5);
    assert_eq!(s.min, 1);
}

#[test]
fn sort_matches_std() {
    let mut x: u64 = 12345;
    for len in 0..60 {
        let mut v = Vec::new();
        for _ in 0..len {
            x = x.wrapping_mul(6364136223846793005).wrapping_add(1442695040888963407);
            v.push(x >> 58);
        }
        let mut expected = v.clone();
        expected.sort();
        assert_eq!(sort_samples(&v), expected);
    }
}

#[test]
fn summary_order_statistics_commute_with_scaling() {
    // The harness divides the selected nanoseconds by the operation count;
    // selecting first gives what sorting the divided values would.
    let nanos: Vec<u64> = vec![1_234_567, 987_654, 1_000_001, 2_000_000, 999_999, 1_500_000, 1_100_000];
    let ops = 8_000_000u64;
    let s = summarize(&nanos);
    let mut per_op: Vec<f64> = nanos.iter().map(|&n| n as f64 / ops as f64).collect();
    per_op.sort_by(|a, b| a.partial_cmp(b).unwrap());
    assert_eq!(s.median as f64 / ops as f64, per_op[per_op.len() / 2]);
    assert_eq!(s.min as f64 / ops as f64, per_op[0]);
}

#[test]
fn summary_ignores_sample_order() {
    let a = summarize(&vec![9, 3, 7, 1, 5, 3]);
    let b = summarize(&vec![3, 3, 1, 9, 5, 7]);
    assert_eq!((a.median, a.min), (b.median, b.min));
    assert_eq!((a.median, a.min), (5, 1));
}
