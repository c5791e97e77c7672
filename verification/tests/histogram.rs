use comet_algorithms::{histogram, Frac};

fn fr(n: i128, d: i128) -> Frac {
    Frac::new(n, d)
}

fn fi(n: i128) -> Frac {
    Frac::new(n, 1)
}

#[test]
fn histogram_test_histogram() {
    assert_eq!(
        histogram(&vec![fi(2), fi(4), fi(4)], &vec![fi(1), fi(3), fi(5)]),
        vec![1, 2]
    );
}

#[test]
fn histogram_test_upper_edge() {
    assert_eq!(
        histogram(&vec![fi(0), fi(2), fi(4)], &vec![fi(0), fi(2), fi(4)]),
        vec![1, 2]
    );
}

#[test]
fn test_different_lengths() {
    assert_eq!(
        histogram(
            &vec![fi(1), fi(2), fi(3)],
            &vec![fi(1), fr(1666, 1000), fr(23333, 10000), fi(3)]
        ),
        vec![1, 1, 1]
    );
}

#[test]
fn test_histogram_below_first_edge() {
    // Values below the first edge are not counted.
    assert_eq!(
        histogram(&vec![fi(-5), fi(2)], &vec![fi(0), fi(3)]),
        vec![1]
    );
}

#[test]
fn test_histogram_above_last_edge() {
    // Values above the last edge are not counted either.
    assert_eq!(
        histogram(&vec![fi(1), fi(99)], &vec![fi(0), fi(3)]),
        vec![1]
    );
}

#[test]
fn test_histogram_single_edge() {
    // A single edge means zero buckets.
    assert_eq!(histogram(&vec![fi(1), fi(2)], &vec![fi(0)]), Vec::<u64>::new());
}
