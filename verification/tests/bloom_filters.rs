use rust_algorithm_club::collections::BloomFilter;

/// m = -1 * (n * ln ε) / (ln 2)^2, the optimal bit count.
fn optimal_bits_count(capacity: usize, err_rate: f64) -> usize {
    let ln_2_2 = std::f64::consts::LN_2.powf(2f64);
    (-1f64 * capacity as f64 * err_rate.ln() / ln_2_2).ceil() as usize
}

/// k = -log2 ε, the optimal probe count.
fn optimal_hashers_count(err_rate: f64) -> usize {
    (-1f64 * err_rate.log2()).ceil() as usize
}

fn filter_for<T: ?Sized>(capacity: usize, err_rate: f64) -> BloomFilter<T> {
    BloomFilter::new(
        optimal_bits_count(capacity, err_rate),
        optimal_hashers_count(err_rate),
    )
}

#[test]
fn inserted_numbers_reported_present() {
    let mut bf = filter_for(100, 0.01);
    for i in 0..20 {
        bf.insert(&i);
    }
    for i in 0..20 {
        assert!(bf.contains(&i));
    }
}

#[test]
fn absent_then_present() {
    let mut bf = filter_for(100, 0.1);
    assert!(!bf.contains("1"));
    bf.insert("1");
    assert!(bf.contains("1"));
}

#[test]
fn err_rate_100() {
    let bf: BloomFilter<str> = filter_for(100, 1.0);
    // With a certain false positive rate the optimal filter holds no bits and
    // probes nothing: every lookup reports presence.
    assert!(bf.contains("1"));
    assert!(bf.contains("2"));
    assert!(bf.contains("3"));
}

#[test]
fn get_one_slots_bf() {
    let mut bf: BloomFilter<str> = filter_for(1, 0.8);
    assert!(!bf.contains("1"));
    bf.insert("1");
    // The optimal formulas give a single slot here, so it is occupied now.
    assert!(bf.contains("2"));
    assert!(bf.contains("3"));
}

#[test]
fn is_a_generics_container() {
    let mut bf = filter_for(100, 0.1);
    bf.insert("1");
    assert!(bf.contains("1"));
    let mut bf = filter_for(100, 0.1);
    bf.insert(&1);
    assert!(bf.contains(&1));
    let mut bf = filter_for(100, 0.1);
    bf.insert(&'1');
    assert!(bf.contains(&'1'));

    #[derive(Hash)]
    struct S;
    let mut bf = filter_for(100, 0.1);
    let s = S;
    assert!(!bf.contains(&s));
    bf.insert(&s);
    assert!(bf.contains(&s));
}
