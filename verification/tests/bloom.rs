use bloomer::filter::{BloomError, BloomFilter};

fn keys(words: &[&str]) -> Vec<String> {
    words.iter().map(|w| w.to_string()).collect()
}

fn frac_filled(f: &BloomFilter) -> f64 {
    f.count_filled() as f64 / f.n_bits() as f64
}

#[test]
fn new_rejects_zero_capacity() {
    let r = BloomFilter::new(0, 4);
    assert_eq!(r.err(), Some(BloomError::ZeroCapacity));
}

#[test]
fn new_filter_is_empty() {
    let f = BloomFilter::new(64, 3).unwrap();
    assert_eq!(f.n_bits(), 64);
    assert_eq!(f.n_hashes(), 3);
    assert_eq!(f.n_stored(), 0);
    assert_eq!(f.count_filled(), 0);
    assert_eq!(frac_filled(&f), 0.0);
}

#[test]
fn scenario_two_fruit() {
    let mut f = BloomFilter::new(1000, 4).unwrap();
    f.add(&keys(&["apple", "banana"]));
    let out = f.check(&keys(&["apple", "cherry"]));
    assert_eq!(out.len(), 2);
    assert!(out[0]);
    assert_eq!(f.n_stored(), 2);
    assert!(frac_filled(&f) > 0.0);
    assert!(frac_filled(&f) < 1.0);
}

#[test]
fn no_false_negatives() {
    let mut f = BloomFilter::new(256, 5).unwrap();
    let added = keys(&["alpha", "beta", "gamma", "delta", "epsilon"]);
    f.add(&added);
    let out = f.check(&added);
    assert_eq!(out, vec![true; 5]);
}

#[test]
fn duplicate_adds_count_but_do_not_change_bits() {
    let mut f = BloomFilter::new(128, 3).unwrap();
    f.add(&keys(&["again"]));
    let filled_once = f.count_filled();
    f.add(&keys(&["again"]));
    assert_eq!(f.count_filled(), filled_once);
    assert_eq!(f.n_stored(), 2);
}

#[test]
fn empty_query_and_empty_add() {
    let mut f = BloomFilter::new(100, 4).unwrap();
    f.add(&keys(&["seed"]));
    let before = f.count_filled();
    let out = f.check(&keys(&[]));
    assert!(out.is_empty());
    f.add(&keys(&[]));
    assert_eq!(f.count_filled(), before);
    assert_eq!(f.n_stored(), 1);
}

#[test]
fn fill_is_monotonic_across_adds() {
    let mut f = BloomFilter::new(50, 2).unwrap();
    let mut last = frac_filled(&f);
    for word in ["one", "two", "three", "four", "five", "six"] {
        f.add(&keys(&[word]));
        let now = frac_filled(&f);
        assert!(now >= last);
        last = now;
    }
}

#[test]
fn clear_resets_bits_only() {
    let mut f = BloomFilter::new(200, 4).unwrap();
    f.add(&keys(&["kept", "count"]));
    assert!(f.count_filled() > 0);
    f.clear();
    assert_eq!(f.count_filled(), 0);
    assert_eq!(frac_filled(&f), 0.0);
    assert_eq!(f.n_stored(), 2);
    assert_eq!(f.n_bits(), 200);
    assert_eq!(f.n_hashes(), 4);
    let out = f.check(&keys(&["kept"]));
    assert_eq!(out, vec![false]);
}

#[test]
fn check_is_deterministic() {
    let mut f = BloomFilter::new(300, 3).unwrap();
    f.add(&keys(&["stable", "fixed"]));
    let probes = keys(&["stable", "fixed", "other", "more"]);
    let first = f.check(&probes);
    let second = f.check(&probes);
    assert_eq!(first, second);
}

#[test]
fn one_hash_one_key_sets_one_bit() {
    let mut f = BloomFilter::new(100, 1).unwrap();
    f.add(&keys(&["solo"]));
    assert_eq!(f.count_filled(), 1);
    assert_eq!(frac_filled(&f), 0.01);
}

#[test]
fn zero_hashes_reports_everything_present() {
    let mut f = BloomFilter::new(10, 0).unwrap();
    f.add(&keys(&["ignored"]));
    assert_eq!(f.count_filled(), 0);
    assert_eq!(f.check(&keys(&["anything"])), vec![true]);
}

#[test]
fn encoding_of_small_empty_filter_is_exact() {
    let f = BloomFilter::new(3, 2).unwrap();
    let buf = f.to_bytes();
    let mut expected = vec![1u8];
    expected.extend_from_slice(&[3, 0, 0, 0, 0, 0, 0, 0]);
    expected.extend_from_slice(&[2, 0, 0, 0, 0, 0, 0, 0]);
    expected.extend_from_slice(&[0, 0, 0, 0, 0, 0, 0, 0]);
    expected.extend_from_slice(&[0, 0, 0]);
    assert_eq!(buf, expected);
}

#[test]
fn round_trip_preserves_everything() {
    let mut f = BloomFilter::new(777, 4).unwrap();
    f.add(&keys(&["persist", "these", "keys"]));
    f.add(&keys(&["persist"]));
    let buf = f.to_bytes();
    let g = BloomFilter::from_bytes(&buf).unwrap();
    assert_eq!(g.n_bits(), f.n_bits());
    assert_eq!(g.n_hashes(), f.n_hashes());
    assert_eq!(g.n_stored(), f.n_stored());
    assert_eq!(g.count_filled(), f.count_filled());
    let probes = keys(&["persist", "these", "keys", "absent", "missing"]);
    assert_eq!(g.check(&probes), f.check(&probes));
}

#[test]
fn round_trip_after_clear() {
    let mut f = BloomFilter::new(40, 2).unwrap();
    f.add(&keys(&["gone"]));
    f.clear();
    let g = BloomFilter::from_bytes(&f.to_bytes()).unwrap();
    assert_eq!(g.count_filled(), 0);
    assert_eq!(g.n_stored(), 1);
    assert_eq!(g.n_bits(), 40);
}

#[test]
fn decode_rejects_malformed_buffers() {
    let empty: Vec<u8> = vec![];
    assert_eq!(BloomFilter::from_bytes(&empty).err(), Some(BloomError::MalformedBuffer));

    let short = vec![1u8; 10];
    assert_eq!(BloomFilter::from_bytes(&short).err(), Some(BloomError::MalformedBuffer));

    let good = BloomFilter::new(8, 2).unwrap().to_bytes();

    let mut bad_tag = good.clone();
    bad_tag[0] = 9;
    assert_eq!(BloomFilter::from_bytes(&bad_tag).err(), Some(BloomError::MalformedBuffer));

    let mut truncated = good.clone();
    truncated.pop();
    assert_eq!(BloomFilter::from_bytes(&truncated).err(), Some(BloomError::MalformedBuffer));

    let mut overlong = good.clone();
    overlong.push(0);
    assert_eq!(BloomFilter::from_bytes(&overlong).err(), Some(BloomError::MalformedBuffer));

    let mut bad_bit = good.clone();
    let last = bad_bit.len() - 1;
    bad_bit[last] = 2;
    assert_eq!(BloomFilter::from_bytes(&bad_bit).err(), Some(BloomError::MalformedBuffer));

    let mut zero_bits = good.clone();
    zero_bits.truncate(25);
    for b in &mut zero_bits[1..9] {
        *b = 0;
    }
    assert_eq!(BloomFilter::from_bytes(&zero_bits).err(), Some(BloomError::MalformedBuffer));
}

#[test]
fn hashes_spread_across_seeds() {
    let mut f = BloomFilter::new(10_000, 8).unwrap();
    f.add(&keys(&["spread"]));
    let filled = f.count_filled();
    assert!(filled > 1);
    assert!(filled <= 8);
}
