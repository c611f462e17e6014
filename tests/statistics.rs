use rand::seq::SliceRandom;
use rand::{thread_rng, Rng};
use sentinel::statistics::{Frequency, FrequencyKeyValue};

fn key_bytes(x: u32) -> Vec<u8> {
    x.to_be_bytes().to_vec()
}

fn key_of(bytes: &[u8]) -> u32 {
    u32::from_be_bytes([bytes[0], bytes[1], bytes[2], bytes[3]])
}

#[test]
fn fill_monotonic_distribution() {
    let mut rng = thread_rng();

    // ensure a monotonic decreasing function
    let domain_low = 0u32;
    let domain_high = 500u32;
    assert!(domain_low < domain_high);
    let mut all_counts: Vec<u32> = Vec::with_capacity(3000); // simple approx upperbound
    for _ in 0..100 {
        let x: u32 = rng.gen_range(domain_low..domain_high);
        if all_counts.contains(&x) {
            continue;
        } // avoid double counting
        let fx: f64 = x.clone() as f64;
        // use monotonic descending range of gaussian
        let y: f64 = 30f64 * (-(fx.powi(2i32) / 100000f64)).exp();
        let count: usize = y.trunc() as usize + 1;
        // duplicate the keys for
        for _ in 0usize..count {
            all_counts.push(x.clone());
        }
    }

    // shuffle duplicated keys
    all_counts.shuffle(&mut rng);
    let mut freq = Frequency::new();
    for occurance in all_counts {
        // and register each key multiple times in random order
        freq.update(&key_bytes(occurance));
    }
    // sort the counts
    let ordered_counts = freq.sort_by_highest();
    let mut max_count = 31usize;
    for value in ordered_counts {
        let fx: f64 = key_of(&value.0) as f64;
        let y: f64 = 30f64 * (-(fx.powi(2i32) / 100000f64)).exp();
        let count: usize = y.trunc() as usize + 1;
        // because we started with random keys whos occurance monotonically decreased
        // for increasing key, the keys should now increase, as the count decreases.
        assert_eq!(value.1, count);
        assert!(value.1 <= max_count);
        max_count = value.1.clone();
    }
}

#[test]
fn frequency_counts_equal_values() {
    let mut freq = Frequency::new();
    freq.update(&b"a".to_vec());
    freq.update(&b"b".to_vec());
    freq.update(&b"a".to_vec());
    assert_eq!(freq.sort_by_highest(), vec![(b"a".to_vec(), 2), (b"b".to_vec(), 1)]);
}

#[test]
fn frequency_ties_keep_first_counted_order() {
    let mut freq = Frequency::new();
    for v in [b"x", b"y", b"z", b"y", b"x", b"w"] {
        freq.update(&v.to_vec());
    }
    assert_eq!(
        freq.sort_by_highest(),
        vec![(b"x".to_vec(), 2), (b"y".to_vec(), 2), (b"z".to_vec(), 1), (b"w".to_vec(), 1)]
    );
}

#[test]
fn frequency_empty_sorts_to_nothing() {
    let mut freq = Frequency::new();
    assert!(freq.sort_by_highest().is_empty());
}

#[test]
fn frequency_key_value_sorts_keys_by_highest_value_count() {
    let mut f = FrequencyKeyValue::new();
    f.update(&b"k1".to_vec(), &b"v".to_vec());
    f.update(&b"k2".to_vec(), &b"v".to_vec());
    f.update(&b"k2".to_vec(), &b"w".to_vec());
    f.update(&b"k2".to_vec(), &b"w".to_vec());
    f.update(&b"k1".to_vec(), &b"u".to_vec());
    f.update(&b"k3".to_vec(), &b"v".to_vec());
    assert_eq!(f.sort_by_highest(), vec![(b"k2".to_vec(), 2), (b"k1".to_vec(), 1), (b"k3".to_vec(), 1)]);
}
