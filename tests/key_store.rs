use rand::random;
use sentinel::key_store::KeyStore;
use sentinel::{Name, PublicKey, PUBLICKEYBYTES};

const QUORUM: usize = 6;

fn random_key() -> PublicKey {
    let mut arr = [0u8; PUBLICKEYBYTES];
    for i in 0..PUBLICKEYBYTES {
        arr[i] = random::<u8>();
    }
    PublicKey(arr)
}

fn random_name() -> Name {
    random::<u8>() as Name
}

fn add_noise(ks: &mut KeyStore, target: Name, quantity: usize) {
    for _ in 0..quantity {
        ks.add_key(target, random_name(), random_key());
    }
}

#[test]
fn quorum_reached() {
    let target: Name = 0;
    let mut ks = KeyStore::new(QUORUM);
    let valid_key = random_key();

    add_noise(&mut ks, target, 1000);

    for i in 1..QUORUM + 1 {
        ks.add_key(target, i as Name, valid_key);

        if i < QUORUM {
            assert!(ks.get_accumulated_keys(&target, None).is_empty());
        } else {
            assert!(!ks.get_accumulated_keys(&target, None).is_empty());
        }
    }
}

#[test]
fn no_self_sign() {
    let target: Name = 0;
    let mut ks = KeyStore::new(QUORUM);
    let valid_key = random_key();

    add_noise(&mut ks, target, 1000);

    // Node zero sends signature for zero, that shouldn't be valid.
    for i in 0..QUORUM {
        ks.add_key(target, i as Name, valid_key);
        assert!(ks.get_accumulated_keys(&target, None).is_empty());
    }
}

#[test]
fn successful_attack() {
    let target: Name = 0;
    let mut ks = KeyStore::new(QUORUM);
    let valid_key1 = random_key();
    let valid_key2 = random_key();

    add_noise(&mut ks, target, 1000);

    for i in 1..QUORUM + 1 {
        ks.add_key(target, i as Name, valid_key1);

        if i < QUORUM {
            assert!(ks.get_accumulated_keys(&target, None).len() == 0);
        } else {
            assert!(ks.get_accumulated_keys(&target, None).len() == 1);
        }
    }

    for i in 1..QUORUM + 1 {
        ks.add_key(target, i as Name, valid_key2);

        if i < QUORUM {
            assert!(ks.get_accumulated_keys(&target, None).len() == 1);
        } else {
            assert!(ks.get_accumulated_keys(&target, None).len() == 2);
        }
    }
}

#[test]
fn self_attestation_six_times_is_ignored() {
    let mut ks = KeyStore::new(6);
    let key = PublicKey([7u8; PUBLICKEYBYTES]);
    for _ in 0..6 {
        ks.add_key(0, 0, key);
    }
    assert!(ks.get_accumulated_keys(&0, Some(6)).is_empty());
    assert_eq!(ks.len(), 0);
}

#[test]
fn repeated_attestation_counts_once() {
    let mut ks = KeyStore::new(2);
    let key = PublicKey([3u8; PUBLICKEYBYTES]);
    ks.add_key(1, 2, key);
    ks.add_key(1, 2, key);
    assert!(ks.get_accumulated_keys(&1, None).is_empty());
    ks.add_key(1, 3, key);
    assert_eq!(ks.get_accumulated_keys(&1, None).len(), 1);
    assert_eq!(ks.len(), 1);
}

#[test]
fn accumulated_keys_come_in_byte_order() {
    let mut ks = KeyStore::new(1);
    let mut high = [0u8; PUBLICKEYBYTES];
    high[0] = 9;
    let mut low = [0u8; PUBLICKEYBYTES];
    low[0] = 1;
    let mut mid = [0u8; PUBLICKEYBYTES];
    mid[0] = 1;
    mid[31] = 5;
    ks.add_key(4, 5, PublicKey(high));
    ks.add_key(4, 5, PublicKey(low));
    ks.add_key(4, 5, PublicKey(mid));
    let keys: Vec<[u8; PUBLICKEYBYTES]> = ks.get_accumulated_keys(&4, None).iter().map(|k| k.0).collect();
    assert_eq!(keys, vec![low, mid, high]);
}

#[test]
fn explicit_quorum_overrides_default() {
    let mut ks = KeyStore::new(3);
    let key = PublicKey([1u8; PUBLICKEYBYTES]);
    ks.add_key(10, 11, key);
    assert!(ks.get_accumulated_keys(&10, None).is_empty());
    assert_eq!(ks.get_accumulated_keys(&10, Some(1)).len(), 1);
    assert!(ks.get_accumulated_keys(&99, Some(0)).is_empty());
}

#[test]
fn least_recently_used_target_is_evicted_when_full() {
    let mut ks = KeyStore::new(1);
    let key = PublicKey([2u8; PUBLICKEYBYTES]);
    for t in 0..1000u64 {
        ks.add_key(t, 5000, key);
    }
    assert_eq!(ks.len(), 1000);
    // Looking up target 0 makes target 1 the least recently used.
    assert_eq!(ks.get_accumulated_keys(&0, None).len(), 1);
    // A held target evicts nothing.
    ks.add_key(500, 5001, key);
    assert_eq!(ks.len(), 1000);
    ks.add_key(1000, 5000, key);
    assert_eq!(ks.len(), 1000);
    assert!(ks.get_accumulated_keys(&1, None).is_empty());
    assert_eq!(ks.get_accumulated_keys(&0, None).len(), 1);
    assert_eq!(ks.get_accumulated_keys(&1000, None).len(), 1);
}
