use sentinel::key_sentinel::{Identity, KeySentinel};
use sentinel::{Name, PublicKey};
use sodiumoxide::crypto::sign;

const CLAIMS_THRESHOLD: usize = 10;
const KEYS_THRESHOLD: usize = 10;

#[test]
fn make_key_sentinel() {
    let mut sentinel: KeySentinel<u64> = KeySentinel::new(CLAIMS_THRESHOLD, KEYS_THRESHOLD);

    let mut tuples = Vec::new();
    for i in 0..KEYS_THRESHOLD + 1 {
        let key_pair = sign::gen_keypair();
        tuples.push((i as Name, key_pair.0));
    }

    let request = rand::random::<u64>();

    let name_pubs = tuples
        .iter()
        .map(|&(ref name, ref public_key)| Identity { name: name.clone(), public_key: PublicKey(public_key.0) })
        .collect::<Vec<_>>();

    for index in 0..KEYS_THRESHOLD + 1 {
        if index < KEYS_THRESHOLD {
            assert!(sentinel.add_identities(request.clone(), tuples[index].0.clone(), name_pubs.clone()).is_none());
            continue;
        }
        assert!(sentinel.add_identities(request.clone(), tuples[KEYS_THRESHOLD].0.clone(), name_pubs.clone()).is_some());
    }
}

fn identity(name: Name, byte: u8) -> Identity {
    Identity { name, public_key: PublicKey([byte; 32]) }
}

#[test]
fn identities_come_most_vouched_first() {
    let mut s: KeySentinel<u64> = KeySentinel::new(2, 2);
    let a = identity(1, 1);
    let b = identity(2, 2);
    let c = identity(3, 3);
    assert!(s.add_identities(9, 10, vec![a, b, c]).is_none());
    assert!(s.add_identities(9, 11, vec![b]).is_none());
    let (req, ids) = s.add_identities(9, 12, vec![c, b]).unwrap();
    assert_eq!(req, 9);
    let names: Vec<Name> = ids.iter().map(|i| i.name).collect();
    // b has three vouchers, c two; a has one and is left out.
    assert_eq!(names, vec![2, 3]);
    // The request resolved and starts over.
    assert!(s.add_identities(9, 13, vec![a]).is_none());
}

#[test]
fn vouching_for_oneself_or_twice_counts_nothing_more() {
    let mut s: KeySentinel<u64> = KeySentinel::new(1, 2);
    let a = identity(1, 1);
    assert!(s.add_identities(5, 1, vec![a]).is_none());
    assert!(s.add_identities(5, 2, vec![a, a]).is_none());
    assert!(s.add_identities(5, 2, vec![a]).is_none());
    let (_, ids) = s.add_identities(5, 3, vec![a]).unwrap();
    assert_eq!(ids.len(), 1);
    assert_eq!(ids[0].name, 1);
}

#[test]
fn same_name_with_another_key_is_another_identity() {
    let mut s: KeySentinel<u64> = KeySentinel::new(1, 2);
    assert!(s.add_identities(6, 7, vec![identity(1, 1)]).is_none());
    assert!(s.add_identities(6, 8, vec![identity(1, 2)]).is_none());
    let (_, ids) = s.add_identities(6, 9, vec![identity(1, 2)]).unwrap();
    assert_eq!(ids[0].public_key.0, [2u8; 32]);
}
