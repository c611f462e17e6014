use rand::random;
use sentinel::pure_sentinel::{AddResult, PureSentinel};
use sentinel::{Name, PublicKey, Request, SerialisedClaim, Signature, Source};
use sodiumoxide::crypto;

const QUORUM: usize = 10;

fn generate_random_name() -> Name {
    random::<Name>()
}

struct TestClaim {
    value: usize,
}

impl TestClaim {
    pub fn serialise(&self) -> SerialisedClaim {
        self.value.to_string().into_bytes()
    }
}

fn signature_of(claim: &SerialisedClaim, secret: &crypto::sign::SecretKey) -> Signature {
    Signature(crypto::sign::sign_detached(claim, secret).to_bytes())
}

fn key_of(public: &crypto::sign::PublicKey) -> PublicKey {
    PublicKey(public.0)
}

#[test]
fn one_request_and_one_key() {
    let quorum_size = 1usize;
    let mut name_key_pairs = Vec::new();
    let mut pure_sentinel = PureSentinel::new();
    let name = generate_random_name();
    let request = Request::new(random::<u64>(), name.clone());
    let claim = TestClaim { value: random::<usize>() };
    let serialised_claim = claim.serialise();
    let key_pair = crypto::sign::gen_keypair();
    let signature = signature_of(&serialised_claim, &key_pair.1);
    let climant_name = generate_random_name();
    name_key_pairs.push((climant_name.clone(), key_of(&key_pair.0)));

    // first claim added should return AddResult::RequestKeys
    assert!(pure_sentinel
        .add_claim(request.clone(), climant_name.clone(), signature.clone(), serialised_claim.clone(), quorum_size)
        .and_then(|result| match result {
            AddResult::RequestKeys(source_name) => {
                assert_eq!(request.get_source(), source_name);
                Some(source_name)
            },
            AddResult::Resolved(_, _) => None,
        })
        .is_some());

    // One key is required should pass
    assert!(pure_sentinel
        .add_keys(request.clone(), generate_random_name(), name_key_pairs.clone(), quorum_size)
        .and_then(|result| {
            assert_eq!(result.1, serialised_claim);
            assert_eq!(result.0, request);
            Some(result)
        })
        .is_some());
}

#[test]
fn request_and_its_duplicate_added() {
    let mut pure_sentinel = PureSentinel::new();
    let name = generate_random_name();
    let request = Request::new(random::<u64>(), name.clone());
    let claim = TestClaim { value: random::<usize>() };
    let serialised_claim = claim.serialise();
    let key_pair = crypto::sign::gen_keypair();
    let signature = signature_of(&serialised_claim, &key_pair.1);
    let climant_name = generate_random_name();

    // first claim added should return AddResult::RequestKeys
    assert!(pure_sentinel
        .add_claim(request.clone(), climant_name.clone(), signature.clone(), serialised_claim.clone(), QUORUM)
        .and_then(|result| match result {
            AddResult::RequestKeys(source_name) => {
                assert_eq!(request.get_source(), source_name);
                Some(source_name)
            },
            AddResult::Resolved(_, _) => None,
        })
        .is_some());

    // same claim added for the second time none to be returned
    assert!(pure_sentinel.add_claim(request, climant_name, signature, serialised_claim, QUORUM).is_none())
}

#[test]
fn threshold_claims_requests_added_with_no_keys() {
    let mut name_key_pairs = Vec::new();
    let mut pure_sentinel = PureSentinel::new();
    let name = generate_random_name();
    let request = Request::new(random::<u64>(), name.clone());
    let claim = TestClaim { value: random::<usize>() };
    let serialised_claim = claim.serialise();
    for index in 0..QUORUM {
        let key_pair = crypto::sign::gen_keypair();
        let signature = signature_of(&serialised_claim, &key_pair.1);
        let climant_name = generate_random_name();
        name_key_pairs.push((climant_name.clone(), key_of(&key_pair.0)));
        assert!(pure_sentinel
            .add_claim(request.clone(), climant_name, signature.clone(), serialised_claim.clone(), QUORUM)
            .map_or(true, |result| match result {
                AddResult::RequestKeys(source_name) => {
                    assert_eq!(request.get_source(), source_name);
                    assert_eq!(index, 0usize);
                    true
                },
                AddResult::Resolved(_, _) => false,
            }));
    }
}

#[test]
fn requests_added_with_various_key_size() {
    let mut name_key_pairs = Vec::new();
    let mut pure_sentinel = PureSentinel::new();
    let name = generate_random_name();
    let request = Request::new(random::<u64>(), name.clone());
    let claim = TestClaim { value: random::<usize>() };
    let serialised_claim = claim.serialise();
    for index in 0..QUORUM {
        let key_pair = crypto::sign::gen_keypair();
        let signature = signature_of(&serialised_claim, &key_pair.1);
        let climant_name = generate_random_name();
        name_key_pairs.push((climant_name.clone(), key_of(&key_pair.0)));
        assert!(pure_sentinel
            .add_claim(request.clone(), climant_name, signature.clone(), serialised_claim.clone(), QUORUM)
            .map_or(true, |result| match result {
                AddResult::RequestKeys(source_name) => {
                    assert_eq!(request.get_source(), source_name);
                    assert_eq!(index, 0usize);
                    true
                },
                AddResult::Resolved(_, _) => false,
            }));
    }

    // less than KEY_THRESHOLDS kyes received, should return None as the vector has the senders
    for index in 0..QUORUM {
        assert!(pure_sentinel
            .add_keys(request.clone(), name_key_pairs[index].0.clone(), name_key_pairs.clone(), QUORUM)
            .is_none());
    }

    // KEY_THRESHOLDS kyes received, should not return none
    assert!(pure_sentinel
        .add_keys(request.clone(), generate_random_name(), name_key_pairs.clone(), QUORUM)
        .and_then(|result| {
            assert_eq!(result.1, serialised_claim);
            assert_eq!(result.0, request);
            Some(result)
        })
        .is_some());

    // more than KEY_THRESHOLDS kyes received, should return None
    assert!(pure_sentinel.add_keys(request, generate_random_name(), name_key_pairs, QUORUM).is_none());
}

fn is_request_keys(r: &Option<AddResult>, source: Name) -> bool {
    matches!(r, Some(AddResult::RequestKeys(n)) if *n == source)
}

#[test]
fn happy_path_with_thresholds_of_one() {
    let mut s = PureSentinel::new();
    let request = Request::new(1, 77);
    let body = b"7".to_vec();
    let (pk, sk) = crypto::sign::gen_keypair();
    let r = s.add_claim(request, 5, signature_of(&body, &sk), body.clone(), 1);
    assert!(is_request_keys(&r, 77));
    let resolved = s.add_keys(request, 6, vec![(5, key_of(&pk))], 1).unwrap();
    assert_eq!(resolved, (request, b"7".to_vec()));
}

#[test]
fn keys_for_unknown_request_are_dropped() {
    let mut s = PureSentinel::new();
    let request = Request::new(2, 3);
    let (pk, sk) = crypto::sign::gen_keypair();
    assert!(s.add_keys(request, 9, vec![(5, key_of(&pk))], 10).is_none());
    // The key was not stored: a later claim signed with it still waits for keys.
    let body = b"x".to_vec();
    let r = s.add_claim(request, 5, signature_of(&body, &sk), body, 1);
    assert!(is_request_keys(&r, 3));
}

#[test]
fn ten_claims_resolve_after_ten_key_bundles() {
    let mut s = PureSentinel::new();
    let request = Request::new(4, 40);
    let body = b"x".to_vec();
    let mut pairs = Vec::new();
    for i in 0..10u64 {
        let (pk, sk) = crypto::sign::gen_keypair();
        pairs.push((100 + i, key_of(&pk)));
        let r = s.add_claim(request, 100 + i, signature_of(&body, &sk), body.clone(), 10);
        if i == 0 {
            assert!(is_request_keys(&r, 40));
        } else {
            assert!(r.is_none());
        }
    }
    for sender in 0..9u64 {
        assert!(s.add_keys(request, 1000 + sender, pairs.clone(), 10).is_none());
    }
    let resolved = s.add_keys(request, 1009, pairs.clone(), 10).unwrap();
    assert_eq!(resolved, (request, b"x".to_vec()));
    // Resolved requests are gone: more keys resolve nothing.
    assert!(s.add_keys(request, 2000, pairs, 10).is_none());
}

#[test]
fn bad_signature_is_not_counted() {
    let mut s = PureSentinel::new();
    let request = Request::new(5, 50);
    let (pk, sk) = crypto::sign::gen_keypair();
    // Signed over another body.
    let sig = signature_of(&b"other".to_vec(), &sk);
    assert!(is_request_keys(&s.add_claim(request, 1, sig, b"body".to_vec(), 1), 50));
    assert!(s.add_keys(request, 2, vec![(1, key_of(&pk))], 1).is_none());
    // A correctly signed claim then resolves it.
    let good = signature_of(&b"body".to_vec(), &sk);
    let r = s.add_claim(request, 1, good, b"body".to_vec(), 1);
    assert!(matches!(r, Some(AddResult::Resolved(q, b)) if q == request && b == b"body".to_vec()));
}

#[test]
fn resolves_to_the_most_frequent_body() {
    let mut s = PureSentinel::new();
    let request = Request::new(6, 60);
    let mut pairs = Vec::new();
    let mut keys = Vec::new();
    for i in 0..3u64 {
        let (pk, sk) = crypto::sign::gen_keypair();
        pairs.push((10 + i, key_of(&pk)));
        keys.push(sk);
    }
    let bodies = [b"a".to_vec(), b"b".to_vec(), b"b".to_vec()];
    for i in 0..3usize {
        let r = s.add_claim(request, 10 + i as u64, signature_of(&bodies[i], &keys[i]), bodies[i].clone(), 2);
        assert!(!matches!(r, Some(AddResult::Resolved(_, _))));
    }
    // One attester per key is below the key quorum of two.
    let resolved = s.add_keys(request, 99, pairs.clone(), 2);
    assert!(resolved.is_none());
    let resolved = s.add_keys(request, 98, pairs, 2).unwrap();
    assert_eq!(resolved.1, b"b".to_vec());
}

#[test]
fn claim_after_resolution_resolves_with_known_keys() {
    let mut s = PureSentinel::new();
    let request = Request::new(7, 70);
    let body = b"z".to_vec();
    let (pk, sk) = crypto::sign::gen_keypair();
    assert!(is_request_keys(&s.add_claim(request, 1, signature_of(&body, &sk), body.clone(), 1), 70));
    assert!(s.add_keys(request, 2, vec![(1, key_of(&pk))], 1).is_some());
    // The key is known now, so a fresh claim resolves straight away.
    let r = s.add_claim(request, 1, signature_of(&body, &sk), body.clone(), 1);
    assert!(matches!(r, Some(AddResult::Resolved(_, _))));
}

#[test]
fn memory_stays_bounded() {
    let mut s = PureSentinel::with_capacity(3);
    for i in 0..10u64 {
        let r = s.add_claim(Request::new(i, i), 1, Signature([0u8; 64]), b"q".to_vec(), 5);
        assert!(is_request_keys(&r, i));
    }
    // The oldest requests were pushed out: a claim for them is a first sighting again.
    assert!(is_request_keys(&s.add_claim(Request::new(0, 0), 1, Signature([0u8; 64]), b"q".to_vec(), 5), 0));
    assert!(s.add_claim(Request::new(9, 9), 1, Signature([0u8; 64]), b"q".to_vec(), 5).is_none());
}
