use sentinel::pure_sentinel::AddResult;
use sentinel::sentinel::Sentinel;
use sentinel::{PublicKey, Request, Signature};
use sodiumoxide::crypto;

#[test]
fn sentinel_resolves_with_keys_from_the_source() {
    let mut s = Sentinel::new(2, 1);
    let request = Request::new(1, 500);
    let body = b"v".to_vec();
    let (pk1, sk1) = crypto::sign::gen_keypair();
    let (pk2, sk2) = crypto::sign::gen_keypair();
    let sig1 = Signature(crypto::sign::sign_detached(&body, &sk1).to_bytes());
    let sig2 = Signature(crypto::sign::sign_detached(&body, &sk2).to_bytes());
    assert!(matches!(s.add_claim(request, 1, sig1, body.clone()), Some(AddResult::RequestKeys(500))));
    assert!(s.add_claim(request, 2, sig2, body.clone()).is_none());
    let resolved = s.add_keys(request, vec![(1, PublicKey(pk1.0)), (2, PublicKey(pk2.0))]).unwrap();
    assert_eq!(resolved, (request, body));
}

#[test]
fn sentinel_needs_claim_threshold_claims() {
    let mut s = Sentinel::new(2, 1);
    let request = Request::new(2, 600);
    let body = b"w".to_vec();
    let (pk1, sk1) = crypto::sign::gen_keypair();
    let sig1 = Signature(crypto::sign::sign_detached(&body, &sk1).to_bytes());
    assert!(matches!(s.add_claim(request, 1, sig1, body.clone()), Some(AddResult::RequestKeys(600))));
    assert!(s.add_keys(request, vec![(1, PublicKey(pk1.0))]).is_none());
    assert!(s.add_keys(Request::new(3, 600), vec![(1, PublicKey(pk1.0))]).is_none());
}
