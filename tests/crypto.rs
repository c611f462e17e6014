use sentinel::crypto::verify_signature;
use sentinel::{PublicKey, Signature};
use sodiumoxide::crypto::sign;

#[test]
fn valid_signature_hands_back_the_claim() {
    let (pk, sk) = sign::gen_keypair();
    let claim = b"claim".to_vec();
    let sig = Signature(sign::sign_detached(&claim, &sk).to_bytes());
    assert_eq!(verify_signature(&sig, &PublicKey(pk.0), &claim), Some(claim));
}

#[test]
fn signature_over_other_bytes_is_refused() {
    let (pk, sk) = sign::gen_keypair();
    let sig = Signature(sign::sign_detached(b"one", &sk).to_bytes());
    assert_eq!(verify_signature(&sig, &PublicKey(pk.0), &b"two".to_vec()), None);
}

#[test]
fn signature_under_another_key_is_refused() {
    let (_, sk) = sign::gen_keypair();
    let (other, _) = sign::gen_keypair();
    let claim = b"claim".to_vec();
    let sig = Signature(sign::sign_detached(&claim, &sk).to_bytes());
    assert_eq!(verify_signature(&sig, &PublicKey(other.0), &claim), None);
}

#[test]
fn malformed_signature_is_refused() {
    let (pk, _) = sign::gen_keypair();
    assert_eq!(verify_signature(&Signature([0xffu8; 64]), &PublicKey(pk.0), &b"x".to_vec()), None);
}

#[test]
fn keys_order_byte_by_byte() {
    let mut a = [0u8; 32];
    let mut b = [0u8; 32];
    a[1] = 1;
    b[0] = 1;
    assert!(PublicKey(a) < PublicKey(b));
    assert_eq!(PublicKey(a), PublicKey(a));
}
