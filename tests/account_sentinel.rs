use sentinel::account_sentinel::AccountSentinel;

#[test]
fn median_of_five_claims() {
    let mut s: AccountSentinel<u64> = AccountSentinel::new();
    let claims = [4u64, 1, 5, 3, 2];
    for (i, c) in claims.iter().enumerate() {
        let r = s.add_claim(5, 42, i as u64, *c);
        if i < 4 {
            assert!(r.is_none());
        } else {
            assert_eq!(r, Some(3));
        }
    }
    // The request resolved and was dropped: it starts over.
    assert!(s.add_claim(5, 42, 0, 1).is_none());
}

#[test]
fn median_of_even_count_takes_upper_middle() {
    let mut s: AccountSentinel<u64> = AccountSentinel::new();
    assert!(s.add_claim(4, 1, 10, 40).is_none());
    assert!(s.add_claim(4, 1, 11, 10).is_none());
    assert!(s.add_claim(4, 1, 12, 30).is_none());
    assert_eq!(s.add_claim(4, 1, 13, 20), Some(30));
}

#[test]
fn a_sender_counts_once() {
    let mut s: AccountSentinel<u64> = AccountSentinel::new();
    assert!(s.add_claim(2, 7, 1, 100).is_none());
    // Replaces sender 1's earlier claim instead of adding a second one.
    assert!(s.add_claim(2, 7, 1, 200).is_none());
    assert_eq!(s.add_claim(2, 7, 2, 300), Some(300));
}
