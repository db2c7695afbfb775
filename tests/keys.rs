use orchard::keys::{FullViewingKey, Scope, SpendingKey};
use orchard_postfiat::{
    orchard_derive_ivk_from_fvk, orchard_generate_random_spending_key,
    orchard_test_generate_spending_key, spending_key_from_seed, OrchardError, WalletError,
};

#[test]
fn test_spending_key_is_seeded() {
    let k1 = orchard_test_generate_spending_key(42);
    let k2 = orchard_test_generate_spending_key(43);
    assert_ne!(k1, k2);
    let mut expected = vec![0u8; 32];
    expected[0] = 42;
    assert_eq!(k1, expected);
}

#[test]
fn random_spending_key_is_usable() {
    let k = orchard_generate_random_spending_key();
    assert_eq!(k.len(), 32);
    let arr: [u8; 32] = k.as_slice().try_into().unwrap();
    assert!(bool::from(SpendingKey::from_bytes(arr).is_some()));
}

#[test]
fn ivk_derivation_matches_orchard() {
    let sk = SpendingKey::from_bytes([7u8; 32]).unwrap();
    let fvk = FullViewingKey::from(&sk);
    let ivk = orchard_derive_ivk_from_fvk(&fvk.to_bytes()).unwrap();
    assert_eq!(ivk, fvk.to_ivk(Scope::External).to_bytes().to_vec());
}

#[test]
fn ivk_derivation_rejects_bad_input() {
    assert_eq!(orchard_derive_ivk_from_fvk(&[0u8; 95]), Err(WalletError::Validation));
    assert_eq!(orchard_derive_ivk_from_fvk(&[0xffu8; 96]), Err(WalletError::Validation));
}

#[test]
fn error_carries_message() {
    let e = OrchardError { message: "Note not found".to_string() };
    assert_eq!(e.message, "Note not found");
}

#[test]
fn seeded_spending_key_keeps_usable_seed() {
    assert_eq!(spending_key_from_seed(&[7u8; 32]), vec![7u8; 32]);
    let mut bad = None;
    for b in 0u8..=255 {
        let mut seed = [0u8; 32];
        seed[0] = b;
        if bool::from(SpendingKey::from_bytes(seed).is_none()) {
            bad = Some(seed);
            break;
        }
    }
    if let Some(seed) = bad {
        assert_eq!(spending_key_from_seed(&seed), Vec::<u8>::new());
    }
}
