//! Key material: validity of viewing keys, derivation of incoming viewing keys
//! and spending key generation.

use crate::field::{is_canonical_bytes, is_canonical_field, is_zero_bytes, le_value};
use orchard::keys::{FullViewingKey, Scope, SpendingKey};
use rand::rngs::OsRng;
use rand::RngCore;
use vstd::prelude::*;

verus! {

/// Whether 64 bytes are the raw encoding of an incoming viewing key: a 32-byte
/// diversifier key followed by a canonical, non-zero Pallas base field element.
/// This is what `IncomingViewingKey::from_bytes` accepts.
pub open spec fn is_ivk_encoding(bytes: Seq<u8>) -> bool {
    &&& bytes.len() == 64
    &&& is_canonical_field(bytes.subrange(32, 64))
    &&& le_value(bytes.subrange(32, 64)) != 0
}

/// Whether 32 bytes are a usable spending key.
pub uninterp spec fn is_spending_key_encoding(bytes: Seq<u8>) -> bool;

/// The external-scope incoming viewing key of the full viewing key encoded by
/// `fvk`, or `None` where the bytes encode none.
pub uninterp spec fn external_ivk_of(fvk: Seq<u8>) -> Option<Seq<u8>>;

/// Whether 64 bytes encode an incoming viewing key.
pub fn ivk_bytes_valid(bytes: &[u8; 64]) -> (r: bool)
    ensures
        r == is_ivk_encoding(bytes@),
{
    let mut scalar = [0u8; 32];
    let mut i: usize = 0;
    while i < 32
        invariant
            i <= 32,
            bytes@.len() == 64,
            scalar@.len() == 32,
            forall|k: int| 0 <= k < i ==> scalar@[k] == bytes@[k + 32],
        decreases 32 - i,
    {
        scalar[i] = bytes[i + 32];
        i = i + 1;
    }
    assert(scalar@ =~= bytes@.subrange(32, 64));
    is_canonical_bytes(&scalar) && !is_zero_bytes(&scalar)
}

/// Relies on `SpendingKey::from_bytes`: it accepts the bytes unless they derive a
/// zero spend authorizing key or an invalid incoming viewing key.
#[verifier::external_body]
fn spending_key_bytes_valid(bytes: &[u8; 32]) -> (r: bool)
    ensures
        r == is_spending_key_encoding(bytes@),
{
    bool::from(SpendingKey::from_bytes(*bytes).is_some())
}

/// Relies on `FullViewingKey::from_bytes` and `FullViewingKey::to_ivk` for the
/// external scope, serialised by `IncomingViewingKey::to_bytes`.
#[verifier::external_body]
pub(crate) fn derive_external_ivk(fvk: &[u8; 96]) -> (r: Option<[u8; 64]>)
    ensures
        r is Some <==> external_ivk_of(fvk@) is Some,
        r matches Some(k) ==> external_ivk_of(fvk@) == Some(k@),
{
    let fvk = FullViewingKey::from_bytes(fvk)?;
    Some(fvk.to_ivk(Scope::External).to_bytes())
}

/// Relies on `rand::rngs::OsRng::fill_bytes`: 32 bytes from the operating
/// system's random source.
#[verifier::external_body]
fn os_random_bytes() -> (r: [u8; 32]) {
    let mut seed = [0u8; 32];
    OsRng.fill_bytes(&mut seed);
    seed
}

/// How many random draws key generation makes before it gives up.
pub const KEY_DRAWS: u32 = 64;

/// A fresh spending key from the operating system's random source, as its 32
/// bytes. Draws until a usable key comes up; the empty vector only if none of
/// `KEY_DRAWS` draws gave one.
pub fn orchard_generate_random_spending_key() -> (r: Vec<u8>)
    ensures
        r@.len() == 0 || (r@.len() == 32 && is_spending_key_encoding(r@)),
{
    let mut n: u32 = 0;
    while n < KEY_DRAWS
        decreases KEY_DRAWS - n,
    {
        let seed = os_random_bytes();
        let key = spending_key_from_seed(&seed);
        if key.len() == 32 {
            return key;
        }
        n = n + 1;
    }
    Vec::new()
}

/// The spending key with the 32 bytes `seed`, as its bytes; the empty vector
/// where `seed` is not a usable key.
pub fn spending_key_from_seed(seed: &[u8; 32]) -> (r: Vec<u8>)
    ensures
        is_spending_key_encoding(seed@) ==> r@ == seed@,
        !is_spending_key_encoding(seed@) ==> r@.len() == 0,
{
    if spending_key_bytes_valid(seed) {
        bytes_to_vec(seed)
    } else {
        Vec::new()
    }
}

/// The test spending key for `seed_byte`: `seed_byte` followed by 31 zero bytes.
pub open spec fn test_key_seed(seed_byte: u8) -> Seq<u8> {
    seq![seed_byte].add(Seq::new(31, |i: int| 0u8))
}

/// The deterministic test spending key for `seed_byte`, as its 32 bytes; the
/// empty vector where those bytes are not a usable key.
pub fn orchard_test_generate_spending_key(seed_byte: u8) -> (r: Vec<u8>)
    ensures
        is_spending_key_encoding(test_key_seed(seed_byte)) ==> r@ == test_key_seed(seed_byte),
        !is_spending_key_encoding(test_key_seed(seed_byte)) ==> r@.len() == 0,
{
    let mut seed = [0u8; 32];
    seed[0] = seed_byte;
    assert(seed@ =~= test_key_seed(seed_byte));
    spending_key_from_seed(&seed)
}

/// The incoming viewing key (external scope) of a 96-byte full viewing key.
/// Fails with `Validation` where the input is not 96 bytes or not a full viewing
/// key.
pub fn orchard_derive_ivk_from_fvk(fvk_bytes: &[u8]) -> (r: Result<Vec<u8>, crate::error::WalletError>)
    ensures
        fvk_bytes@.len() != 96 ==> r == Err::<Vec<u8>, crate::error::WalletError>(
            crate::error::WalletError::Validation,
        ),
        fvk_bytes@.len() == 96 ==> match (r, external_ivk_of(fvk_bytes@)) {
            (Ok(v), Some(k)) => v@ == k,
            (Err(e), None) => e == crate::error::WalletError::Validation,
            _ => false,
        },
{
    if fvk_bytes.len() != 96 {
        return Err(crate::error::WalletError::Validation);
    }
    let mut fvk = [0u8; 96];
    let mut i: usize = 0;
    while i < 96
        invariant
            i <= 96,
            fvk_bytes@.len() == 96,
            fvk@.len() == 96,
            forall|k: int| 0 <= k < i ==> fvk@[k] == fvk_bytes@[k],
        decreases 96 - i,
    {
        fvk[i] = fvk_bytes[i];
        i = i + 1;
    }
    assert(fvk@ =~= fvk_bytes@);
    match derive_external_ivk(&fvk) {
        Some(k) => Ok(bytes64_to_vec(&k)),
        None => Err(crate::error::WalletError::Validation),
    }
}

/// The 32 bytes of `b` as a vector.
pub fn bytes_to_vec(b: &[u8; 32]) -> (r: Vec<u8>)
    ensures
        r@ == b@,
{
    let mut v: Vec<u8> = Vec::new();
    let mut i: usize = 0;
    while i < 32
        invariant
            i <= 32,
            b@.len() == 32,
            v@ == b@.take(i as int),
        decreases 32 - i,
    {
        v.push(b[i]);
        i = i + 1;
    }
    assert(b@.take(32) =~= b@);
    v
}

fn bytes64_to_vec(b: &[u8; 64]) -> (r: Vec<u8>)
    ensures
        r@ == b@,
{
    let mut v: Vec<u8> = Vec::new();
    let mut i: usize = 0;
    while i < 64
        invariant
            i <= 64,
            b@.len() == 64,
            v@ == b@.take(i as int),
        decreases 64 - i,
    {
        v.push(b[i]);
        i = i + 1;
    }
    assert(b@.take(64) =~= b@);
    v
}

} // verus!
