//! Canonical byte encodings of elements of the Pallas base field, the field in
//! which tree nodes and the scalar of an incoming viewing key live.

use vstd::prelude::*;

verus! {

/// The number a byte string encodes, least significant byte first.
pub open spec fn le_value(b: Seq<u8>) -> nat
    decreases b.len(),
{
    if b.len() == 0 {
        0
    } else {
        b[0] as nat + 256 * le_value(b.drop_first())
    }
}

/// The Pallas base field modulus
/// p = 0x40000000000000000000000000000000224698fc094cf91b992d30ed00000001,
/// least significant byte first.
pub open spec fn pallas_modulus_le() -> Seq<u8> {
    seq![
        0x01u8, 0x00u8, 0x00u8, 0x00u8, 0xedu8, 0x30u8, 0x2du8, 0x99u8,
        0x1bu8, 0xf9u8, 0x4cu8, 0x09u8, 0xfcu8, 0x98u8, 0x46u8, 0x22u8,
        0x00u8, 0x00u8, 0x00u8, 0x00u8, 0x00u8, 0x00u8, 0x00u8, 0x00u8,
        0x00u8, 0x00u8, 0x00u8, 0x00u8, 0x00u8, 0x00u8, 0x00u8, 0x40u8,
    ]
}

/// Whether `b` is the canonical encoding of a field element: 32 bytes whose
/// value is below the modulus.
pub open spec fn is_canonical_field(b: Seq<u8>) -> bool {
    b.len() == 32 && le_value(b) < le_value(pallas_modulus_le())
}

proof fn lemma_le_compare(a: Seq<u8>, b: Seq<u8>, k: int)
    requires
        a.len() == b.len(),
        0 <= k < a.len(),
        a[k] < b[k],
        forall|j: int| k < j < a.len() ==> a[j] == b[j],
    ensures
        le_value(a) < le_value(b),
    decreases a.len(),
{
    let x = le_value(a.drop_first());
    let y = le_value(b.drop_first());
    if k == 0 {
        assert(a.drop_first() =~= b.drop_first());
    } else {
        lemma_le_compare(a.drop_first(), b.drop_first(), k - 1);
        let a0 = a[0] as nat;
        let b0 = b[0] as nat;
        assert(a0 + 256 * x < b0 + 256 * y) by (nonlinear_arith)
            requires
                x < y,
                a0 < 256,
        ;
    }
}

proof fn lemma_le_zero(a: Seq<u8>)
    ensures
        le_value(a) == 0 <==> forall|j: int| 0 <= j < a.len() ==> a[j] == 0,
    decreases a.len(),
{
    if a.len() > 0 {
        lemma_le_zero(a.drop_first());
        if le_value(a) == 0 {
            assert forall|j: int| 0 <= j < a.len() implies a[j] == 0 by {
                if j > 0 {
                    assert(a[j] == a.drop_first()[j - 1]);
                }
            }
        }
        if forall|j: int| 0 <= j < a.len() ==> a[j] == 0 {
            assert forall|j: int| 0 <= j < a.drop_first().len() implies a.drop_first()[j] == 0 by {
                assert(a.drop_first()[j] == a[j + 1]);
            }
        }
    }
}

fn pallas_modulus_bytes() -> (r: [u8; 32])
    ensures
        r@ == pallas_modulus_le(),
{
    let r: [u8; 32] = [
        0x01, 0x00, 0x00, 0x00, 0xed, 0x30, 0x2d, 0x99, 0x1b, 0xf9, 0x4c, 0x09, 0xfc, 0x98, 0x46,
        0x22, 0x00, 0x00, 0x00, 0x00, 0x00, 0x00, 0x00, 0x00, 0x00, 0x00, 0x00, 0x00, 0x00, 0x00,
        0x00, 0x40,
    ];
    assert(r@ =~= pallas_modulus_le());
    r
}

/// Whether 32 bytes canonically encode a field element.
pub fn is_canonical_bytes(b: &[u8; 32]) -> (r: bool)
    ensures
        r == is_canonical_field(b@),
{
    let m = pallas_modulus_bytes();
    let mut i: usize = 32;
    while i > 0
        invariant
            i <= 32,
            b@.len() == 32,
            m@ == pallas_modulus_le(),
            forall|j: int| i <= j < 32 ==> b@[j] == m@[j],
        decreases i,
    {
        let k = i - 1;
        if b[k] < m[k] {
            proof {
                lemma_le_compare(b@, m@, k as int);
            }
            return true;
        }
        if b[k] > m[k] {
            proof {
                lemma_le_compare(m@, b@, k as int);
            }
            return false;
        }
        i = k;
    }
    assert(b@ =~= m@);
    false
}

/// Whether 32 bytes are all zero, that is encode the number zero.
pub fn is_zero_bytes(b: &[u8; 32]) -> (r: bool)
    ensures
        r == (le_value(b@) == 0),
{
    proof {
        lemma_le_zero(b@);
    }
    let mut i: usize = 0;
    while i < 32
        invariant
            i <= 32,
            b@.len() == 32,
            forall|j: int| 0 <= j < i ==> b@[j] == 0,
            le_value(b@) == 0 <==> forall|j: int| 0 <= j < b@.len() ==> b@[j] == 0,
        decreases 32 - i,
    {
        if b[i] != 0 {
            assert(b@[i as int] != 0);
            return false;
        }
        i = i + 1;
    }
    true
}

} // verus!
