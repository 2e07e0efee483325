//! The scalar field of the BN254 curve.

use crate::util::field;
use crate::util::field::PrimeField;
use crate::util::text;
use vstd::prelude::*;

verus! {

/// The generator that witnesses and parameters are drawn from.
#[verifier::external_type_specification]
#[verifier::external_body]
pub struct ExStdRng(rand::rngs::StdRng);

/// The order of the BN254 scalar field.
pub open spec fn fr_modulus() -> int {
    0x30644e72e131a029b85045b68181585d2833e84879b9709143e1f593f0000001int
}

/// The integer that four 64-bit limbs spell, least significant limb first.
pub open spec fn limbs_value(l: Seq<u64>) -> int {
    l[0] + 0x1_0000_0000_0000_0000int * (l[1] + 0x1_0000_0000_0000_0000int * (l[2]
        + 0x1_0000_0000_0000_0000int * l[3]))
}

/// `halo2curves::bn256::Fr` addition: the sum of the two integers modulo the field order.
#[verifier::external_body]
fn fr_add(a: [u64; 4], b: [u64; 4]) -> (r: [u64; 4])
    requires
        limbs_value(a@) < fr_modulus(),
        limbs_value(b@) < fr_modulus(),
    ensures
        limbs_value(r@) == (limbs_value(a@) + limbs_value(b@)) % fr_modulus(),
{
    (halo2curves::bn256::Fr::from(a) + halo2curves::bn256::Fr::from(b)).into()
}

/// `halo2curves::bn256::Fr` subtraction: the difference modulo the field order.
#[verifier::external_body]
fn fr_sub(a: [u64; 4], b: [u64; 4]) -> (r: [u64; 4])
    requires
        limbs_value(a@) < fr_modulus(),
        limbs_value(b@) < fr_modulus(),
    ensures
        limbs_value(r@) == (limbs_value(a@) - limbs_value(b@)) % fr_modulus(),
{
    (halo2curves::bn256::Fr::from(a) - halo2curves::bn256::Fr::from(b)).into()
}

/// `halo2curves::bn256::Fr` multiplication: the product modulo the field order.
#[verifier::external_body]
fn fr_mul(a: [u64; 4], b: [u64; 4]) -> (r: [u64; 4])
    requires
        limbs_value(a@) < fr_modulus(),
        limbs_value(b@) < fr_modulus(),
    ensures
        limbs_value(r@) == (limbs_value(a@) * limbs_value(b@)) % fr_modulus(),
{
    (halo2curves::bn256::Fr::from(a) * halo2curves::bn256::Fr::from(b)).into()
}

/// `From<u64>` of `halo2curves::bn256::Fr`: the element that stands for a small integer.
#[verifier::external_body]
fn fr_from_u64(x: u64) -> (r: [u64; 4])
    ensures
        limbs_value(r@) == x,
{
    halo2curves::bn256::Fr::from(x).into()
}

/// `TWO_INV` of `halo2curves::bn256::Fr`: the reduced inverse of two.
#[verifier::external_body]
fn fr_two_inv() -> (r: [u64; 4])
    ensures
        limbs_value(r@) < fr_modulus(),
        (2 * limbs_value(r@)) % fr_modulus() == 1,
{
    <halo2curves::bn256::Fr as halo2curves::ff::PrimeField>::TWO_INV.into()
}

/// `to_bytes` of `halo2curves::bn256::Fr`: the reduced integer in little-endian bytes.
#[verifier::external_body]
fn fr_to_bytes(a: [u64; 4]) -> (r: [u8; 32])
    requires
        limbs_value(a@) < fr_modulus(),
    ensures
        field::le_value(r@) == limbs_value(a@),
{
    halo2curves::bn256::Fr::from(a).to_bytes()
}

/// `from_bytes` of `halo2curves::bn256::Fr`: refuses integers that are not reduced.
#[verifier::external_body]
fn fr_from_bytes(bytes: [u8; 32]) -> (r: Option<[u64; 4]>)
    ensures
        r is Some <==> field::le_value(bytes@) < fr_modulus(),
        r matches Some(l) ==> limbs_value(l@) == field::le_value(bytes@),
{
    let x: Option<halo2curves::bn256::Fr> = halo2curves::bn256::Fr::from_bytes(&bytes).into();
    x.map(|v| v.into())
}

/// `Debug` of `halo2curves::bn256::Fr`: the canonical bytes in hexadecimal, most
/// significant first, after `0x`.
#[verifier::external_body]
fn fr_debug(a: [u64; 4]) -> (r: String)
    requires
        limbs_value(a@) < fr_modulus(),
    ensures
        r@ == text::element_text(fr_repr(limbs_value(a@))),
{
    format!("{:?}", halo2curves::bn256::Fr::from(a))
}

/// `random` of `halo2curves::bn256::Fr`: a reduced element, whatever `rng` yields.
#[verifier::external_body]
fn fr_random(rng: &mut rand::rngs::StdRng) -> (r: [u64; 4])
    ensures
        limbs_value(r@) < fr_modulus(),
{
    <halo2curves::bn256::Fr as halo2curves::ff::Field>::random(rng).into()
}

/// The 32 bytes that spell `v`, least significant byte first.
pub open spec fn fr_repr(v: int) -> Seq<u8> {
    field::le_bytes(v, 32)
}

/// An element of the BN254 scalar field, held as the limbs of its representative.
#[derive(Clone, Copy, Debug, PartialEq, Eq)]
pub struct Fr {
    limbs: [u64; 4],
}

impl Fr {
    #[verifier::type_invariant]
    spec fn reduced(self) -> bool {
        limbs_value(self.limbs@) < fr_modulus()
    }
}

impl PrimeField for Fr {
    open spec fn modulus() -> int {
        fr_modulus()
    }

    closed spec fn val(self) -> int {
        limbs_value(self.limbs@) % fr_modulus()
    }

    open spec fn repr(v: int) -> Seq<u8> {
        fr_repr(v)
    }

    proof fn modulus_is_odd() {
    }

    proof fn val_in_range(x: Self) {
    }

    proof fn repr_spells_value(v: int) {
        assert(field::pow256(32) == 0x1_0000000000000000_0000000000000000_0000000000000000_0000000000000000int) by {
            reveal_with_fuel(field::pow256, 33);
        }
        field::lemma_le_bytes_value(v, 32);
    }

    fn zero() -> (r: Self) {
        Fr { limbs: [0, 0, 0, 0] }
    }

    fn one() -> (r: Self) {
        Fr { limbs: [1, 0, 0, 0] }
    }

    fn two_inv() -> (r: Self) {
        Fr { limbs: fr_two_inv() }
    }

    fn from_u64(x: u64) -> (r: Self) {
        Fr { limbs: fr_from_u64(x) }
    }

    fn add(self, rhs: Self) -> (r: Self) {
        proof {
            use_type_invariant(&self);
            use_type_invariant(&rhs);
        }
        Fr { limbs: fr_add(self.limbs, rhs.limbs) }
    }

    fn sub(self, rhs: Self) -> (r: Self) {
        proof {
            use_type_invariant(&self);
            use_type_invariant(&rhs);
        }
        Fr { limbs: fr_sub(self.limbs, rhs.limbs) }
    }

    fn mul(self, rhs: Self) -> (r: Self) {
        proof {
            use_type_invariant(&self);
            use_type_invariant(&rhs);
        }
        Fr { limbs: fr_mul(self.limbs, rhs.limbs) }
    }

    fn equals(self, rhs: Self) -> (r: bool) {
        proof {
            use_type_invariant(&self);
            use_type_invariant(&rhs);
        }
        self.limbs[0] == rhs.limbs[0] && self.limbs[1] == rhs.limbs[1] && self.limbs[2]
            == rhs.limbs[2] && self.limbs[3] == rhs.limbs[3]
    }

    fn to_repr(self) -> (r: [u8; 32]) {
        proof {
            use_type_invariant(&self);
        }
        let r = fr_to_bytes(self.limbs);
        proof {
            field::lemma_le_bytes_unique(r@, 32);
        }
        r
    }

    fn from_repr(bytes: [u8; 32]) -> (r: Option<Self>) {
        proof {
            field::lemma_le_value_bounds(bytes@);
        }
        match fr_from_bytes(bytes) {
            Some(limbs) => Some(Fr { limbs }),
            None => None,
        }
    }

    fn debug_string(self) -> (r: String) {
        proof {
            use_type_invariant(&self);
        }
        fr_debug(self.limbs)
    }

    fn random(rng: &mut rand::rngs::StdRng) -> Self {
        Fr { limbs: fr_random(rng) }
    }
}

} // verus!
