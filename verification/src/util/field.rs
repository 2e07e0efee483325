//! The prime field interface that the library computes over.

use crate::util::modular;
use crate::util::sum;
use crate::util::text;
use vstd::arithmetic::div_mod::*;
use vstd::prelude::*;

verus! {

/// The integer that `bytes` spells in base 256, least significant byte first.
pub open spec fn le_value(bytes: Seq<u8>) -> int
    decreases bytes.len(),
{
    if bytes.len() == 0 {
        0
    } else {
        bytes[0] as int + 256 * le_value(bytes.drop_first())
    }
}

/// `256` to the power `n`.
pub open spec fn pow256(n: nat) -> int
    decreases n,
{
    if n == 0 {
        1
    } else {
        256 * pow256((n - 1) as nat)
    }
}

/// The `n` bytes that spell `v` modulo `256^n`, least significant byte first.
pub open spec fn le_bytes(v: int, n: nat) -> Seq<u8>
    decreases n,
{
    if n == 0 {
        Seq::empty()
    } else {
        seq![(v % 256) as u8] + le_bytes(v / 256, (n - 1) as nat)
    }
}

/// `n` bytes spell an integer below `256^n`.
pub proof fn lemma_le_value_bounds(bytes: Seq<u8>)
    ensures
        0 <= le_value(bytes) < pow256(bytes.len()),
    decreases bytes.len(),
{
    if bytes.len() > 0 {
        lemma_le_value_bounds(bytes.drop_first());
    }
}

/// Spelling a small enough integer and reading it back gives the integer.
pub proof fn lemma_le_bytes_value(v: int, n: nat)
    requires
        0 <= v < pow256(n),
    ensures
        le_bytes(v, n).len() == n,
        le_value(le_bytes(v, n)) == v,
    decreases n,
{
    if n > 0 {
        lemma_le_bytes_value(v / 256, (n - 1) as nat);
        assert(le_bytes(v, n).drop_first() =~= le_bytes(v / 256, (n - 1) as nat));
    }
}

/// Reading bytes and spelling the result gives the bytes back.
pub proof fn lemma_le_bytes_unique(bytes: Seq<u8>, n: nat)
    requires
        bytes.len() == n,
    ensures
        le_bytes(le_value(bytes), n) == bytes,
    decreases n,
{
    if n > 0 {
        let rest = bytes.drop_first();
        lemma_le_bytes_unique(rest, (n - 1) as nat);
        let v = le_value(bytes);
        let first = bytes[0];
        assert(v == first as int + 256 * le_value(rest));
        assert(v % 256 == first && v / 256 == le_value(rest));
        assert((v % 256) as u8 == first);
        assert(le_bytes(v, n) == seq![first] + rest);
        assert(seq![first] + rest =~= bytes);
    } else {
        assert(bytes =~= Seq::empty());
    }
}

/// A prime field, seen as the integers modulo an odd number.
pub trait PrimeField: Sized + Copy {
    /// The number of elements of the field.
    spec fn modulus() -> int;

    /// The representative of the element between zero and the modulus.
    spec fn val(self) -> int;

    /// The canonical byte encoding of the element with representative `v`.
    spec fn repr(v: int) -> Seq<u8>;

    /// The modulus is odd and greater than two.
    proof fn modulus_is_odd()
        ensures
            Self::modulus() > 2,
            Self::modulus() % 2 == 1,
    ;

    /// Representatives are reduced.
    proof fn val_in_range(x: Self)
        ensures
            0 <= x.val() < Self::modulus(),
    ;

    /// The encoding spells the representative, at a fixed length of 32 bytes.
    proof fn repr_spells_value(v: int)
        requires
            0 <= v < Self::modulus(),
        ensures
            Self::repr(v).len() == 32,
            le_value(Self::repr(v)) == v,
    ;

    fn zero() -> (r: Self)
        ensures
            r.val() == 0,
    ;

    fn one() -> (r: Self)
        ensures
            r.val() == 1,
    ;

    /// The inverse of two.
    fn two_inv() -> (r: Self)
        ensures
            (2 * r.val()) % Self::modulus() == 1,
    ;

    fn from_u64(x: u64) -> (r: Self)
        ensures
            r.val() == x as int % Self::modulus(),
    ;

    fn add(self, rhs: Self) -> (r: Self)
        ensures
            r.val() == (self.val() + rhs.val()) % Self::modulus(),
    ;

    fn sub(self, rhs: Self) -> (r: Self)
        ensures
            r.val() == (self.val() - rhs.val()) % Self::modulus(),
    ;

    fn mul(self, rhs: Self) -> (r: Self)
        ensures
            r.val() == (self.val() * rhs.val()) % Self::modulus(),
    ;

    fn equals(self, rhs: Self) -> (r: bool)
        ensures
            r == (self.val() == rhs.val()),
    ;

    /// The canonical encoding, least significant byte first.
    fn to_repr(self) -> (r: [u8; 32])
        ensures
            r@ == Self::repr(self.val()),
    ;

    /// The element that `bytes` encodes canonically, if there is one.
    fn from_repr(bytes: [u8; 32]) -> (r: Option<Self>)
        ensures
            r is Some <==> le_value(bytes@) < Self::modulus(),
            r matches Some(x) ==> x.val() == le_value(bytes@),
    ;

    /// How the element is shown in messages.
    fn debug_string(self) -> (r: String)
        ensures
            r@ == text::element_text(Self::repr(self.val())),
    ;

    /// An element drawn from `rng`.
    fn random(rng: &mut rand::rngs::StdRng) -> Self
    ;
}

/// The element congruent to the integer that `bytes` spells, least significant byte first.
pub fn fe_mod_from_le_bytes<F: PrimeField>(bytes: &[u8]) -> (r: F)
    ensures
        r.val() == le_value(bytes@) % F::modulus(),
{
    proof {
        F::modulus_is_odd();
    }
    let ghost m = F::modulus();
    let base = F::from_u64(256);
    let mut acc = F::zero();
    let mut i: usize = bytes.len();
    assert(bytes@.skip(i as int) =~= Seq::empty());
    assert(0int % m == 0) by {
        modular::lemma_small(0, m);
    }
    while i > 0
        invariant
            i <= bytes.len(),
            m == F::modulus(),
            m > 2,
            base.val() == 256int % m,
            acc.val() == le_value(bytes@.skip(i as int)) % m,
        decreases i,
    {
        i = i - 1;
        let digit = F::from_u64(bytes[i] as u64);
        let ghost rest = le_value(bytes@.skip(i + 1));
        let ghost byte = bytes@[i as int] as int;
        assert(bytes@.skip(i as int).drop_first() =~= bytes@.skip(i + 1));
        let scaled = base.mul(acc);
        proof {
            modular::lemma_cong_reduced(256, m);
            modular::lemma_cong_reduced(rest, m);
            modular::lemma_cong_mul(base.val(), 256, acc.val(), rest, m);
            modular::lemma_cong_reduced(256 * rest, m);
            modular::lemma_cong_reduced(byte, m);
            modular::lemma_cong_add(digit.val(), byte, scaled.val(), 256 * rest, m);
        }
        acc = digit.add(scaled);
    }
    assert(bytes@.skip(0) =~= bytes@);
    acc
}

/// The representatives of a sequence of elements.
pub open spec fn vals<F: PrimeField>(s: Seq<F>) -> Seq<int> {
    s.map_values(|x: F| x.val())
}

/// The representatives of `s` are the remainders of the integers `v`.
pub open spec fn represents<F: PrimeField>(s: Seq<F>, v: Seq<int>) -> bool {
    &&& s.len() == v.len()
    &&& forall|i: int| 0 <= i < s.len() ==> (#[trigger] s[i]).val() == v[i] % F::modulus()
}

/// A sequence represents its own representatives.
pub proof fn lemma_represents_vals<F: PrimeField>(s: Seq<F>)
    ensures
        represents(s, vals(s)),
{
    assert forall|i: int| 0 <= i < s.len() implies (#[trigger] s[i]).val() == vals(s)[i]
        % F::modulus() by {
        F::val_in_range(s[i]);
        modular::lemma_small(s[i].val(), F::modulus());
    }
}

/// Representatives are congruent to the integers that they represent.
pub proof fn lemma_represents_cong<F: PrimeField>(s: Seq<F>, v: Seq<int>)
    requires
        represents(s, v),
    ensures
        modular::cong_seq(vals(s), v, F::modulus()),
{
    F::modulus_is_odd();
    assert forall|i: int| 0 <= i < s.len() implies modular::cong(
        #[trigger] vals(s)[i],
        v[i],
        F::modulus(),
    ) by {
        assert(s[i].val() == v[i] % F::modulus());
        modular::lemma_cong_reduced(v[i], F::modulus());
    }
}

/// Whether two sequences hold the same elements.
pub fn same_elements<F: PrimeField>(lhs: &[F], rhs: &[F]) -> (r: bool)
    ensures
        r == (vals(lhs@) == vals(rhs@)),
{
    if lhs.len() != rhs.len() {
        assert(vals(lhs@).len() != vals(rhs@).len());
        return false;
    }
    let mut i: usize = 0;
    while i < lhs.len()
        invariant
            i <= lhs.len(),
            lhs@.len() == rhs@.len(),
            forall|j: int| 0 <= j < i ==> (#[trigger] lhs@[j]).val() == rhs@[j].val(),
        decreases lhs.len() - i,
    {
        if !lhs[i].equals(rhs[i]) {
            assert(vals(lhs@)[i as int] != vals(rhs@)[i as int]);
            return false;
        }
        i = i + 1;
    }
    assert(vals(lhs@) =~= vals(rhs@));
    true
}

/// The inner product of two sequences of the same length.
pub fn inner_product<F: PrimeField>(lhs: &[F], rhs: &[F]) -> (r: F)
    requires
        lhs@.len() == rhs@.len(),
    ensures
        r.val() == sum::dot(vals(lhs@), vals(rhs@)) % F::modulus(),
{
    let ghost m = F::modulus();
    let ghost a = vals(lhs@);
    let ghost b = vals(rhs@);
    let ghost f = |i: int| a[i] * b[i];
    proof {
        F::modulus_is_odd();
        modular::lemma_small(0, m);
    }
    let mut acc = F::zero();
    let mut i: usize = 0;
    while i < lhs.len()
        invariant
            i <= lhs.len(),
            lhs@.len() == rhs@.len(),
            m == F::modulus(),
            m > 2,
            a == vals(lhs@),
            b == vals(rhs@),
            f == (|i: int| a[i] * b[i]),
            acc.val() == sum::sum_to(f, i as nat) % m,
        decreases lhs.len() - i,
    {
        let t = lhs[i].mul(rhs[i]);
        acc = acc.add(t);
        proof {
            lemma_add_mod_noop(sum::sum_to(f, i as nat), f(i as int), m);
        }
        i = i + 1;
    }
    acc
}

} // verus!
