use num_bigint::{BigUint, RandBigInt};
use vstd::arithmetic::power::pow;
use vstd::prelude::*;

verus! {

/// The number that a big-endian byte string denotes (the empty string is zero).
pub open spec fn be_value(s: Seq<u8>) -> nat
    decreases s.len(),
{
    if s.len() == 0 {
        0
    } else {
        be_value(s.drop_last()) * 256 + s.last() as nat
    }
}

/// A natural number of any size, held as big-endian bytes.
///
/// Leading zero bytes are allowed, so one number has many encodings; the
/// view is the number itself.
#[derive(Clone, Debug)]
pub struct BigNat {
    bytes: Vec<u8>,
}

impl View for BigNat {
    type V = nat;

    closed spec fn view(&self) -> nat {
        be_value(self.bytes@)
    }
}

/// Relies on BigUint::from_bytes_be and BigUint::to_bytes_be for the encoding,
/// and on BigUint::modpow: `(self ^ exponent) % modulus`, panicking on a zero modulus.
#[verifier::external_body]
fn biguint_modpow(base: &Vec<u8>, exponent: &Vec<u8>, modulus: &Vec<u8>) -> (r: Vec<u8>)
    requires
        be_value(modulus@) > 0,
    ensures
        be_value(r@) == pow(be_value(base@) as int, be_value(exponent@)) % (be_value(modulus@) as int),
{
    let b = BigUint::from_bytes_be(base);
    let e = BigUint::from_bytes_be(exponent);
    let m = BigUint::from_bytes_be(modulus);
    b.modpow(&e, &m).to_bytes_be()
}

/// Relies on the multiplication of two BigUint values (`&BigUint * &BigUint`).
#[verifier::external_body]
fn biguint_mul(a: &Vec<u8>, b: &Vec<u8>) -> (r: Vec<u8>)
    ensures
        be_value(r@) == be_value(a@) * be_value(b@),
{
    let a = BigUint::from_bytes_be(a);
    let b = BigUint::from_bytes_be(b);
    (&a * &b).to_bytes_be()
}

/// Relies on the subtraction of two BigUint values, which panics when the result
/// would be negative.
#[verifier::external_body]
fn biguint_sub(a: &Vec<u8>, b: &Vec<u8>) -> (r: Vec<u8>)
    requires
        be_value(a@) >= be_value(b@),
    ensures
        be_value(r@) == be_value(a@) - be_value(b@),
{
    let a = BigUint::from_bytes_be(a);
    let b = BigUint::from_bytes_be(b);
    (a - b).to_bytes_be()
}

/// Relies on `Ord::cmp` of BigUint, which orders the numbers by value.
#[verifier::external_body]
fn biguint_cmp(a: &Vec<u8>, b: &Vec<u8>) -> (r: std::cmp::Ordering)
    ensures
        (r == std::cmp::Ordering::Less) <==> be_value(a@) < be_value(b@),
        (r == std::cmp::Ordering::Equal) <==> be_value(a@) == be_value(b@),
        (r == std::cmp::Ordering::Greater) <==> be_value(a@) > be_value(b@),
{
    BigUint::from_bytes_be(a).cmp(&BigUint::from_bytes_be(b))
}

/// Relies on num_bigint's `RandBigInt::gen_biguint_below` over rand's `thread_rng`:
/// a value below the bound, panicking on a zero bound.
#[verifier::external_body]
fn biguint_random_below(bound: &Vec<u8>) -> (r: Vec<u8>)
    requires
        be_value(bound@) > 0,
    ensures
        be_value(r@) < be_value(bound@),
{
    let mut rng = rand::thread_rng();
    rng.gen_biguint_below(&BigUint::from_bytes_be(bound)).to_bytes_be()
}

impl BigNat {
    /// A value drawn uniformly below `bound` from a cryptographically secure source.
    pub fn random_below(bound: &BigNat) -> (r: BigNat)
        requires
            bound@ > 0,
        ensures
            r@ < bound@,
    {
        BigNat { bytes: biguint_random_below(&bound.bytes) }
    }

    /// The number that `bytes` denotes in big-endian order; no fixed width is assumed.
    pub fn from_bytes_be(bytes: &[u8]) -> (r: BigNat)
        ensures
            r@ == be_value(bytes@),
    {
        let mut v: Vec<u8> = Vec::new();
        let mut i: usize = 0;
        while i < bytes.len()
            invariant
                i <= bytes@.len(),
                v@ == bytes@.subrange(0, i as int),
            decreases bytes@.len() - i,
        {
            v.push(bytes[i]);
            i = i + 1;
        }
        assert(v@ == bytes@);
        BigNat { bytes: v }
    }

    /// A big-endian encoding of the number.
    pub fn to_bytes_be(&self) -> (r: Vec<u8>)
        ensures
            be_value(r@) == self@,
    {
        let mut v: Vec<u8> = Vec::new();
        let mut i: usize = 0;
        while i < self.bytes.len()
            invariant
                i <= self.bytes@.len(),
                v@ == self.bytes@.subrange(0, i as int),
            decreases self.bytes@.len() - i,
        {
            v.push(self.bytes[i]);
            i = i + 1;
        }
        assert(v@ == self.bytes@);
        v
    }

    /// The number `v`.
    pub fn from_u32(v: u32) -> (r: BigNat)
        ensures
            r@ == v as nat,
    {
        let b0: u8 = (v / 16777216) as u8;
        let b1: u8 = ((v / 65536) % 256) as u8;
        let b2: u8 = ((v / 256) % 256) as u8;
        let b3: u8 = (v % 256) as u8;
        let bytes: Vec<u8> = vec![b0, b1, b2, b3];
        proof {
            let s1 = seq![b0];
            let s2 = seq![b0, b1];
            let s3 = seq![b0, b1, b2];
            assert(s1.drop_last() =~= Seq::<u8>::empty());
            assert(s2.drop_last() =~= s1);
            assert(s3.drop_last() =~= s2);
            assert(bytes@.drop_last() =~= s3);
            assert(be_value(Seq::<u8>::empty()) == 0);
            assert(s1.last() == b0 && s2.last() == b1 && s3.last() == b2 && bytes@.last() == b3);
            assert(be_value(s1) == b0 as nat);
            assert(be_value(s2) == b0 as nat * 256 + b1 as nat);
            assert(be_value(s3) == (b0 as nat * 256 + b1 as nat) * 256 + b2 as nat);
            assert(((b0 as nat * 256 + b1 as nat) * 256 + b2 as nat) * 256 + b3 as nat == v as nat)
                by (nonlinear_arith)
                requires
                    b0 == v / 16777216,
                    b1 == (v / 65536) % 256,
                    b2 == (v / 256) % 256,
                    b3 == v % 256,
            ;
        }
        BigNat { bytes }
    }

    /// `(self ^ exponent) % modulus`.
    pub fn modpow(&self, exponent: &BigNat, modulus: &BigNat) -> (r: BigNat)
        requires
            modulus@ > 0,
        ensures
            r@ == pow(self@ as int, exponent@) % (modulus@ as int),
    {
        BigNat { bytes: biguint_modpow(&self.bytes, &exponent.bytes, &modulus.bytes) }
    }

    /// The product of the two numbers.
    pub fn mul(&self, other: &BigNat) -> (r: BigNat)
        ensures
            r@ == self@ * other@,
    {
        BigNat { bytes: biguint_mul(&self.bytes, &other.bytes) }
    }

    /// The difference `self - other`, which must not be negative.
    pub fn sub(&self, other: &BigNat) -> (r: BigNat)
        requires
            self@ >= other@,
        ensures
            r@ == self@ - other@,
    {
        BigNat { bytes: biguint_sub(&self.bytes, &other.bytes) }
    }

    /// Whether the two numbers are equal (whatever their encodings).
    pub fn equals(&self, other: &BigNat) -> (r: bool)
        ensures
            r == (self@ == other@),
    {
        match biguint_cmp(&self.bytes, &other.bytes) {
            std::cmp::Ordering::Equal => true,
            _ => false,
        }
    }

    /// Whether `self >= other`.
    pub fn ge(&self, other: &BigNat) -> (r: bool)
        ensures
            r == (self@ >= other@),
    {
        match biguint_cmp(&self.bytes, &other.bytes) {
            std::cmp::Ordering::Less => false,
            _ => true,
        }
    }

    /// The same number, in a value of its own.
    pub fn duplicate(&self) -> (r: BigNat)
        ensures
            r@ == self@,
    {
        BigNat { bytes: self.to_bytes_be() }
    }
}

} // verus!
