use crate::model::{
    be_value, encodes_multiple, group_order, is_point, is_scalar, multiple_encoding, point_log,
    scalar_product, scalar_sum,
};
use generic_ec::curves::Secp256k1;
use generic_ec::{Point, Scalar, SecretScalar};
use rand_core::RngCore;
use subtle::ConstantTimeEq;
use zeroize::Zeroize;
use vstd::arithmetic::div_mod::lemma_mod_bound;
use vstd::prelude::*;

verus! {

/// Relies on `generic_ec::Scalar::from_be_bytes`, which accepts at most 32
/// bytes denoting an integer below the group order.
#[verifier::external_body]
pub(crate) fn scalar_is_valid(b: &[u8]) -> (r: bool)
    ensures
        r == is_scalar(b@),
{
    Scalar::<Secp256k1>::from_be_bytes(b).is_ok()
}

/// Relies on `rand_core::RngCore::try_fill_bytes`: on success every byte
/// of the buffer is overwritten with drawn data; on a reported failure the
/// result is `false`.  The buffer keeps its length either way.
#[verifier::external_body]
pub(crate) fn fill_random<R: RngCore>(rng: &mut R, buf: &mut Vec<u8>) -> (r: bool)
    ensures
        final(buf)@.len() == old(buf)@.len(),
{
    rng.try_fill_bytes(buf.as_mut_slice()).is_ok()
}

/// Relies on `generic_ec::Scalar::from_be_bytes_mod_order`: the big-endian
/// integer of the bytes reduced modulo the group order, returned as its 32
/// big-endian bytes.  For secp256k1 up to 64 bytes are reduced in one step.
#[verifier::external_body]
pub(crate) fn scalar_reduce(b: &[u8]) -> (r: Vec<u8>)
    ensures
        r@.len() == 32,
        be_value(r@) == (be_value(b@) as int) % group_order(),
{
    let s = SecretScalar::<Secp256k1>::new(&mut Scalar::from_be_bytes_mod_order(b));
    s.as_ref().to_be_bytes().as_bytes().to_vec()
}

/// Draws a scalar: 64 bytes from the generator reduced modulo the group
/// order, so every scalar, zero included, comes out with a bias below
/// `2^-256`.  `None` when the generator reports a failure.  The drawn bytes
/// are wiped before returning.
pub(crate) fn random_scalar<R: RngCore>(rng: &mut R) -> (r: Option<Vec<u8>>)
    ensures
        r is Some ==> r->0@.len() == 32 && is_scalar(r->0@),
{
    let mut wide: Vec<u8> = vec![0u8; 64];
    let filled = fill_random(rng, &mut wide);
    let r = if filled {
        let s = scalar_reduce(wide.as_slice());
        proof {
            lemma_mod_bound(be_value(wide@) as int, group_order());
        }
        Some(s)
    } else {
        None
    };
    wipe(&mut wide);
    r
}

/// Relies on `Scalar + Scalar` of `generic_ec`: addition modulo the group
/// order, returned as 32 big-endian bytes.  The operands are decoded as
/// `SecretScalar`, which clears them when dropped.
#[verifier::external_body]
pub(crate) fn scalar_add(a: &[u8], b: &[u8]) -> (r: Vec<u8>)
    requires
        is_scalar(a@),
        is_scalar(b@),
    ensures
        r@.len() == 32,
        be_value(r@) == scalar_sum(be_value(a@) as int, be_value(b@) as int),
{
    let a = SecretScalar::<Secp256k1>::from_be_bytes(a).unwrap();
    let b = SecretScalar::<Secp256k1>::from_be_bytes(b).unwrap();
    (a.as_ref() + b.as_ref()).to_be_bytes().as_bytes().to_vec()
}

/// Relies on `Scalar * Scalar` of `generic_ec`: multiplication modulo the
/// group order, returned as 32 big-endian bytes.  Operands and product are
/// held as `SecretScalar`, which clears them when dropped.
#[verifier::external_body]
pub(crate) fn scalar_mul(a: &[u8], b: &[u8]) -> (r: Vec<u8>)
    requires
        is_scalar(a@),
        is_scalar(b@),
    ensures
        r@.len() == 32,
        be_value(r@) == scalar_product(be_value(a@) as int, be_value(b@) as int),
{
    let a = SecretScalar::<Secp256k1>::from_be_bytes(a).unwrap();
    let b = SecretScalar::<Secp256k1>::from_be_bytes(b).unwrap();
    SecretScalar::new(&mut (a.as_ref() * b.as_ref())).as_ref().to_be_bytes().as_bytes().to_vec()
}

/// Relies on `Generator * Scalar` of `generic_ec`: the point `s·G`, in its
/// compressed encoding (`Point::to_bytes(true)`).  The scalar is decoded as
/// a `SecretScalar`, which clears it when dropped.
#[verifier::external_body]
pub(crate) fn generator_mul(s: &[u8]) -> (r: Vec<u8>)
    requires
        is_scalar(s@),
    ensures
        r@ == multiple_encoding(be_value(s@) as int),
        encodes_multiple(r@, be_value(s@) as int),
{
    let s = SecretScalar::<Secp256k1>::from_be_bytes(s).unwrap();
    (Point::generator() * &s).to_bytes(true).as_bytes().to_vec()
}

/// Relies on `Point + Point` of `generic_ec`: the group sum, in compressed
/// encoding; the logs of the summands add up modulo the group order.
#[verifier::external_body]
pub(crate) fn point_add(a: &[u8], b: &[u8]) -> (r: Vec<u8>)
    requires
        is_point(a@),
        is_point(b@),
    ensures
        encodes_multiple(r@, scalar_sum(point_log(a@), point_log(b@))),
{
    let a = Point::<Secp256k1>::from_bytes(a).unwrap();
    let b = Point::<Secp256k1>::from_bytes(b).unwrap();
    (a + b).to_bytes(true).as_bytes().to_vec()
}

/// Relies on `Scalar * Point` of `generic_ec`: the point `s·P`, in
/// compressed encoding; its log is `s` times the log of `P`.
#[verifier::external_body]
pub(crate) fn point_mul(s: &[u8], p: &[u8]) -> (r: Vec<u8>)
    requires
        is_scalar(s@),
        is_point(p@),
    ensures
        encodes_multiple(r@, scalar_product(be_value(s@) as int, point_log(p@))),
{
    let s = Scalar::<Secp256k1>::from_be_bytes(s).unwrap();
    let p = Point::<Secp256k1>::from_bytes(p).unwrap();
    (s * p).to_bytes(true).as_bytes().to_vec()
}

/// Relies on `generic_ec::Point::from_bytes` and `Point::to_bytes(true)`:
/// bytes that decode to a point give back its compressed encoding, which is
/// the input itself when the input was already one.
#[verifier::external_body]
pub(crate) fn point_reencode(b: &[u8]) -> (r: Option<Vec<u8>>)
    ensures
        r is Some ==> is_point(r->0@),
        is_point(b@) ==> (r is Some && r->0@ == b@),
{
    Point::<Secp256k1>::from_bytes(b).ok().map(|p| p.to_bytes(true).as_bytes().to_vec())
}

/// Relies on `subtle::ConstantTimeEq` for byte slices: equal exactly when
/// the lengths and all bytes agree, compared without an early exit on
/// content.
#[verifier::external_body]
pub(crate) fn bytes_ct_eq(a: &[u8], b: &[u8]) -> (r: bool)
    ensures
        r == (a@ == b@),
{
    a.ct_eq(b).into()
}

/// Relies on `zeroize::Zeroize` for `Vec<u8>`: every byte of the buffer,
/// spare capacity included, is overwritten with zeros by writes that the
/// compiler may not elide, and the vector is left empty.
#[verifier::external_body]
pub(crate) fn wipe(b: &mut Vec<u8>)
    ensures
        final(b)@.len() == 0,
    opens_invariants none
    no_unwind
{
    b.zeroize();
}

} // verus!
