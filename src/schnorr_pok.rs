//! The three messages of the protocol and the four steps that make and check
//! them.
//!
//! * Prover samples `α` and sends `A = α·G`.
//! * Verifier replies with a random challenge `e`.
//! * Prover sends `z = α + e·x`.
//! * Verifier accepts when `z·G = A + e·X`.
use crate::group::{
    bytes_ct_eq, generator_mul, point_add, point_mul, point_reencode, random_scalar, scalar_add,
    scalar_is_valid, scalar_mul, wipe,
};
use crate::model::{
    be_value, encodes_multiple, group_order, is_point, is_scalar, lemma_encoding_equal,
    point_log, scalar_product, scalar_sum,
};
use rand_core::{CryptoRng, RngCore};
use vstd::arithmetic::div_mod::{lemma_add_mod_noop_right, lemma_mod_bound};
use vstd::prelude::*;

verus! {

/// Committed prover ephemeral secret: the compressed encoding of `A = α·G`.
#[derive(Clone, Debug, PartialEq, Eq)]
pub struct Commit(pub Vec<u8>);

/// Prover ephemeral secret `α`, as big-endian bytes.  It answers one
/// challenge only: two answers under one `α` reveal the long-term secret.
/// Its bytes are overwritten with zeros when it is dropped.
pub struct ProverSecret {
    pub nonce: Vec<u8>,
}

impl Drop for ProverSecret {
    fn drop(&mut self)
        opens_invariants none
        no_unwind
    {
        wipe(&mut self.nonce);
    }
}

/// Challenge `e` generated by the verifier, as big-endian bytes.
#[derive(Clone, Debug, PartialEq, Eq)]
pub struct Challenge {
    pub nonce: Vec<u8>,
}

/// The proof `z = α + e·x` that convinces the verifier that the prover
/// knows `x`, as big-endian bytes.
#[derive(Clone, Debug, PartialEq, Eq)]
pub struct Proof(pub Vec<u8>);

/// Invalid proof error.  It says nothing of which part failed.
#[derive(Debug, Clone, Copy, PartialEq, Eq)]
pub struct InvalidProof;

impl InvalidProof {
    /// The text that describes this error.
    pub fn message(&self) -> (r: &'static str)
        ensures
            r@ == "invalid Schnorr PoK proof"@,
    {
        let r = "invalid Schnorr PoK proof";
        proof {
            reveal_strlit("invalid Schnorr PoK proof");
        }
        r
    }
}

/// The response `(α + e·x) mod n` owed for nonce `α`, challenge `e` and
/// secret `x`.
pub open spec fn response(alpha: int, e: int, x: int) -> int {
    scalar_sum(alpha, scalar_product(e, x))
}

/// The verification equation `z·G = A + e·X`, over the encodings that the
/// verifier receives: `z` and `e` must be scalars, `A` and `X` points, and the
/// equation holds exactly when `z ≡ log A + e·log X (mod n)`.
pub open spec fn accepts(z: Seq<u8>, a: Seq<u8>, e: Seq<u8>, x: Seq<u8>) -> bool {
    &&& is_scalar(z)
    &&& is_scalar(e)
    &&& is_point(a)
    &&& is_point(x)
    &&& be_value(z) == response(point_log(a), be_value(e) as int, point_log(x))
}

impl Challenge {
    /// Generates a random challenge, or `None` when the generator reports
    /// a failure.
    pub fn generate<R: RngCore + CryptoRng>(rng: &mut R) -> (r: Option<Self>)
        ensures
            r is Some ==> is_scalar(r->0.nonce@) && r->0.nonce@.len() == 32,
    {
        match random_scalar(rng) {
            Some(nonce) => Some(Challenge { nonce }),
            None => None,
        }
    }
}

/// Rejects the bytes unless they are a compressed point encoding, in which
/// case the same bytes come back.
fn checked_point(b: &[u8]) -> (r: Result<Vec<u8>, InvalidProof>)
    ensures
        r is Ok <==> is_point(b@),
        r is Ok ==> r->Ok_0@ == b@,
{
    match point_reencode(b) {
        Some(c) => {
            if bytes_ct_eq(c.as_slice(), b) {
                Ok(c)
            } else {
                Err(InvalidProof)
            }
        },
        None => Err(InvalidProof),
    }
}

impl Proof {
    /// Verifies that prover knows secret `x` such as `X = x·G`.  The two
    /// sides of the equation are compared in constant time.
    pub fn verify(&self, commit: &Commit, challenge: &Challenge, public_point: &[u8]) -> (r:
        Result<(), InvalidProof>)
        ensures
            r is Ok <==> accepts(self.0@, commit.0@, challenge.nonce@, public_point@),
    {
        if !scalar_is_valid(self.0.as_slice()) || !scalar_is_valid(challenge.nonce.as_slice()) {
            return Err(InvalidProof);
        }
        let a = checked_point(commit.0.as_slice())?;
        let x = checked_point(public_point)?;
        let lhs = generator_mul(self.0.as_slice());
        let ex = point_mul(challenge.nonce.as_slice(), x.as_slice());
        let rhs = point_add(a.as_slice(), ex.as_slice());
        let ok = bytes_ct_eq(lhs.as_slice(), rhs.as_slice());
        proof {
            let n = group_order();
            let z = be_value(self.0@) as int;
            let e = be_value(challenge.nonce@) as int;
            let la = point_log(a@);
            let lx = point_log(x@);
            let lex = scalar_product(e, lx);
            assert(encodes_multiple(ex@, lex));
            lemma_add_mod_noop_right(la, e * lx, n);
            assert(scalar_sum(la, lex) == response(la, e, lx));
            lemma_encoding_equal(lhs@, z, rhs@, response(la, e, lx));
        }
        if ok {
            Ok(())
        } else {
            Err(InvalidProof)
        }
    }
}

/// Commits to a given ephemeral secret `α`: the commitment is `α·G`.
pub fn commit_to_nonce(nonce: Vec<u8>) -> (r: (ProverSecret, Commit))
    requires
        is_scalar(nonce@),
    ensures
        r.0.nonce@ == nonce@,
        encodes_multiple(r.1.0@, be_value(nonce@) as int),
{
    let public = generator_mul(nonce.as_slice());
    (ProverSecret { nonce }, Commit(public))
}

/// Generates and commits prover ephemeral secret, or `None` when the
/// generator reports a failure.
pub fn prover_commits_ephemeral_secret<R: RngCore + CryptoRng>(rng: &mut R) -> (r: Option<
    (ProverSecret, Commit),
>)
    ensures
        r is Some ==> {
            let (secret, commit) = r->0;
            &&& is_scalar(secret.nonce@)
            &&& secret.nonce@.len() == 32
            &&& encodes_multiple(commit.0@, be_value(secret.nonce@) as int)
        },
{
    match random_scalar(rng) {
        Some(secret) => Some(commit_to_nonce(secret)),
        None => None,
    }
}

/// Proves knowledge of `secret`: the response `α + e·x` modulo the group
/// order.
pub fn prove(committed_secret: &ProverSecret, challenge: &Challenge, secret: &[u8]) -> (r: Proof)
    requires
        is_scalar(committed_secret.nonce@),
        is_scalar(challenge.nonce@),
        is_scalar(secret@),
    ensures
        r.0@.len() == 32,
        is_scalar(r.0@),
        be_value(r.0@) == response(
            be_value(committed_secret.nonce@) as int,
            be_value(challenge.nonce@) as int,
            be_value(secret@) as int,
        ),
{
    let ex = scalar_mul(challenge.nonce.as_slice(), secret);
    proof {
        lemma_mod_bound(
            be_value(challenge.nonce@) as int * be_value(secret@) as int,
            group_order(),
        );
    }
    let mut ex = ex;
    let z = scalar_add(committed_secret.nonce.as_slice(), ex.as_slice());
    proof {
        lemma_mod_bound(be_value(committed_secret.nonce@) + be_value(ex@) as int, group_order());
    }
    wipe(&mut ex);
    Proof(z)
}

} // verus!
