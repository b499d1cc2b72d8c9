use generic_ec::curves::Secp256k1;
use generic_ec::{Point, Scalar};
use rand::rngs::StdRng;
use rand::SeedableRng;
use rand_core::{CryptoRng, RngCore};
use schnorr_pok::schnorr_pok::{
    commit_to_nonce, prove, prover_commits_ephemeral_secret, Challenge, Commit, InvalidProof,
    Proof, ProverSecret,
};

type S = Scalar<Secp256k1>;
type P = Point<Secp256k1>;

fn scalar_bytes(s: &S) -> Vec<u8> {
    s.to_be_bytes().as_bytes().to_vec()
}

fn small_scalar(n: u64) -> Vec<u8> {
    scalar_bytes(&S::from(n))
}

fn public_of(x: &S) -> Vec<u8> {
    (P::generator() * x).to_bytes(true).as_bytes().to_vec()
}

fn decode(b: &[u8]) -> S {
    S::from_be_bytes(b).unwrap()
}

struct Session {
    x: Vec<u8>,
    public: Vec<u8>,
    commit: Commit,
    challenge: Challenge,
    proof: Proof,
}

fn honest_session(seed: u64) -> Session {
    let mut rng = StdRng::seed_from_u64(seed);
    let x_scalar = S::random(&mut rng);
    let x = scalar_bytes(&x_scalar);
    let public = public_of(&x_scalar);
    let (secret, commit) = prover_commits_ephemeral_secret(&mut rng).unwrap();
    let challenge = Challenge::generate(&mut rng).unwrap();
    let proof = prove(&secret, &challenge, &x);
    Session { x, public, commit, challenge, proof }
}

#[test]
fn honest_proofs_are_accepted() {
    for seed in 0..20u64 {
        let s = honest_session(seed);
        assert_eq!(s.proof.verify(&s.commit, &s.challenge, &s.public), Ok(()));
    }
}

#[test]
fn concrete_scenario_accepts_38_and_rejects_39() {
    let x = small_scalar(7);
    let public = public_of(&S::from(7u64));
    let (secret, commit) = commit_to_nonce(small_scalar(3));
    assert_eq!(secret.nonce, small_scalar(3));
    assert_eq!(commit.0, public_of(&S::from(3u64)));
    let challenge = Challenge { nonce: small_scalar(5) };
    let proof = prove(&secret, &challenge, &x);
    assert_eq!(proof.0, small_scalar(38));
    assert_eq!(proof.verify(&commit, &challenge, &public), Ok(()));
    let wrong = Proof(small_scalar(39));
    assert_eq!(wrong.verify(&commit, &challenge, &public), Err(InvalidProof));
}

#[test]
fn response_wraps_modulo_group_order() {
    // α = n - 1, e = 1, x = 2 gives z = 1.
    let minus_one = scalar_bytes(&(S::zero() - S::one()));
    let secret = ProverSecret { nonce: minus_one };
    let challenge = Challenge { nonce: small_scalar(1) };
    let proof = prove(&secret, &challenge, &small_scalar(2));
    assert_eq!(proof.0, small_scalar(1));
}

#[test]
fn proof_with_wrong_secret_is_rejected() {
    let mut rng = StdRng::seed_from_u64(7);
    let x = S::random(&mut rng);
    let wrong_x = x + S::one();
    let public = public_of(&x);
    let (secret, commit) = prover_commits_ephemeral_secret(&mut rng).unwrap();
    let challenge = Challenge::generate(&mut rng).unwrap();
    let proof = prove(&secret, &challenge, &scalar_bytes(&wrong_x));
    assert_eq!(proof.verify(&commit, &challenge, &public), Err(InvalidProof));
}

#[test]
fn wrong_secret_passes_only_a_zero_challenge() {
    let x = S::from(11u64);
    let public = public_of(&x);
    let (secret, commit) = commit_to_nonce(small_scalar(4));
    let challenge = Challenge { nonce: small_scalar(0) };
    let proof = prove(&secret, &challenge, &small_scalar(12));
    assert_eq!(proof.verify(&commit, &challenge, &public), Ok(()));
}

#[test]
fn flipping_a_bit_of_the_proof_is_rejected() {
    let s = honest_session(1);
    for i in 0..s.proof.0.len() * 8 {
        let mut z = s.proof.0.clone();
        z[i / 8] ^= 1 << (i % 8);
        let tampered = Proof(z);
        assert_eq!(tampered.verify(&s.commit, &s.challenge, &s.public), Err(InvalidProof));
    }
}

#[test]
fn flipping_a_bit_of_the_commit_is_rejected() {
    let s = honest_session(2);
    for i in 0..s.commit.0.len() * 8 {
        let mut a = s.commit.0.clone();
        a[i / 8] ^= 1 << (i % 8);
        let tampered = Commit(a);
        assert_eq!(s.proof.verify(&tampered, &s.challenge, &s.public), Err(InvalidProof));
    }
}

#[test]
fn flipping_a_bit_of_the_challenge_is_rejected() {
    let s = honest_session(3);
    for i in 0..s.challenge.nonce.len() * 8 {
        let mut e = s.challenge.nonce.clone();
        e[i / 8] ^= 1 << (i % 8);
        let tampered = Challenge { nonce: e };
        assert_eq!(s.proof.verify(&s.commit, &tampered, &s.public), Err(InvalidProof));
    }
}

#[test]
fn nonce_reuse_reveals_the_secret() {
    let mut rng = StdRng::seed_from_u64(9);
    let x = S::random(&mut rng);
    let x_bytes = scalar_bytes(&x);
    let (secret, _commit) = prover_commits_ephemeral_secret(&mut rng).unwrap();
    let e1 = Challenge::generate(&mut rng).unwrap();
    let e2 = Challenge::generate(&mut rng).unwrap();
    assert_ne!(e1.nonce, e2.nonce);
    let z1 = decode(&prove(&secret, &e1, &x_bytes).0);
    let z2 = decode(&prove(&secret, &e2, &x_bytes).0);
    let diff = decode(&e1.nonce) - decode(&e2.nonce);
    let recovered = (z1 - z2) * diff.invert().unwrap();
    assert_eq!(recovered, x);
}

#[test]
fn verification_is_deterministic() {
    let s = honest_session(4);
    let first = s.proof.verify(&s.commit, &s.challenge, &s.public);
    let second = s.proof.verify(&s.commit, &s.challenge, &s.public);
    assert_eq!(first, second);
    let bad = Proof(small_scalar(1));
    let first = bad.verify(&s.commit, &s.challenge, &s.public);
    let second = bad.verify(&s.commit, &s.challenge, &s.public);
    assert_eq!(first, Err(InvalidProof));
    assert_eq!(first, second);
}

#[test]
fn proof_not_below_group_order_is_rejected() {
    let s = honest_session(5);
    let too_big = Proof(vec![0xff; 32]);
    assert_eq!(too_big.verify(&s.commit, &s.challenge, &s.public), Err(InvalidProof));
    let too_long = Proof(vec![0; 33]);
    assert_eq!(too_long.verify(&s.commit, &s.challenge, &s.public), Err(InvalidProof));
}

#[test]
fn challenge_not_below_group_order_is_rejected() {
    let s = honest_session(6);
    let bad = Challenge { nonce: vec![0xff; 32] };
    assert_eq!(s.proof.verify(&s.commit, &bad, &s.public), Err(InvalidProof));
}

#[test]
fn malformed_points_are_rejected() {
    let s = honest_session(7);
    let garbage = vec![5u8; 33];
    assert_eq!(s.proof.verify(&Commit(garbage.clone()), &s.challenge, &s.public), Err(InvalidProof));
    assert_eq!(s.proof.verify(&s.commit, &s.challenge, &garbage), Err(InvalidProof));
    assert_eq!(s.proof.verify(&Commit(vec![]), &s.challenge, &s.public), Err(InvalidProof));
}

#[test]
fn uncompressed_public_point_is_rejected() {
    let s = honest_session(8);
    let x = decode(&s.x);
    let uncompressed = (P::generator() * x).to_bytes(false).as_bytes().to_vec();
    assert_eq!(s.proof.verify(&s.commit, &s.challenge, &uncompressed), Err(InvalidProof));
}

#[test]
fn generated_challenges_are_fresh_scalars() {
    let mut rng = StdRng::seed_from_u64(10);
    let a = Challenge::generate(&mut rng).unwrap();
    let b = Challenge::generate(&mut rng).unwrap();
    assert_eq!(a.nonce.len(), 32);
    assert!(S::from_be_bytes(&a.nonce).is_ok());
    assert_ne!(a.nonce, b.nonce);
}

#[test]
fn ephemeral_commit_is_nonce_times_generator() {
    let mut rng = StdRng::seed_from_u64(11);
    let (secret, commit) = prover_commits_ephemeral_secret(&mut rng).unwrap();
    assert_eq!(secret.nonce.len(), 32);
    assert_eq!(commit.0, public_of(&decode(&secret.nonce)));
    let (other, _) = prover_commits_ephemeral_secret(&mut rng).unwrap();
    assert_ne!(secret.nonce, other.nonce);
}

#[test]
fn identity_commit_verifies_zero_nonce() {
    // α = 0 commits to the identity point, whose encoding is all zeros.
    let (secret, commit) = commit_to_nonce(small_scalar(0));
    assert_eq!(commit.0, vec![0u8; 33]);
    let challenge = Challenge { nonce: small_scalar(2) };
    let proof = prove(&secret, &challenge, &small_scalar(9));
    assert_eq!(proof.0, small_scalar(18));
    assert_eq!(proof.verify(&commit, &challenge, &public_of(&S::from(9u64))), Ok(()));
}

#[test]
fn invalid_proof_message() {
    assert_eq!(InvalidProof.message(), "invalid Schnorr PoK proof");
}

/// A generator that always yields the same byte.
struct ConstantRng(u8);

impl RngCore for ConstantRng {
    fn next_u32(&mut self) -> u32 {
        u32::from_be_bytes([self.0; 4])
    }
    fn next_u64(&mut self) -> u64 {
        u64::from_be_bytes([self.0; 8])
    }
    fn fill_bytes(&mut self, dest: &mut [u8]) {
        dest.fill(self.0)
    }
    fn try_fill_bytes(&mut self, dest: &mut [u8]) -> Result<(), rand_core::Error> {
        dest.fill(self.0);
        Ok(())
    }
}

impl CryptoRng for ConstantRng {}

/// A generator that reports a failure on every request.
struct FailingRng;

impl RngCore for FailingRng {
    fn next_u32(&mut self) -> u32 {
        0
    }
    fn next_u64(&mut self) -> u64 {
        0
    }
    fn fill_bytes(&mut self, _dest: &mut [u8]) {}
    fn try_fill_bytes(&mut self, _dest: &mut [u8]) -> Result<(), rand_core::Error> {
        let code = core::num::NonZeroU32::new(rand_core::Error::CUSTOM_START).unwrap();
        Err(rand_core::Error::from(code))
    }
}

impl CryptoRng for FailingRng {}

#[test]
fn all_zero_generator_draws_the_zero_scalar() {
    let challenge = Challenge::generate(&mut ConstantRng(0)).unwrap();
    assert_eq!(challenge.nonce, vec![0u8; 32]);
    let (secret, commit) = prover_commits_ephemeral_secret(&mut ConstantRng(0)).unwrap();
    assert_eq!(secret.nonce, vec![0u8; 32]);
    assert_eq!(commit.0, vec![0u8; 33]);
}

#[test]
fn all_ones_generator_draws_the_reduced_value() {
    // 2^512 - 1 reduced modulo the group order.
    let expected = S::from_be_bytes_mod_order([0xffu8; 64]);
    let challenge = Challenge::generate(&mut ConstantRng(0xff)).unwrap();
    assert_eq!(decode(&challenge.nonce), expected);
    assert_ne!(challenge.nonce, vec![0xffu8; 32]);
    let (secret, commit) = prover_commits_ephemeral_secret(&mut ConstantRng(0xff)).unwrap();
    assert_eq!(decode(&secret.nonce), expected);
    assert_eq!(commit.0, public_of(&expected));
}

#[test]
fn failing_generator_gives_none() {
    assert!(Challenge::generate(&mut FailingRng).is_none());
    assert!(prover_commits_ephemeral_secret(&mut FailingRng).is_none());
}

#[test]
fn flipped_challenge_passes_only_for_identity_public_point() {
    // x = 0 makes X the identity, so the challenge drops out of the equation.
    let public = vec![0u8; 33];
    let (secret, commit) = commit_to_nonce(small_scalar(6));
    let challenge = Challenge { nonce: small_scalar(5) };
    let proof = prove(&secret, &challenge, &small_scalar(0));
    let mut flipped = challenge.nonce.clone();
    flipped[31] ^= 2;
    let tampered = Challenge { nonce: flipped };
    assert_eq!(proof.verify(&commit, &tampered, &public), Ok(()));
}
