//! Properties of the protocol, stated over the verifier's equation.
use crate::model::{
    be_value, encodes_multiple, group_order, is_scalar, lemma_be_value_injective,
    lemma_be_value_update, lemma_encoding_equal, lemma_flip_bit, lemma_order_cancels_pow2,
    lemma_point_log, point_log,
};
use vstd::arithmetic::power2::{lemma_pow2_adds, pow2};
use crate::schnorr_pok::{accepts, response};
use vstd::arithmetic::div_mod::{
    lemma_add_mod_noop_right, lemma_mod_equivalence, lemma_small_mod, lemma_sub_mod_noop,
};
use vstd::arithmetic::mul::lemma_mul_is_distributive_sub;
use vstd::prelude::*;

verus! {

/// Completeness: an honest prover is always accepted.  For every secret `x`,
/// nonce `α` and challenge `e`, the response `α + e·x` passes against the
/// commitment `α·G` and the public point `X = x·G`.
pub proof fn lemma_honest_proof_accepted(
    alpha: Seq<u8>,
    e: Seq<u8>,
    x: Seq<u8>,
    commit: Seq<u8>,
    public_point: Seq<u8>,
    z: Seq<u8>,
)
    requires
        is_scalar(alpha),
        is_scalar(e),
        is_scalar(x),
        encodes_multiple(commit, be_value(alpha) as int),
        encodes_multiple(public_point, be_value(x) as int),
        is_scalar(z),
        be_value(z) == response(be_value(alpha) as int, be_value(e) as int, be_value(x) as int),
    ensures
        accepts(z, commit, e, public_point),
{
    lemma_point_log(commit, be_value(alpha) as int);
    lemma_point_log(public_point, be_value(x) as int);
}

/// A proof computed with a secret `x'` other than the log `x` of the public
/// point passes against an honest commitment only when `e·(x' - x)` vanishes
/// modulo the group order.
pub proof fn lemma_wrong_secret_needs_vanishing_product(
    alpha: Seq<u8>,
    e: Seq<u8>,
    x: Seq<u8>,
    wrong_x: Seq<u8>,
    commit: Seq<u8>,
    public_point: Seq<u8>,
    z: Seq<u8>,
)
    requires
        is_scalar(alpha),
        is_scalar(e),
        is_scalar(x),
        is_scalar(wrong_x),
        encodes_multiple(commit, be_value(alpha) as int),
        encodes_multiple(public_point, be_value(x) as int),
        be_value(z) == response(
            be_value(alpha) as int,
            be_value(e) as int,
            be_value(wrong_x) as int,
        ),
        accepts(z, commit, e, public_point),
    ensures
        (be_value(e) * (be_value(wrong_x) - be_value(x))) % group_order() == 0,
{
    let n = group_order();
    let a = be_value(alpha) as int;
    let ev = be_value(e) as int;
    let xv = be_value(x) as int;
    let wv = be_value(wrong_x) as int;
    lemma_point_log(commit, a);
    lemma_point_log(public_point, xv);
    lemma_add_mod_noop_right(a, ev * wv, n);
    lemma_add_mod_noop_right(a, ev * xv, n);
    lemma_mod_equivalence(a + ev * wv, a + ev * xv, n);
    lemma_mul_is_distributive_sub(ev, wv, xv);
    assert((a + ev * wv) - (a + ev * xv) == ev * (wv - xv));
}

/// Tampering with the proof: once a proof is accepted, every other byte
/// string of the same length is rejected against the same commitment,
/// challenge and public point.
pub proof fn lemma_altered_proof_rejected(
    z: Seq<u8>,
    altered: Seq<u8>,
    commit: Seq<u8>,
    e: Seq<u8>,
    public_point: Seq<u8>,
)
    requires
        accepts(z, commit, e, public_point),
        altered.len() == z.len(),
        altered != z,
    ensures
        !accepts(altered, commit, e, public_point),
{
    if accepts(altered, commit, e, public_point) {
        lemma_be_value_injective(altered, z);
    }
}

/// Tampering with the commitment: once a proof is accepted, any other
/// commitment bytes are rejected with the same proof, challenge and public
/// point.
pub proof fn lemma_altered_commit_rejected(
    z: Seq<u8>,
    commit: Seq<u8>,
    altered: Seq<u8>,
    e: Seq<u8>,
    public_point: Seq<u8>,
)
    requires
        accepts(z, commit, e, public_point),
        altered != commit,
    ensures
        !accepts(z, altered, e, public_point),
{
    if accepts(z, altered, e, public_point) {
        let n = group_order();
        let ex = be_value(e) * point_log(public_point);
        let la = point_log(commit);
        let lb = point_log(altered);
        assert(encodes_multiple(commit, la));
        assert(encodes_multiple(altered, lb));
        lemma_add_mod_noop_right(la, ex, n);
        lemma_add_mod_noop_right(lb, ex, n);
        lemma_mod_equivalence(la + ex, lb + ex, n);
        assert((la + ex) - (lb + ex) == la - lb);
        lemma_mod_equivalence(la, lb, n);
        lemma_small_mod(la as nat, n as nat);
        lemma_small_mod(lb as nat, n as nat);
        lemma_encoding_equal(commit, la, altered, lb);
    }
}

/// Tampering with the challenge: once a proof is accepted, it passes under
/// another challenge `e'` only when `(e' - e)·log X` vanishes modulo the
/// group order.
pub proof fn lemma_altered_challenge_needs_vanishing_product(
    z: Seq<u8>,
    commit: Seq<u8>,
    e: Seq<u8>,
    altered: Seq<u8>,
    public_point: Seq<u8>,
)
    requires
        accepts(z, commit, e, public_point),
        accepts(z, commit, altered, public_point),
    ensures
        ((be_value(altered) - be_value(e)) * point_log(public_point)) % group_order() == 0,
{
    let n = group_order();
    let la = point_log(commit);
    let lx = point_log(public_point);
    let ev = be_value(e) as int;
    let fv = be_value(altered) as int;
    lemma_add_mod_noop_right(la, ev * lx, n);
    lemma_add_mod_noop_right(la, fv * lx, n);
    lemma_mod_equivalence(la + fv * lx, la + ev * lx, n);
    vstd::arithmetic::mul::lemma_mul_is_distributive_sub_other_way(lx, fv, ev);
    assert((la + fv * lx) - (la + ev * lx) == (fv - ev) * lx);
}

/// Tampering with the challenge by a bit: flipping one bit moves the
/// challenge's value up or down by a power of two.  Once a proof is accepted,
/// a challenge whose value is off by a power of two is rejected, unless the
/// public point is the identity.
pub proof fn lemma_challenge_off_by_power_of_two_rejected(
    z: Seq<u8>,
    commit: Seq<u8>,
    e: Seq<u8>,
    altered: Seq<u8>,
    public_point: Seq<u8>,
    j: nat,
)
    requires
        accepts(z, commit, e, public_point),
        be_value(altered) == be_value(e) + pow2(j) || be_value(e) == be_value(altered) + pow2(j),
        point_log(public_point) != 0,
    ensures
        !accepts(z, commit, altered, public_point),
{
    if accepts(z, commit, altered, public_point) {
        let n = group_order();
        let lx = point_log(public_point);
        let d = be_value(altered) - be_value(e);
        lemma_altered_challenge_needs_vanishing_product(z, commit, e, altered, public_point);
        assert((d * lx) % n == 0);
        if d < 0 {
            assert(d * lx == 0 - pow2(j) * lx) by (nonlinear_arith)
                requires
                    d == 0 - pow2(j),
            ;
            lemma_mod_equivalence(0, pow2(j) * lx, n);
            lemma_small_mod(0, n as nat);
        } else {
            assert(d == pow2(j));
        }
        assert((pow2(j) * lx) % n == 0);
        lemma_order_cancels_pow2(j, lx);
        assert(encodes_multiple(public_point, lx));
        lemma_small_mod(lx as nat, n as nat);
    }
}

/// Flipping one bit of the challenge: once a proof is accepted, the
/// challenge with bit `k` of byte `i` flipped is rejected against the same
/// proof, commitment and public point, unless the public point is the
/// identity.
pub proof fn lemma_challenge_bit_flip_rejected(
    z: Seq<u8>,
    commit: Seq<u8>,
    e: Seq<u8>,
    public_point: Seq<u8>,
    i: int,
    k: u8,
)
    requires
        accepts(z, commit, e, public_point),
        0 <= i < e.len(),
        k < 8,
        point_log(public_point) != 0,
    ensures
        !accepts(z, commit, e.update(i, e[i] ^ (1u8 << k)), public_point),
{
    let y = e[i] ^ (1u8 << k);
    let altered = e.update(i, y);
    let p = (8 * (e.len() - 1 - i)) as nat;
    lemma_flip_bit(e[i], k);
    lemma_be_value_update(e, i, y);
    lemma_pow2_adds(k as nat, p);
    let j = (k as nat + p) as nat;
    assert(be_value(altered) == be_value(e) + pow2(j) || be_value(e) == be_value(altered) + pow2(j))
        by (nonlinear_arith)
        requires
            be_value(altered) == be_value(e) + (y - e[i]) * pow2(p),
            y as int == e[i] as int + pow2(k as nat) || y as int + pow2(k as nat) == e[i] as int,
            pow2(j) == pow2(k as nat) * pow2(p),
    ;
    lemma_challenge_off_by_power_of_two_rejected(z, commit, e, altered, public_point, j);
}

/// Reusing a nonce: two responses under one nonce `α` to challenges `e1` and
/// `e2` differ by exactly `(e1 - e2)·x` modulo the group order: an equation
/// in public values in which the secret `x` is the only unknown.
pub proof fn lemma_nonce_reuse_exposes_secret(
    alpha: Seq<u8>,
    x: Seq<u8>,
    e1: Seq<u8>,
    e2: Seq<u8>,
    z1: Seq<u8>,
    z2: Seq<u8>,
)
    requires
        is_scalar(alpha),
        is_scalar(x),
        is_scalar(e1),
        is_scalar(e2),
        be_value(z1) == response(be_value(alpha) as int, be_value(e1) as int, be_value(x) as int),
        be_value(z2) == response(be_value(alpha) as int, be_value(e2) as int, be_value(x) as int),
    ensures
        (be_value(z1) - be_value(z2)) % group_order() == ((be_value(e1) - be_value(e2)) * be_value(
            x,
        )) % group_order(),
{
    let n = group_order();
    let a = be_value(alpha) as int;
    let xv = be_value(x) as int;
    let f = be_value(e1) as int;
    let g = be_value(e2) as int;
    lemma_add_mod_noop_right(a, f * xv, n);
    lemma_add_mod_noop_right(a, g * xv, n);
    lemma_sub_mod_noop(a + f * xv, a + g * xv, n);
    vstd::arithmetic::mul::lemma_mul_is_distributive_sub_other_way(xv, f, g);
    assert((a + f * xv) - (a + g * xv) == (f - g) * xv);
}

/// Verification is a function of its inputs: equal proofs, commitments,
/// challenges and public points always get the same verdict.
pub proof fn lemma_verify_deterministic(
    z1: Seq<u8>,
    a1: Seq<u8>,
    e1: Seq<u8>,
    x1: Seq<u8>,
    z2: Seq<u8>,
    a2: Seq<u8>,
    e2: Seq<u8>,
    x2: Seq<u8>,
)
    requires
        z1 == z2,
        a1 == a2,
        e1 == e2,
        x1 == x2,
    ensures
        accepts(z1, a1, e1, x1) == accepts(z2, a2, e2, x2),
{
}

} // verus!
