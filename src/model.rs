use vstd::arithmetic::div_mod::{lemma_fundamental_div_mod, lemma_mod_multiples_basic};
use vstd::arithmetic::power2::{lemma2_to64, lemma_pow2_adds, lemma_pow2_unfold, pow2};
use vstd::prelude::*;

verus! {

/// Order `n` of the secp256k1 group: scalars are the integers modulo `n`.
/// Written in 64-bit limbs, most significant first.
pub open spec fn group_order() -> int {
    let t: int = 0xFFFF_FFFF_FFFF_FFFFint + 1;
    ((0xFFFF_FFFF_FFFF_FFFF * t + 0xFFFF_FFFF_FFFF_FFFE) * t + 0xBAAE_DCE6_AF48_A03B) * t
        + 0xBFD2_5E8C_D036_4141
}

/// The integer that a byte string denotes in big-endian order.
pub open spec fn be_value(b: Seq<u8>) -> nat
    decreases b.len(),
{
    if b.len() == 0 {
        0
    } else {
        (be_value(b.drop_last()) * 256 + b.last()) as nat
    }
}

/// Bytes that decode to a scalar: at most 32 of them, denoting an integer
/// below the group order.
pub open spec fn is_scalar(b: Seq<u8>) -> bool {
    b.len() <= 32 && be_value(b) < group_order()
}

/// The compressed encoding of the point `k·G`, for `0 <= k < n`.
pub uninterp spec fn multiple_encoding(k: int) -> Seq<u8>;

/// `p` is the compressed encoding of `k·G`, and of no other multiple of the
/// generator: the generator has prime order `n`, so the multiples `0·G` to
/// `(n-1)·G` are pairwise distinct, and each point has one compressed form.
pub open spec fn encodes_multiple(p: Seq<u8>, k: int) -> bool {
    &&& 0 <= k < group_order()
    &&& p == multiple_encoding(k)
    &&& forall|j: int| 0 <= j < group_order() && #[trigger] multiple_encoding(j) == p ==> j == k
}

/// `p` is the compressed encoding of a point of the group.
pub open spec fn is_point(p: Seq<u8>) -> bool {
    exists|k: int| encodes_multiple(p, k)
}

/// The discrete logarithm of an encoded point to the base `G`.
pub open spec fn point_log(p: Seq<u8>) -> int
    recommends
        is_point(p),
{
    choose|k: int| encodes_multiple(p, k)
}

/// The scalar `(a + b) mod n`.
pub open spec fn scalar_sum(a: int, b: int) -> int {
    (a + b) % group_order()
}

/// The scalar `(a · b) mod n`.
pub open spec fn scalar_product(a: int, b: int) -> int {
    (a * b) % group_order()
}

/// A point's log is the unique multiple it encodes.
pub proof fn lemma_point_log(p: Seq<u8>, k: int)
    requires
        encodes_multiple(p, k),
    ensures
        is_point(p),
        point_log(p) == k,
{
    let j = point_log(p);
    assert(encodes_multiple(p, j));
    assert(multiple_encoding(k) == p);
}

/// Two encodings of the same multiple are the same bytes, and encodings of
/// different multiples differ.
pub proof fn lemma_encoding_equal(p: Seq<u8>, k: int, q: Seq<u8>, j: int)
    requires
        encodes_multiple(p, k),
        encodes_multiple(q, j),
    ensures
        (p == q) <==> (k == j),
{
    if p == q {
        assert(multiple_encoding(j) == p);
    }
}

/// Big-endian values of byte strings of one length are equal only when the
/// strings are.
pub proof fn lemma_be_value_injective(a: Seq<u8>, b: Seq<u8>)
    requires
        a.len() == b.len(),
        be_value(a) == be_value(b),
    ensures
        a == b,
    decreases a.len(),
{
    if a.len() > 0 {
        let ah = a.drop_last();
        let bh = b.drop_last();
        assert(be_value(ah) * 256 + a.last() == be_value(bh) * 256 + b.last());
        assert(be_value(ah) == be_value(bh) && a.last() == b.last()) by (nonlinear_arith)
            requires
                be_value(ah) * 256 + a.last() == be_value(bh) * 256 + b.last(),
                0 <= a.last() < 256,
                0 <= b.last() < 256,
                be_value(ah) >= 0,
                be_value(bh) >= 0,
        ;
        lemma_be_value_injective(ah, bh);
        assert(a =~= ah.push(a.last()));
        assert(b =~= bh.push(b.last()));
    } else {
        assert(a =~= b);
    }
}

/// The group order is odd, so it divides `2·m` only when it divides `m`.
pub proof fn lemma_order_cancels_two(m: int)
    requires
        (2 * m) % group_order() == 0,
    ensures
        m % group_order() == 0,
{
    let n = group_order();
    assert(n % 2 == 1);
    lemma_fundamental_div_mod(2 * m, n);
    let q = (2 * m) / n;
    assert(n * q == 2 * m);
    assert(q % 2 == 0) by (nonlinear_arith)
        requires
            n * q == 2 * m,
            n % 2 == 1,
    {
        if q % 2 != 0 {
            let a = n / 2;
            let b = q / 2;
            assert(n == 2 * a + 1);
            assert(q == 2 * b + 1);
            assert(n * q == 2 * (2 * a * b + a + b) + 1);
        }
    }
    let t = q / 2;
    assert(m == t * n) by (nonlinear_arith)
        requires
            n * q == 2 * m,
            q == 2 * t,
    ;
    lemma_mod_multiples_basic(t, n);
}

/// The group order divides `2^j·m` only when it divides `m`.
pub proof fn lemma_order_cancels_pow2(j: nat, m: int)
    requires
        (pow2(j) * m) % group_order() == 0,
    ensures
        m % group_order() == 0,
    decreases j,
{
    if j == 0 {
        lemma2_to64();
        assert(pow2(j) * m == m);
    } else {
        let k = (j - 1) as nat;
        lemma_pow2_unfold(j);
        assert(pow2(j) * m == pow2(k) * (2 * m)) by (nonlinear_arith)
            requires
                pow2(j) == 2 * pow2(k),
        ;
        lemma_order_cancels_pow2(k, 2 * m);
        lemma_order_cancels_two(m);
    }
}

/// Flipping bit `k` of a byte moves its value up or down by `2^k`.
pub proof fn lemma_flip_bit(x: u8, k: u8)
    requires
        k < 8,
    ensures
        (x ^ (1u8 << k)) as int == x as int + pow2(k as nat) || (x ^ (1u8 << k)) as int + pow2(
            k as nat,
        ) == x as int,
{
    let y = x ^ (1u8 << k);
    let m = 1u8 << k;
    assert((y as u16) == (x as u16) + (m as u16) || (y as u16) + (m as u16) == (x as u16))
        by (bit_vector)
        requires
            y == x ^ (1u8 << k),
            m == 1u8 << k,
            k < 8,
    ;
    lemma2_to64();
    assert(m as int == pow2(k as nat)) by {
        if k == 0 {
            assert(1u8 << 0u8 == 1u8) by (bit_vector);
        } else if k == 1 {
            assert(1u8 << 1u8 == 2u8) by (bit_vector);
        } else if k == 2 {
            assert(1u8 << 2u8 == 4u8) by (bit_vector);
        } else if k == 3 {
            assert(1u8 << 3u8 == 8u8) by (bit_vector);
        } else if k == 4 {
            assert(1u8 << 4u8 == 16u8) by (bit_vector);
        } else if k == 5 {
            assert(1u8 << 5u8 == 32u8) by (bit_vector);
        } else if k == 6 {
            assert(1u8 << 6u8 == 64u8) by (bit_vector);
        } else {
            assert(1u8 << 7u8 == 128u8) by (bit_vector);
        }
    }
}

/// Replacing byte `i` by `v` moves the big-endian value by `v - a[i]` times
/// the weight `2^(8·(len - 1 - i))` of that position.
pub proof fn lemma_be_value_update(a: Seq<u8>, i: int, v: u8)
    requires
        0 <= i < a.len(),
    ensures
        be_value(a.update(i, v)) == be_value(a) + (v - a[i]) * pow2((8 * (a.len() - 1 - i)) as nat),
    decreases a.len(),
{
    let b = a.update(i, v);
    let last = a.len() - 1;
    if i == last {
        assert(b.drop_last() =~= a.drop_last());
        lemma2_to64();
        assert(pow2((8 * (a.len() - 1 - i)) as nat) == 1);
    } else {
        let p = (8 * (a.len() - 2 - i)) as nat;
        assert(b.drop_last() =~= a.drop_last().update(i, v));
        lemma_be_value_update(a.drop_last(), i, v);
        lemma2_to64();
        lemma_pow2_adds(p, 8);
        assert((8 * (a.len() - 1 - i)) as nat == p + 8);
        let d = (v - a[i]) * pow2(p);
        assert(be_value(b.drop_last()) == be_value(a.drop_last()) + d);
        assert(be_value(b) == be_value(b.drop_last()) * 256 + a.last());
        assert((be_value(a.drop_last()) + d) * 256 == be_value(a.drop_last()) * 256 + (v - a[i])
            * pow2(p + 8)) by (nonlinear_arith)
            requires
                d == (v - a[i]) * pow2(p),
                pow2(p + 8) == pow2(p) * 256,
        ;
    }
}

} // verus!
