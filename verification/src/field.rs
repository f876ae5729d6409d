//! Arithmetic in the prime field the two-adic engine runs over, modeled as
//! canonical residues held in `u64`. The modulus is the 31-bit prime with
//! two-adicity 27 that the external field library exposes as `BabyBear`;
//! inverses and subgroup generators are taken from that library through
//! trusted wrappers, everything else is verified modular arithmetic.
use vstd::prelude::*;
use vstd::arithmetic::power::{pow, lemma_pow0, lemma_pow1, lemma_pow_adds};
use vstd::arithmetic::power2::{pow2, lemma_pow2_unfold};
use vstd::arithmetic::div_mod::{
    lemma_mod_multiples_vanish, lemma_mul_mod_noop_left, lemma_mul_mod_noop_right,
    lemma_mul_mod_noop_general, lemma_fundamental_div_mod, lemma_small_mod,
};
use vstd::arithmetic::mul::lemma_mul_is_associative;
use p3_field::{Field, PrimeField32, TwoAdicField};

verus! {

/// The field modulus: 2^31 - 2^27 + 1.
pub const FP: u64 = 2013265921;

/// Two-adicity of the multiplicative group: FP - 1 = 2^27 * 15.
pub const FP_TWO_ADICITY: usize = 27;

pub open spec fn fp() -> int {
    FP as int
}

/// Canonical residue: a value this module's functions accept and return.
pub open spec fn is_elem(a: u64) -> bool {
    a < FP
}

pub open spec fn f_add(a: int, b: int) -> int {
    (a + b) % fp()
}

pub open spec fn f_sub(a: int, b: int) -> int {
    (a - b) % fp()
}

pub open spec fn f_neg(a: int) -> int {
    (-a) % fp()
}

pub open spec fn f_mul(a: int, b: int) -> int {
    (a * b) % fp()
}

/// The residue that doubles to `a`: division by two is exact in an odd-order field.
pub open spec fn f_halve(a: int) -> int {
    if a % 2 == 0 {
        a / 2
    } else {
        (a + fp()) / 2
    }
}

pub open spec fn f_pow(a: int, e: nat) -> int {
    pow(a, e) % fp()
}

/// The multiplicative inverse of `a`, as a canonical residue; meaningful only
/// when one exists, i.e. when `a % fp() != 0`.
pub open spec fn mod_inv(a: int, m: int) -> int {
    choose|x: int| 0 <= x < m && #[trigger] ((x * a) % m) == 1
}

pub open spec fn f_inv(a: int) -> int {
    mod_inv(a, fp())
}

/// Any residue that multiplies with `a` to one is the inverse: inverses are unique.
pub proof fn lemma_mod_inverse_unique(x: int, y: int, a: int, m: int)
    requires
        1 < m,
        0 <= x < m,
        0 <= y < m,
        (x * a) % m == 1,
        (y * a) % m == 1,
    ensures
        x == y,
{
    lemma_fundamental_div_mod(x * a, m);
    lemma_fundamental_div_mod(y * a, m);
    let qx = (x * a) / m;
    let qy = (y * a) / m;
    assert(x * (y * a) == x * (m * qy) + x) by {
        assert(x * (m * qy + 1) == x * (m * qy) + x) by (nonlinear_arith);
    }
    assert(y * (x * a) == y * (m * qx) + y) by {
        assert(y * (m * qx + 1) == y * (m * qx) + y) by (nonlinear_arith);
    }
    assert(x * (y * a) == y * (x * a)) by (nonlinear_arith);
    assert(x - y == m * (y * qx - x * qy)) by {
        assert(x * (m * qy) == m * (x * qy)) by (nonlinear_arith);
        assert(y * (m * qx) == m * (y * qx)) by (nonlinear_arith);
        assert(m * (y * qx) - m * (x * qy) == m * (y * qx - x * qy)) by (nonlinear_arith);
    }
    let k = y * qx - x * qy;
    assert(-m < m * k < m);
    assert(k == 0) by (nonlinear_arith)
        requires 1 < m && -m < m * k < m;
}

/// A witness pins the `choose` underlying `mod_inv` down.
pub proof fn lemma_mod_inv_is(r: int, a: int, m: int)
    requires
        1 < m,
        0 <= r < m,
        (r * a) % m == 1,
    ensures
        mod_inv(a, m) == r,
{
    assert(exists|x: int| 0 <= x < m && #[trigger] ((x * a) % m) == 1) by {
        assert(0 <= r < m && (r * a) % m == 1);
    }
    let w = choose|x: int| 0 <= x < m && #[trigger] ((x * a) % m) == 1;
    lemma_mod_inverse_unique(w, r, a, m);
}

pub fn fadd(a: u64, b: u64) -> (r: u64)
    requires
        is_elem(a),
        is_elem(b),
    ensures
        is_elem(r),
        r as int == f_add(a as int, b as int),
{
    (a + b) % FP
}

pub fn fsub(a: u64, b: u64) -> (r: u64)
    requires
        is_elem(a),
        is_elem(b),
    ensures
        is_elem(r),
        r as int == f_sub(a as int, b as int),
{
    proof {
        lemma_mod_multiples_vanish(1, a - b, fp());
    }
    (a + FP - b) % FP
}

pub fn fneg(a: u64) -> (r: u64)
    requires
        is_elem(a),
    ensures
        is_elem(r),
        r as int == f_neg(a as int),
{
    proof {
        lemma_mod_multiples_vanish(1, -(a as int), fp());
    }
    (FP - a) % FP
}

pub fn fmul(a: u64, b: u64) -> (r: u64)
    requires
        is_elem(a),
        is_elem(b),
    ensures
        is_elem(r),
        r as int == f_mul(a as int, b as int),
{
    proof {
        assert((a as int) * (b as int) < 4611686018427387904) by (nonlinear_arith)
            requires
                0 <= (a as int) < 2013265921,
                0 <= (b as int) < 2013265921,
        ;
    }
    (a * b) % FP
}

pub fn fhalve(a: u64) -> (r: u64)
    requires
        is_elem(a),
    ensures
        is_elem(r),
        r as int == f_halve(a as int),
{
    if a % 2 == 0 {
        a / 2
    } else {
        (a + FP) / 2
    }
}

/// Doubling undoes halving: the sense in which `f_halve` divides by two.
pub proof fn lemma_halve_doubles(a: int)
    requires
        0 <= a < fp(),
    ensures
        f_mul(2, f_halve(a)) == a,
{
    if a % 2 == 0 {
        lemma_small_mod((2 * (a / 2)) as nat, FP as nat);
    } else {
        assert(2 * ((a + fp()) / 2) == a + fp());
        lemma_mod_multiples_vanish(1, a, fp());
        lemma_small_mod(a as nat, FP as nat);
    }
}

pub fn fexp(a: u64, e: u64) -> (r: u64)
    requires
        is_elem(a),
    ensures
        is_elem(r),
        r as int == f_pow(a as int, e as nat),
{
    let mut cur: u64 = 1;
    let mut i: u64 = 0;
    proof {
        lemma_pow0(a as int);
        lemma_small_mod(1, FP as nat);
    }
    while i < e
        invariant
            is_elem(a),
            is_elem(cur),
            i <= e,
            cur as int == f_pow(a as int, i as nat),
        decreases e - i,
    {
        proof {
            lemma_pow_adds(a as int, i as nat, 1);
            lemma_pow1(a as int);
            lemma_mul_mod_noop_left(pow(a as int, i as nat), a as int, fp());
        }
        cur = fmul(cur, a);
        i = i + 1;
    }
    cur
}

/// `a` raised to the power 2^k, by k squarings.
pub fn fexp_pow2(a: u64, k: usize) -> (r: u64)
    requires
        is_elem(a),
    ensures
        is_elem(r),
        r as int == f_pow(a as int, pow2(k as nat)),
{
    let mut cur: u64 = a;
    let mut j: usize = 0;
    proof {
        lemma_pow0(2);
        lemma_pow1(a as int);
        lemma_small_mod(a as nat, FP as nat);
    }
    while j < k
        invariant
            is_elem(a),
            is_elem(cur),
            j <= k,
            cur as int == f_pow(a as int, pow2(j as nat)),
        decreases k - j,
    {
        proof {
            lemma_mul_mod_noop_general(
                pow(a as int, pow2(j as nat)),
                pow(a as int, pow2(j as nat)),
                fp(),
            );
            lemma_pow_adds(a as int, pow2(j as nat), pow2(j as nat));
            lemma_pow2_unfold((j + 1) as nat);
        }
        cur = fmul(cur, cur);
        j = j + 1;
    }
    cur
}

/// The sequence start, start*base, start*base^2, ... of length n:
/// the shape every twiddle table is built in.
pub fn shifted_powers(base: u64, start: u64, n: usize) -> (r: Vec<u64>)
    requires
        is_elem(base),
        is_elem(start),
    ensures
        r@.len() == n,
        forall|i: int|
            0 <= i < n ==> is_elem(#[trigger] r@[i]) && r@[i] as int == f_mul(
                start as int,
                f_pow(base as int, i as nat),
            ),
{
    let mut r: Vec<u64> = Vec::new();
    let mut cur: u64 = start;
    let mut i: usize = 0;
    proof {
        lemma_pow0(base as int);
        lemma_small_mod(1, FP as nat);
        lemma_small_mod(start as nat, FP as nat);
        assert(f_pow(base as int, 0) == 1);
        assert(f_mul(start as int, 1) == start as int);
    }
    while i < n
        invariant
            is_elem(base),
            is_elem(start),
            is_elem(cur),
            i <= n,
            r@.len() == i,
            cur as int == f_mul(start as int, f_pow(base as int, i as nat)),
            forall|j: int|
                0 <= j < i ==> is_elem(#[trigger] r@[j]) && r@[j] as int == f_mul(
                    start as int,
                    f_pow(base as int, j as nat),
                ),
        decreases n - i,
    {
        r.push(cur);
        proof {
            let p = fp();
            let pw = pow(base as int, i as nat);
            lemma_mul_mod_noop_left(start * pw, base as int, p);
            lemma_mul_mod_noop_right(start as int, pw, p);
            lemma_mul_is_associative(start as int, pw, base as int);
            lemma_pow_adds(base as int, i as nat, 1);
            lemma_pow1(base as int);
            lemma_mul_mod_noop_right(start as int, pw * (base as int), p);
        }
        cur = fmul(cur, base);
        i = i + 1;
    }
    r
}

/// Name for the subgroup generator the external field library returns for a
/// given order; it depends on the order alone.
pub uninterp spec fn two_adic_gen_val(bits: nat) -> nat;

/// Relies on `p3_field::TwoAdicField::two_adic_generator` for `BabyBear`:
/// a generator of the multiplicative subgroup of order 2^bits, so its
/// 2^bits-th power is one. Canonical form via `PrimeField32::as_canonical_u32`.
#[verifier::external_body]
pub fn two_adic_generator(bits: usize) -> (r: u64)
    requires
        bits <= FP_TWO_ADICITY,
    ensures
        is_elem(r),
        r != 0,
        r as nat == two_adic_gen_val(bits as nat),
        f_pow(r as int, pow2(bits as nat)) == 1,
{
    p3_baby_bear::BabyBear::two_adic_generator(bits).as_canonical_u32() as u64
}

/// Relies on `p3_field::Field::GENERATOR` for `BabyBear`, a generator of the
/// full multiplicative group; its defining constant is 31.
#[verifier::external_body]
pub fn multiplicative_generator() -> (r: u64)
    ensures
        is_elem(r),
        r == 31u64,
{
    p3_baby_bear::BabyBear::GENERATOR.as_canonical_u32() as u64
}

/// Relies on `p3_field::Field::inverse` for `BabyBear`: the multiplicative
/// inverse of a nonzero element (it panics on zero, which the contract excludes).
#[verifier::external_body]
pub fn finv(a: u64) -> (r: u64)
    requires
        is_elem(a),
        a != 0,
    ensures
        is_elem(r),
        (r as int * a as int) % fp() == 1,
{
    p3_baby_bear::BabyBear::new(a as u32).inverse().as_canonical_u32() as u64
}

/// Relies on `p3_field::batch_multiplicative_inverse` for `BabyBear`: the
/// multiplicative inverse of every element of a slice of nonzero elements
/// (it panics on a zero input, which the contract excludes).
#[verifier::external_body]
pub fn batch_inverse(xs: &Vec<u64>) -> (r: Vec<u64>)
    requires
        forall|i: int| 0 <= i < xs@.len() ==> is_elem(#[trigger] xs@[i]) && xs@[i] != 0,
    ensures
        r@.len() == xs@.len(),
        forall|i: int|
            0 <= i < r@.len() ==> is_elem(#[trigger] r@[i]) && (r@[i] as int * xs@[i] as int)
                % fp() == 1,
{
    let elems: Vec<p3_baby_bear::BabyBear> =
        xs.iter().map(|&x| p3_baby_bear::BabyBear::new(x as u32)).collect();
    let invs = p3_field::batch_multiplicative_inverse(&elems);
    invs.into_iter().map(|x| x.as_canonical_u32() as u64).collect()
}

/// The inverse the wrapper hands back is `f_inv` of its argument.
pub proof fn lemma_finv_char(r: int, a: int)
    requires
        0 <= r < fp(),
        (r * a) % fp() == 1,
    ensures
        f_inv(a) == r,
{
    lemma_mod_inv_is(r, a, fp());
}

} // verus!
