//! The per-round folding primitive: a random affine combination that halves
//! an evaluation vector, in its two variants. The circle-domain variant
//! draws its twiddles from coordinates of points on the unit circle over the
//! Mersenne prime field; the univariate variant, used by the two-adic FRI
//! rounds, draws them from the coset's own points.
use vstd::prelude::*;
use vstd::arithmetic::power2::pow2;
use crate::field::{mod_inv, lemma_mod_inv_is};
use crate::matrix::FpMatrix;
use crate::bitrev::{
    circle_bitrev_spec, circle_bitrev_idx, log2_strict, bitrev_spec, lemma_bitrev_bound,
};
use p3_field::{Field, PrimeField32};
use p3_field::extension::ComplexExtendable;

verus! {

/// The Mersenne prime 2^31 - 1: the circle group lives over this field.
pub const MP: u64 = 2147483647;

pub open spec fn mp() -> int {
    MP as int
}

pub open spec fn is_m31(a: u64) -> bool {
    a < MP
}

pub open spec fn m_add(a: int, b: int) -> int {
    (a + b) % mp()
}

pub open spec fn m_sub(a: int, b: int) -> int {
    (a - b) % mp()
}

pub open spec fn m_mul(a: int, b: int) -> int {
    (a * b) % mp()
}

pub open spec fn m_halve(a: int) -> int {
    if a % 2 == 0 {
        a / 2
    } else {
        (a + mp()) / 2
    }
}

pub open spec fn m_inv(a: int) -> int {
    mod_inv(a, mp())
}

pub fn madd(a: u64, b: u64) -> (r: u64)
    requires
        is_m31(a),
        is_m31(b),
    ensures
        is_m31(r),
        r as int == m_add(a as int, b as int),
{
    (a + b) % MP
}

pub fn msub(a: u64, b: u64) -> (r: u64)
    requires
        is_m31(a),
        is_m31(b),
    ensures
        is_m31(r),
        r as int == m_sub(a as int, b as int),
{
    proof {
        vstd::arithmetic::div_mod::lemma_mod_multiples_vanish(1, a - b, mp());
    }
    (a + MP - b) % MP
}

pub fn mmul(a: u64, b: u64) -> (r: u64)
    requires
        is_m31(a),
        is_m31(b),
    ensures
        is_m31(r),
        r as int == m_mul(a as int, b as int),
{
    proof {
        assert((a as int) * (b as int) < 4611686018427387904) by (nonlinear_arith)
            requires
                0 <= (a as int) < 2147483648,
                0 <= (b as int) < 2147483648,
        ;
    }
    (a * b) % MP
}

pub fn mhalve(a: u64) -> (r: u64)
    requires
        is_m31(a),
    ensures
        is_m31(r),
        r as int == m_halve(a as int),
{
    if a % 2 == 0 {
        a / 2
    } else {
        (a + MP) / 2
    }
}

/// A point of the circle group: a unit-norm value of the degree-two
/// extension, held as its real and imaginary coordinates.
pub open spec fn cmul_s(a: (int, int), b: (int, int)) -> (int, int) {
    (m_sub(m_mul(a.0, b.0), m_mul(a.1, b.1)), m_add(m_mul(a.0, b.1), m_mul(a.1, b.0)))
}

/// Repeated rotation: the k-th power of a circle point.
pub open spec fn cpow(a: (int, int), e: nat) -> (int, int)
    decreases e,
{
    if e == 0 {
        (1int, 0int)
    } else {
        cmul_s(a, cpow(a, (e - 1) as nat))
    }
}

pub fn cmul(a: (u64, u64), b: (u64, u64)) -> (r: (u64, u64))
    requires
        is_m31(a.0) && is_m31(a.1) && is_m31(b.0) && is_m31(b.1),
    ensures
        is_m31(r.0) && is_m31(r.1),
        (r.0 as int, r.1 as int) == cmul_s((a.0 as int, a.1 as int), (b.0 as int, b.1 as int)),
{
    let re = msub(mmul(a.0, b.0), mmul(a.1, b.1));
    let im = madd(mmul(a.0, b.1), mmul(a.1, b.0));
    (re, im)
}

/// The k-th power of a circle point, by repeated rotation.
pub fn cexp(a: (u64, u64), e: u64) -> (r: (u64, u64))
    requires
        is_m31(a.0) && is_m31(a.1),
    ensures
        is_m31(r.0) && is_m31(r.1),
        (r.0 as int, r.1 as int) == cpow((a.0 as int, a.1 as int), e as nat),
{
    let mut cur: (u64, u64) = (1, 0);
    let mut i: u64 = 0;
    while i < e
        invariant
            is_m31(a.0) && is_m31(a.1),
            is_m31(cur.0) && is_m31(cur.1),
            i <= e,
            (cur.0 as int, cur.1 as int) == cpow((a.0 as int, a.1 as int), i as nat),
        decreases e - i,
    {
        cur = cmul(a, cur);
        i = i + 1;
    }
    cur
}

/// Name for the circle-group generator the external field library returns
/// for a given order; it depends on the order alone.
pub uninterp spec fn circle_gen_val(bits: nat) -> (nat, nat);

/// Relies on `ComplexExtendable::circle_two_adic_generator` for
/// `Mersenne31`: the generator of the circle group of order 2^bits, as its
/// real and imaginary coordinates in canonical form.
#[verifier::external_body]
pub fn circle_generator(bits: usize) -> (r: (u64, u64))
    requires
        bits <= 31,
    ensures
        is_m31(r.0) && is_m31(r.1),
        (r.0 as nat, r.1 as nat) == circle_gen_val(bits as nat),
{
    let g = p3_mersenne_31::Mersenne31::circle_two_adic_generator(bits);
    (g.real().as_canonical_u32() as u64, g.imag().as_canonical_u32() as u64)
}

/// Relies on `p3_field::batch_multiplicative_inverse` for `Mersenne31`: the
/// inverse of every element of a slice of nonzero elements (it panics on a
/// zero input, which the contract excludes).
#[verifier::external_body]
pub fn m31_batch_inverse(xs: &Vec<u64>) -> (r: Vec<u64>)
    requires
        forall|i: int| 0 <= i < xs@.len() ==> is_m31(#[trigger] xs@[i]) && xs@[i] != 0,
    ensures
        r@.len() == xs@.len(),
        forall|i: int|
            0 <= i < r@.len() ==> is_m31(#[trigger] r@[i]) && (r@[i] as int * xs@[i] as int)
                % mp() == 1,
{
    let elems: Vec<p3_mersenne_31::Mersenne31> =
        xs.iter().map(|&x| p3_mersenne_31::Mersenne31::new(x as u32)).collect();
    let invs = p3_field::batch_multiplicative_inverse(&elems);
    invs.into_iter().map(|x| x.as_canonical_u32() as u64).collect()
}

/// Relies on `p3_field::Field::inverse` for `Mersenne31`: the inverse of a
/// nonzero element (it panics on zero, which the contract excludes).
#[verifier::external_body]
pub fn m31_inverse(a: u64) -> (r: u64)
    requires
        is_m31(a),
        a != 0,
    ensures
        is_m31(r),
        (r as int * a as int) % mp() == 1,
{
    p3_mersenne_31::Mersenne31::new(a as u32).inverse().as_canonical_u32() as u64
}

/// The k-th point of the standard-position circle domain of log size n:
/// the coset of the order-2^n subgroup shifted by a generator of twice
/// that order.
pub open spec fn circle_point(n: nat, k: nat) -> (int, int) {
    cmul_s(
        (circle_gen_val((n + 1) as nat).0 as int, circle_gen_val((n + 1) as nat).1 as int),
        cpow((circle_gen_val(n).0 as int, circle_gen_val(n).1 as int), k),
    )
}

/// One fold step: interpolate the two preimages (lo, hi) as a degree-one
/// polynomial in the coset coordinate with inverse point t, and evaluate
/// the random challenge beta on it.
pub open spec fn fold_row_formula(lo: int, hi: int, beta: int, t: int) -> int {
    m_halve(m_add(m_add(lo, hi), m_mul(beta, m_mul(m_sub(lo, hi), t))))
}

/// Rows hold canonical Mersenne-31 residues.
pub open spec fn m31_mat(m: &FpMatrix) -> bool {
    &&& forall|i: int|
        0 <= i < m.rows@.len() ==> (#[trigger] m.rows@[i])@.len() == m.width
    &&& forall|i: int, j: int|
        0 <= i < m.rows@.len() && 0 <= j < m.width ==> (#[trigger] m.rows@[i]@[j]) < MP
}

/// Folds every row pair of a two-column matrix with its twiddle.
pub fn fold(evals: &FpMatrix, beta: u64, twiddles: &Vec<u64>) -> (r: Vec<u64>)
    requires
        m31_mat(evals),
        evals.width == 2,
        is_m31(beta),
        twiddles@.len() == evals.height(),
        forall|i: int| 0 <= i < twiddles@.len() ==> is_m31(#[trigger] twiddles@[i]),
    ensures
        r@.len() == evals.height(),
        forall|i: int|
            0 <= i < r@.len() ==> is_m31(#[trigger] r@[i]) && r@[i] as int == fold_row_formula(
                evals.rows@[i]@[0] as int,
                evals.rows@[i]@[1] as int,
                beta as int,
                twiddles@[i] as int,
            ),
{
    let n = evals.rows.len();
    let mut r: Vec<u64> = Vec::new();
    let mut i: usize = 0;
    while i < n
        invariant
            m31_mat(evals),
            evals.width == 2,
            is_m31(beta),
            n == evals.height(),
            twiddles@.len() == evals.height(),
            forall|k: int| 0 <= k < twiddles@.len() ==> is_m31(#[trigger] twiddles@[k]),
            i <= n,
            r@.len() == i,
            forall|k: int|
                0 <= k < i ==> is_m31(#[trigger] r@[k]) && r@[k] as int == fold_row_formula(
                    evals.rows@[k]@[0] as int,
                    evals.rows@[k]@[1] as int,
                    beta as int,
                    twiddles@[k] as int,
                ),
        decreases n - i,
    {
        let lo = evals.rows[i][0];
        let hi = evals.rows[i][1];
        let sum = madd(lo, hi);
        let diff = mmul(msub(lo, hi), twiddles[i]);
        let v = mhalve(madd(sum, mmul(beta, diff)));
        r.push(v);
        i = i + 1;
    }
    r
}

/// The twiddles for a circle fold: the inverse of one coordinate of each
/// domain point, read in circle-bit-reversed order. `imag` selects the
/// imaginary coordinate (the first, bivariate round) over the real one.
pub open spec fn circle_fold_twiddle(n: nat, bits: nat, i: nat, imag: bool) -> int {
    let p = circle_point(n, circle_bitrev_spec(i, bits));
    if imag {
        m_inv(p.1)
    } else {
        m_inv(p.0)
    }
}

/// The selected coordinates of the first h domain points, in circle
/// bit-reversed order; `None` when some coordinate is zero and its inverse
/// does not exist (no standard-position point has one).
fn circle_coords(n: usize, bits: usize, h: usize, imag: bool) -> (r: Option<Vec<u64>>)
    requires
        n + 1 <= 31,
        bits <= 31,
        h as nat <= pow2(bits as nat),
    ensures
        match r {
            Some(v) => v@.len() == h && forall|i: int|
                0 <= i < h ==> is_m31(#[trigger] v@[i]) && v@[i] != 0 && v@[i] as int == (
                if imag {
                    circle_point(n as nat, circle_bitrev_spec(i as nat, bits as nat)).1
                } else {
                    circle_point(n as nat, circle_bitrev_spec(i as nat, bits as nat)).0
                }),
            None => exists|i: int|
                0 <= i < h && (if imag {
                    (#[trigger] circle_point(n as nat, circle_bitrev_spec(i as nat, bits as nat))).1
                } else {
                    circle_point(n as nat, circle_bitrev_spec(i as nat, bits as nat)).0
                }) == 0,
        },
{
    let shift = circle_generator(n + 1);
    let g = circle_generator(n);
    let mut v: Vec<u64> = Vec::new();
    let mut i: usize = 0;
    while i < h
        invariant
            n + 1 <= 31,
            bits <= 31,
            h as nat <= pow2(bits as nat),
            is_m31(shift.0) && is_m31(shift.1),
            is_m31(g.0) && is_m31(g.1),
            (shift.0 as nat, shift.1 as nat) == circle_gen_val((n + 1) as nat),
            (g.0 as nat, g.1 as nat) == circle_gen_val(n as nat),
            i <= h,
            v@.len() == i,
            forall|k: int|
                0 <= k < i ==> is_m31(#[trigger] v@[k]) && v@[k] != 0 && v@[k] as int == (
                if imag {
                    circle_point(n as nat, circle_bitrev_spec(k as nat, bits as nat)).1
                } else {
                    circle_point(n as nat, circle_bitrev_spec(k as nat, bits as nat)).0
                }),
        decreases h - i,
    {
        let idx = circle_bitrev_idx(i, bits);
        let p = cmul(shift, cexp(g, idx as u64));
        let c = if imag {
            p.1
        } else {
            p.0
        };
        if c == 0 {
            proof {
                let wi: int = i as int;
                assert((if imag {
                    circle_point(n as nat, circle_bitrev_spec(wi as nat, bits as nat)).1
                } else {
                    circle_point(n as nat, circle_bitrev_spec(wi as nat, bits as nat)).0
                }) == 0);
                assert(exists|i2: int|
                    0 <= i2 < h && (if imag {
                        (#[trigger] circle_point(
                            n as nat,
                            circle_bitrev_spec(i2 as nat, bits as nat),
                        )).1
                    } else {
                        circle_point(n as nat, circle_bitrev_spec(i2 as nat, bits as nat)).0
                    }) == 0);
            }
            return None;
        }
        v.push(c);
        i = i + 1;
    }
    Some(v)
}

/// Inverts a vector of nonzero coordinates, pinning each entry to `m_inv`.
fn invert_coords(v: &Vec<u64>) -> (r: Vec<u64>)
    requires
        forall|i: int| 0 <= i < v@.len() ==> is_m31(#[trigger] v@[i]) && v@[i] != 0,
    ensures
        r@.len() == v@.len(),
        forall|i: int|
            0 <= i < r@.len() ==> is_m31(#[trigger] r@[i]) && r@[i] as int == m_inv(v@[i] as int),
{
    let r = m31_batch_inverse(v);
    proof {
        assert forall|i: int| 0 <= i < r@.len() implies is_m31(#[trigger] r@[i]) && r@[i] as int
            == m_inv(v@[i] as int) by {
            lemma_mod_inv_is(r@[i] as int, v@[i] as int, mp());
        }
    }
    r
}

/// The bivariate reduction is possible: the height is a supported power of
/// two and no needed imaginary coordinate vanishes.
pub open spec fn bivariate_fold_possible(h: nat) -> bool {
    exists|bits: nat|
        bits <= 28 && h == pow2(bits) && (forall|i: int|
            0 <= i < h ==> (#[trigger] circle_point(
                (bits + 1) as nat,
                circle_bitrev_spec(i as nat, bits),
            )).1 != 0)
}

/// The later-round matrix fold is possible: the height is a supported power
/// of two and no needed real coordinate vanishes.
pub open spec fn matrix_fold_possible(h: nat) -> bool {
    exists|bits: nat|
        bits <= 28 && h == pow2(bits) && (forall|i: int|
            0 <= i < h ==> (#[trigger] circle_point(
                (bits + 2) as nat,
                circle_bitrev_spec(i as nat, bits),
            )).0 != 0)
}

/// The initial bivariate reduction: fold with the inverse imaginary
/// coordinates of the domain one size up, in circle bit-reversed order.
/// `None` only if the height is no supported power of two or a coordinate
/// has no inverse.
pub fn fold_bivariate(evals: &FpMatrix, beta: u64) -> (r: Option<Vec<u64>>)
    requires
        m31_mat(evals),
        evals.width == 2,
        is_m31(beta),
    ensures
        (match r {
            Some(v) => v@.len() == evals.height() && exists|bits: nat|
                bits <= 28 && evals.height() == pow2(bits) && (forall|i: int|
                    0 <= i < v@.len() ==> (#[trigger] v@[i]) as int == fold_row_formula(
                        evals.rows@[i]@[0] as int,
                        evals.rows@[i]@[1] as int,
                        beta as int,
                        circle_fold_twiddle((bits + 1) as nat, bits, i as nat, true),
                    )),
            None => !bivariate_fold_possible(evals.height()),
        }),
{
    let h = evals.rows.len();
    let bits = match log2_strict(h) {
        Some(b) => b,
        None => {
            proof {
                if bivariate_fold_possible(evals.height()) {
                    let b0 = choose|b0: nat| b0 <= 28 && evals.height() == pow2(b0);
                    assert(evals.height() != pow2(b0));
                }
            }
            return None;
        },
    };
    if bits > 28 {
        proof {
            if bivariate_fold_possible(evals.height()) {
                let b0 = choose|b0: nat| b0 <= 28 && evals.height() == pow2(b0);
                crate::dft::lemma_pow2_injective(b0, bits as nat);
            }
        }
        return None;
    }
    let coords = match circle_coords(bits + 1, bits, h, true) {
        Some(c) => c,
        None => {
            proof {
                if bivariate_fold_possible(evals.height()) {
                    let b0 = choose|b0: nat|
                        b0 <= 28 && evals.height() == pow2(b0) && (forall|i: int|
                            0 <= i < evals.height() ==> (#[trigger] circle_point(
                                (b0 + 1) as nat,
                                circle_bitrev_spec(i as nat, b0),
                            )).1 != 0);
                    crate::dft::lemma_pow2_injective(b0, bits as nat);
                    let i0 = choose|i0: int|
                        0 <= i0 < h && (#[trigger] circle_point(
                            (bits + 1) as nat,
                            circle_bitrev_spec(i0 as nat, bits as nat),
                        )).1 == 0;
                    assert((circle_point(
                        (b0 + 1) as nat,
                        circle_bitrev_spec(i0 as nat, b0),
                    )).1 != 0);
                }
            }
            return None;
        },
    };
    let twiddles = invert_coords(&coords);
    let out = fold(evals, beta, &twiddles);
    proof {
        assert(evals.height() == pow2(bits as nat));
        assert forall|i: int| 0 <= i < out@.len() implies (#[trigger] out@[i]) as int
            == fold_row_formula(
            evals.rows@[i]@[0] as int,
            evals.rows@[i]@[1] as int,
            beta as int,
            circle_fold_twiddle((bits + 1) as nat, bits as nat, i as nat, true),
        ) by {
            assert(twiddles@[i] as int == m_inv(coords@[i] as int));
        }
    }
    Some(out)
}

/// The folder for the circle-domain rounds: it keeps the bivariate-round
/// challenge and folds later rounds along the real coordinate.
pub struct CircleFriFolder {
    pub bivariate_beta: u64,
}

impl CircleFriFolder {
    pub fn new(bivariate_beta: u64) -> (r: CircleFriFolder)
        ensures
            r.bivariate_beta == bivariate_beta,
    {
        CircleFriFolder { bivariate_beta }
    }

    /// Folds a single row pair at a bit-reversed position, deriving its
    /// twiddle from the real coordinate of the matching domain point.
    /// Agrees with `fold_matrix` entry by entry: both produce
    /// `fold_row_formula` with the twiddle `circle_fold_twiddle(log_height
    /// + 2, log_height, index, false)`.
    pub fn fold_row(index: usize, log_height: usize, beta: u64, evals: &Vec<u64>) -> (r: Option<
        u64,
    >)
        requires
            log_height + 3 <= 31,
            index < pow2(log_height as nat),
            evals@.len() == 2,
            is_m31(evals@[0]) && is_m31(evals@[1]),
            is_m31(beta),
        ensures
            (match r {
                Some(v) => v as int == fold_row_formula(
                    evals@[0] as int,
                    evals@[1] as int,
                    beta as int,
                    circle_fold_twiddle((log_height + 2) as nat, log_height as nat, index as nat, false),
                ),
                None => circle_point(
                    (log_height + 2) as nat,
                    circle_bitrev_spec(index as nat, log_height as nat),
                ).0 == 0,
            }),
    {
        let shift = circle_generator(log_height + 3);
        let g = circle_generator(log_height + 2);
        let orig_idx = circle_bitrev_idx(index, log_height);
        let p = cmul(shift, cexp(g, orig_idx as u64));
        if p.0 == 0 {
            return None;
        }
        let t = m31_inverse(p.0);
        proof {
            lemma_mod_inv_is(t as int, p.0 as int, mp());
        }
        let lo = evals[0];
        let hi = evals[1];
        let sum = madd(lo, hi);
        let diff = mmul(msub(lo, hi), t);
        Some(mhalve(madd(sum, mmul(beta, diff))))
    }

    /// Folds a whole two-column matrix: row i gets the twiddle drawn from
    /// the real coordinate of the domain point at circle-bit-reversed
    /// position i, exactly as `fold_row` derives it for that row.
    pub fn fold_matrix(beta: u64, m: &FpMatrix) -> (r: Option<Vec<u64>>)
        requires
            m31_mat(m),
            m.width == 2,
            is_m31(beta),
        ensures
            (match r {
                Some(v) => v@.len() == m.height() && exists|bits: nat|
                    bits <= 28 && m.height() == pow2(bits) && (forall|i: int|
                        0 <= i < v@.len() ==> (#[trigger] v@[i]) as int == fold_row_formula(
                            m.rows@[i]@[0] as int,
                            m.rows@[i]@[1] as int,
                            beta as int,
                            circle_fold_twiddle((bits + 2) as nat, bits, i as nat, false),
                        )),
                None => !matrix_fold_possible(m.height()),
            }),
    {
        let h = m.rows.len();
        let bits = match log2_strict(h) {
            Some(b) => b,
            None => {
                proof {
                    if matrix_fold_possible(m.height()) {
                        let b0 = choose|b0: nat| b0 <= 28 && m.height() == pow2(b0);
                        assert(m.height() != pow2(b0));
                    }
                }
                return None;
            },
        };
        if bits > 28 {
            proof {
                if matrix_fold_possible(m.height()) {
                    let b0 = choose|b0: nat| b0 <= 28 && m.height() == pow2(b0);
                    crate::dft::lemma_pow2_injective(b0, bits as nat);
                }
            }
            return None;
        }
        let coords = match circle_coords(bits + 2, bits, h, false) {
            Some(c) => c,
            None => {
                proof {
                    if matrix_fold_possible(m.height()) {
                        let b0 = choose|b0: nat|
                            b0 <= 28 && m.height() == pow2(b0) && (forall|i: int|
                                0 <= i < m.height() ==> (#[trigger] circle_point(
                                    (b0 + 2) as nat,
                                    circle_bitrev_spec(i as nat, b0),
                                )).0 != 0);
                        crate::dft::lemma_pow2_injective(b0, bits as nat);
                        let i0 = choose|i0: int|
                            0 <= i0 < h && (#[trigger] circle_point(
                                (bits + 2) as nat,
                                circle_bitrev_spec(i0 as nat, bits as nat),
                            )).0 == 0;
                        assert((circle_point(
                            (b0 + 2) as nat,
                            circle_bitrev_spec(i0 as nat, b0),
                        )).0 != 0);
                    }
                }
                return None;
            },
        };
        let twiddles = invert_coords(&coords);
        let out = fold(m, beta, &twiddles);
        proof {
            assert(m.height() == pow2(bits as nat));
            assert forall|i: int| 0 <= i < out@.len() implies (#[trigger] out@[i]) as int
                == fold_row_formula(
                m.rows@[i]@[0] as int,
                m.rows@[i]@[1] as int,
                beta as int,
                circle_fold_twiddle((bits + 2) as nat, bits as nat, i as nat, false),
            ) by {
                assert(twiddles@[i] as int == m_inv(coords@[i] as int));
            }
        }
        Some(out)
    }

    /// Adds a later polynomial into the running accumulator at its height:
    /// plain element-wise addition, no renormalization.
    pub fn mix_in(&self, _index: usize, _log_height: usize, current: &mut u64, new: u64)
        requires
            is_m31(*old(current)),
            is_m31(new),
        ensures
            is_m31(*final(current)),
            *final(current) as int == m_add(*old(current) as int, new as int),
    {
        *current = madd(*current, new);
    }
}


/// The domain point a univariate fold pairs row i with: the coset point at
/// bit-reversed position 2i of the double-height domain.
pub open spec fn fri_point(lh: nat, shift: u64, i: nat) -> int {
    crate::field::f_mul(
        shift as int,
        crate::field::f_pow(
            crate::field::two_adic_gen_val((lh + 1) as nat) as int,
            bitrev_spec(2 * i, (lh + 1) as nat),
        ),
    )
}

/// A fold of this height and shift is possible: the height is a supported
/// power of two and every paired domain point has an inverse.
pub open spec fn fold_possible(h: nat, shift: u64) -> bool {
    exists|lh: nat|
        lh <= 26 && h == pow2(lh) && (forall|i: int|
            0 <= i < h ==> #[trigger] fri_point(lh, shift, i as nat) != 0)
}

/// The inverse domain point a univariate fold reads for row pair i: the
/// coset point standing at bit-reversed position 2i of the double-height
/// domain, inverted.
pub open spec fn fri_twiddle(lh: nat, shift: u64, i: nat) -> int {
    crate::field::f_inv(fri_point(lh, shift, i))
}

/// The univariate fold step, over the two-adic engine's field.
pub open spec fn fold_row_univariate(lo: int, hi: int, beta: int, t: int) -> int {
    crate::field::f_halve(
        crate::field::f_add(
            crate::field::f_add(lo, hi),
            crate::field::f_mul(beta, crate::field::f_mul(crate::field::f_sub(lo, hi), t)),
        ),
    )
}

/// Folds a round's evaluation vector, held as row pairs in bit-reversed
/// order over the coset shift*H: each pair is interpolated as a degree-one
/// polynomial and the challenge evaluated on it, halving the height. The
/// folded vector lives on the squared coset in the same layout. `None`
/// only for an unsupported height or a domain point without an inverse.
pub fn fold_univariate(evals: &FpMatrix, beta: u64, shift: u64) -> (r: Option<Vec<u64>>)
    requires
        evals.wf(),
        evals.width == 2,
        crate::field::is_elem(beta),
        crate::field::is_elem(shift),
    ensures
        (match r {
            Some(v) => v@.len() == evals.height() && exists|lh: nat|
                lh <= 26 && evals.height() == pow2(lh) && (forall|i: int|
                    0 <= i < v@.len() ==> (#[trigger] v@[i]) as int == fold_row_univariate(
                        evals.rows@[i]@[0] as int,
                        evals.rows@[i]@[1] as int,
                        beta as int,
                        fri_twiddle(lh, shift, i as nat),
                    )),
            None => !fold_possible(evals.height(), shift),
        }),
{
    let h = evals.rows.len();
    let lh = match log2_strict(h) {
        Some(b) => b,
        None => {
            proof {
                assert(!fold_possible(evals.height(), shift)) by {
                    if fold_possible(evals.height(), shift) {
                        let lh0 = choose|lh0: nat|
                            lh0 <= 26 && evals.height() == pow2(lh0) && (forall|i: int|
                                0 <= i < evals.height() ==> #[trigger] fri_point(
                                    lh0,
                                    shift,
                                    i as nat,
                                ) != 0);
                        assert(evals.height() != pow2(lh0));
                    }
                }
            }
            return None;
        },
    };
    if lh > 26 {
        proof {
            assert(!fold_possible(evals.height(), shift)) by {
                if fold_possible(evals.height(), shift) {
                    let lh0 = choose|lh0: nat|
                        lh0 <= 26 && evals.height() == pow2(lh0) && (forall|i: int|
                            0 <= i < evals.height() ==> #[trigger] fri_point(lh0, shift, i as nat)
                                != 0);
                    crate::dft::lemma_pow2_injective(lh0, lh as nat);
                }
            }
        }
        return None;
    }
    let g = crate::field::two_adic_generator(lh + 1);
    proof {
        vstd::arithmetic::power2::lemma_pow2_unfold((lh + 1) as nat);
        vstd::arithmetic::power2::lemma2_to64();
        if (lh as nat) < 26 {
            vstd::arithmetic::power2::lemma_pow2_strictly_increases(lh as nat, 26);
        }
    }
    let pts = crate::field::shifted_powers(g, shift, 2 * h);
    let perm = crate::bitrev::bitrev_permute_vals(&pts, lh + 1);
    proof {
        assert forall|k: int|
            0 <= k < h implies crate::field::is_elem(#[trigger] perm@[2 * k]) && perm@[2 * k]
            as int == crate::field::f_mul(
            shift as int,
            crate::field::f_pow(
                crate::field::two_adic_gen_val((lh + 1) as nat) as int,
                bitrev_spec((2 * k) as nat, (lh + 1) as nat),
            ),
        ) by {
            lemma_bitrev_bound((2 * k) as nat, (lh + 1) as nat);
            assert(perm@[2 * k] == pts@[bitrev_spec((2 * k) as nat, (lh + 1) as nat) as int]);
        }
    }
    let mut coords: Vec<u64> = Vec::new();
    let mut i: usize = 0;
    while i < h
        invariant
            h == evals.height(),
            h as nat == pow2(lh as nat),
            h <= 0x4000000,
            lh <= 26,
            perm@.len() == 2 * h,
            forall|k: int|
                0 <= k < h ==> crate::field::is_elem(#[trigger] perm@[2 * k]) && perm@[2 * k]
                    as int == crate::field::f_mul(
                    shift as int,
                    crate::field::f_pow(
                        crate::field::two_adic_gen_val((lh + 1) as nat) as int,
                        bitrev_spec((2 * k) as nat, (lh + 1) as nat),
                    ),
                ),
            i <= h,
            coords@.len() == i,
            forall|k: int|
                0 <= k < i ==> crate::field::is_elem(#[trigger] coords@[k]) && coords@[k] != 0
                    && coords@[k] == perm@[2 * k],
        decreases h - i,
    {
        let c = perm[2 * i];
        if c == 0 {
            proof {
                assert(fri_point(lh as nat, shift, i as nat) == 0);
                assert(!fold_possible(evals.height(), shift)) by {
                    if fold_possible(evals.height(), shift) {
                        let lh0 = choose|lh0: nat|
                            lh0 <= 26 && evals.height() == pow2(lh0) && (forall|i2: int|
                                0 <= i2 < evals.height() ==> #[trigger] fri_point(
                                    lh0,
                                    shift,
                                    i2 as nat,
                                ) != 0);
                        crate::dft::lemma_pow2_injective(lh0, lh as nat);
                        let wi: int = i as int;
                        assert(0 <= wi < evals.height());
                        assert(fri_point(lh0, shift, wi as nat) != 0);
                        assert(wi as nat == i as nat);
                    }
                }
            }
            return None;
        }
        coords.push(c);
        i = i + 1;
    }
    let invs = crate::field::batch_inverse(&coords);
    proof {
        assert forall|k: int| 0 <= k < invs@.len() implies (#[trigger] invs@[k]) as int
            == fri_twiddle(lh as nat, shift, k as nat) by {
            crate::field::lemma_finv_char(invs@[k] as int, coords@[k] as int);
        }
    }
    let mut out: Vec<u64> = Vec::new();
    let mut j: usize = 0;
    while j < h
        invariant
            evals.wf(),
            evals.width == 2,
            crate::field::is_elem(beta),
            h == evals.height(),
            h as nat == pow2(lh as nat),
            lh <= 26,
            invs@.len() == h,
            forall|k: int|
                0 <= k < h ==> crate::field::is_elem(#[trigger] invs@[k]) && invs@[k] as int
                    == fri_twiddle(lh as nat, shift, k as nat),
            j <= h,
            out@.len() == j,
            forall|k: int|
                0 <= k < j ==> crate::field::is_elem(#[trigger] out@[k]) && out@[k] as int
                    == fold_row_univariate(
                    evals.rows@[k]@[0] as int,
                    evals.rows@[k]@[1] as int,
                    beta as int,
                    fri_twiddle(lh as nat, shift, k as nat),
                ),
        decreases h - j,
    {
        let lo = evals.rows[j][0];
        let hi = evals.rows[j][1];
        let sum = crate::field::fadd(lo, hi);
        let diff = crate::field::fmul(crate::field::fsub(lo, hi), invs[j]);
        let v = crate::field::fhalve(crate::field::fadd(sum, crate::field::fmul(beta, diff)));
        out.push(v);
        j = j + 1;
    }
    Some(out)
}

} // verus!
