//! Coset-barycentric evaluation: given the values of a polynomial batch over
//! a coset shift*H in natural order, evaluate every column at one point
//! outside the coset, without interpolating coefficients.
use vstd::prelude::*;
use vstd::arithmetic::power2::pow2;
use crate::field::{
    FP, f_add, f_sub, f_mul, f_pow, f_inv, is_elem, fadd, fsub, fmul, fexp_pow2, finv,
    shifted_powers, batch_inverse, two_adic_generator, two_adic_gen_val, lemma_finv_char,
};
use crate::matrix::FpMatrix;
use crate::bitrev::log2_strict;

verus! {

/// The k-th point of the coset shift*H of log size log_n.
pub open spec fn coset_point(log_n: nat, shift: u64, k: nat) -> int {
    f_mul(shift as int, f_pow(two_adic_gen_val(log_n) as int, k))
}

/// The running sum over the first k rows of column `col`, each row's value
/// weighted by its barycentric column scale.
pub open spec fn bary_dot(m: Seq<Seq<u64>>, cs: Seq<u64>, col: int, k: int) -> int
    decreases k,
{
    if k <= 0 {
        0
    } else {
        f_add(bary_dot(m, cs, col, k - 1), f_mul(cs[k - 1] as int, m[k - 1][col] as int))
    }
}

/// The scale of row k: (coset point k) / (z - coset point k).
pub open spec fn bary_col_scale(log_n: nat, shift: u64, z: u64, k: nat) -> int {
    f_mul(f_inv(f_sub(z as int, coset_point(log_n, shift, k))), coset_point(log_n, shift, k))
}

/// The factor (z^N - shift^N) / (N * shift^N) completing the barycentric sum.
pub open spec fn bary_scaling(log_n: nat, shift: u64, z: u64) -> int {
    f_mul(
        f_sub(f_pow(z as int, pow2(log_n)), f_pow(shift as int, pow2(log_n))),
        f_inv(f_mul(f_pow(shift as int, pow2(log_n)), pow2(log_n) as int)),
    )
}

/// Interpolation at z is possible: the height is a supported power of two,
/// z avoids every coset point, and the barycentric denominator N * shift^N
/// has an inverse.
pub open spec fn interpolation_possible(h: nat, shift: u64, z: u64) -> bool {
    exists|log_n: nat|
        log_n <= 26 && h == pow2(log_n) && (forall|k: int|
            0 <= k < h ==> f_sub(z as int, #[trigger] coset_point(log_n, shift, k as nat)) != 0)
            && f_mul(f_pow(shift as int, pow2(log_n)), pow2(log_n) as int) != 0
}

/// The value of column `col` at z by the coset-barycentric formula.
pub open spec fn interpolate_spec(
    m: Seq<Seq<u64>>,
    log_n: nat,
    shift: u64,
    z: u64,
    col: int,
) -> int {
    f_mul(
        bary_scaling(log_n, shift, z),
        bary_dot(
            m,
            Seq::new(m.len(), |k: int| bary_col_scale(log_n, shift, z, k as nat) as u64),
            col,
            m.len() as int,
        ),
    )
}

/// Evaluates every column of a natural-order coset evaluation matrix at z.
/// `None` when the height is no supported power of two, when z lies on the
/// coset (a denominator vanishes), or when the shift raised to the height
/// is zero (a degenerate shift).
pub fn interpolate_coset(coset_evals: &FpMatrix, shift: u64, z: u64) -> (r: Option<Vec<u64>>)
    requires
        coset_evals.wf(),
        is_elem(shift),
        is_elem(z),
    ensures
        (match r {
            Some(v) => v@.len() == coset_evals.width && exists|log_n: nat|
                log_n <= 26 && coset_evals.height() == pow2(log_n) && (forall|col: int|
                    0 <= col < v@.len() ==> (#[trigger] v@[col]) as int == interpolate_spec(
                        coset_evals.view_rows(),
                        log_n,
                        shift,
                        z,
                        col,
                    )),
            None => !interpolation_possible(coset_evals.height(), shift, z),
        }),
{
    let n = coset_evals.rows.len();
    let log_n = match log2_strict(n) {
        Some(b) => b,
        None => {
            proof {
                if interpolation_possible(coset_evals.height(), shift, z) {
                    let l0 = choose|l0: nat| l0 <= 26 && coset_evals.height() == pow2(l0);
                    assert(coset_evals.height() != pow2(l0));
                }
            }
            return None;
        },
    };
    if log_n > 26 {
        proof {
            if interpolation_possible(coset_evals.height(), shift, z) {
                let l0 = choose|l0: nat| l0 <= 26 && coset_evals.height() == pow2(l0);
                crate::dft::lemma_pow2_injective(l0, log_n as nat);
            }
        }
        return None;
    }
    let g = two_adic_generator(log_n);
    let pts = shifted_powers(g, shift, n);
    let mut diffs: Vec<u64> = Vec::new();
    let mut i: usize = 0;
    while i < n
        invariant
            is_elem(z),
            n == coset_evals.height(),
            n as nat == pow2(log_n as nat),
            log_n <= 26,
            n == pts@.len(),
            forall|k: int| 0 <= k < n ==> is_elem(#[trigger] pts@[k]),
            forall|k: int|
                0 <= k < n ==> (#[trigger] pts@[k]) as int == coset_point(
                    log_n as nat,
                    shift,
                    k as nat,
                ),
            i <= n,
            diffs@.len() == i,
            forall|k: int|
                0 <= k < i ==> is_elem(#[trigger] diffs@[k]) && diffs@[k] != 0 && diffs@[k]
                    as int == f_sub(z as int, pts@[k] as int),
        decreases n - i,
    {
        let d = fsub(z, pts[i]);
        if d == 0 {
            proof {
                if interpolation_possible(coset_evals.height(), shift, z) {
                    let l0 = choose|l0: nat|
                        l0 <= 26 && coset_evals.height() == pow2(l0) && (forall|k: int|
                            0 <= k < coset_evals.height() ==> f_sub(
                                z as int,
                                #[trigger] coset_point(l0, shift, k as nat),
                            ) != 0) && f_mul(f_pow(shift as int, pow2(l0)), pow2(l0) as int)
                            != 0;
                    crate::dft::lemma_pow2_injective(l0, log_n as nat);
                    let wi: int = i as int;
                    assert(0 <= wi < coset_evals.height());
                    assert(f_sub(z as int, coset_point(l0, shift, wi as nat)) != 0);
                    assert(wi as nat == i as nat);
                }
            }
            return None;
        }
        diffs.push(d);
        i = i + 1;
    }
    let diff_invs = batch_inverse(&diffs);
    let mut col_scale: Vec<u64> = Vec::new();
    let mut i2: usize = 0;
    proof {
        assert forall|k: int| 0 <= k < n implies is_elem(#[trigger] diff_invs@[k])
            && diff_invs@[k] as int == f_inv(f_sub(z as int, pts@[k] as int)) by {
            lemma_finv_char(diff_invs@[k] as int, diffs@[k] as int);
        }
    }
    while i2 < n
        invariant
            n == pts@.len(),
            diff_invs@.len() == n,
            forall|k: int| 0 <= k < n ==> is_elem(#[trigger] pts@[k]),
            forall|k: int| 0 <= k < n ==> is_elem(#[trigger] diff_invs@[k]),
            forall|k: int|
                0 <= k < n ==> (#[trigger] diff_invs@[k]) as int == f_inv(
                    f_sub(z as int, pts@[k] as int),
                ),
            i2 <= n,
            col_scale@.len() == i2,
            forall|k: int|
                0 <= k < i2 ==> is_elem(#[trigger] col_scale@[k]) && col_scale@[k] as int
                    == f_mul(diff_invs@[k] as int, pts@[k] as int),
        decreases n - i2,
    {
        col_scale.push(fmul(diff_invs[i2], pts[i2]));
        i2 = i2 + 1;
    }
    let zp = fexp_pow2(z, log_n);
    let sp = fexp_pow2(shift, log_n);
    let vanishing = fsub(zp, sp);
    proof {
        vstd::arithmetic::power2::lemma2_to64();
        if (log_n as nat) < 27 {
            vstd::arithmetic::power2::lemma_pow2_strictly_increases(log_n as nat, 27);
        }
    }
    let denominator = fmul(sp, n as u64);
    if denominator == 0 {
        proof {
            if interpolation_possible(coset_evals.height(), shift, z) {
                let l0 = choose|l0: nat|
                    l0 <= 26 && coset_evals.height() == pow2(l0) && (forall|k: int|
                        0 <= k < coset_evals.height() ==> f_sub(
                            z as int,
                            #[trigger] coset_point(l0, shift, k as nat),
                        ) != 0) && f_mul(f_pow(shift as int, pow2(l0)), pow2(l0) as int) != 0;
                crate::dft::lemma_pow2_injective(l0, log_n as nat);
            }
        }
        return None;
    }
    let dinv = finv(denominator);
    proof {
        lemma_finv_char(dinv as int, denominator as int);
    }
    let scaling = fmul(vanishing, dinv);
    let w = coset_evals.width;
    let mut out: Vec<u64> = Vec::new();
    let mut col: usize = 0;
    let ghost cs_spec = Seq::new(
        coset_evals.view_rows().len(),
        |k: int|
            bary_col_scale(log_n as nat, shift, z, k as nat) as u64,
    );
    proof {
        assert(col_scale@ =~= cs_spec);
    }
    while col < w
        invariant
            coset_evals.wf(),
            w == coset_evals.width,
            n == coset_evals.height(),
            col_scale@.len() == n,
            forall|k: int| 0 <= k < n ==> is_elem(#[trigger] col_scale@[k]),
            col_scale@ == cs_spec,
            cs_spec == Seq::new(
                coset_evals.view_rows().len(),
                |k: int| bary_col_scale(log_n as nat, shift, z, k as nat) as u64,
            ),
            is_elem(scaling),
            scaling as int == bary_scaling(log_n as nat, shift, z),
            col <= w,
            out@.len() == col,
            forall|c: int|
                0 <= c < col ==> is_elem(#[trigger] out@[c]) && out@[c] as int
                    == interpolate_spec(
                    coset_evals.view_rows(),
                    log_n as nat,
                    shift,
                    z,
                    c,
                ),
        decreases w - col,
    {
        let mut acc: u64 = 0;
        let mut k: usize = 0;
        while k < n
            invariant
                coset_evals.wf(),
                w == coset_evals.width,
                col < w,
                n == coset_evals.height(),
                col_scale@.len() == n,
                forall|k2: int| 0 <= k2 < n ==> is_elem(#[trigger] col_scale@[k2]),
                k <= n,
                is_elem(acc),
                acc as int == bary_dot(coset_evals.view_rows(), col_scale@, col as int, k as int),
            decreases n - k,
        {
            acc = fadd(acc, fmul(col_scale[k], coset_evals.rows[k][col]));
            k = k + 1;
        }
        out.push(fmul(scaling, acc));
        col = col + 1;
    }
    Some(out)
}

} // verus!
