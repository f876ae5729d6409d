//! The commit/open orchestration of the polynomial commitment scheme over
//! two-adic cosets: commitment-side low-degree extension, batched
//! multi-point opening with one running reduced-opening vector per height,
//! and the algebraic replay the verifier runs against a proof. The
//! commitment backend and the Fiat-Shamir transcript are collaborators:
//! callers hand in the sampled challenges and carry the returned matrices
//! and openings to the backend.
use vstd::prelude::*;
use vstd::arithmetic::power2::pow2;
use vstd::pervasive::VecAdditionalExecFns;
use crate::field::{
    FP, f_add, f_sub, f_mul, f_pow, f_inv, is_elem, fadd, fsub, fmul, fexp, finv,
    shifted_powers, batch_inverse, two_adic_generator, two_adic_gen_val,
    multiplicative_generator, lemma_finv_char, lemma_mod_inv_is,
};
use vstd::arithmetic::power::{pow, lemma_pow1, lemma_pow_adds};
use vstd::arithmetic::div_mod::{lemma_mul_mod_noop_left, lemma_small_mod};
use crate::matrix::{FpMatrix, bitrev_rows_spec, clone_matrix, bit_reverse_rows};
use crate::bitrev::{log2_strict, bitrev_spec, reverse_bits_len, bitrev_permute_vals, pow2_usize};
use crate::dft::{Radix2DitParallel, coset_lde_spec, lemma_pow2_injective};
use crate::fold::{fri_twiddle, fold_row_univariate};
use crate::interpolate::{interpolate_coset, interpolate_spec};

verus! {

/// The protocol parameters of the folding phase.
pub struct FriParams {
    pub log_blowup: usize,
    pub num_queries: usize,
    pub proof_of_work_bits: usize,
}

/// Rejections the scheme reports: a configuration without soundness margin,
/// or a proof that fails its algebraic replay.
#[derive(Debug)]
pub enum PcsError {
    ZeroBlowup,
    ShapeMismatch,
    FoldMismatch,
    FinalPolyMismatch,
    InclusionMismatch,
    PowMismatch,
}

/// One commitment-phase opening of the original input batches at a query:
/// the opened leaf row per matrix beside its inclusion proof, which the
/// commitment backend produces and checks.
pub struct InputOpening {
    pub opened_values: Vec<Vec<u64>>,
    pub opening_proof: Vec<Vec<u8>>,
}

/// The folding-phase proof: one commitment per round, per-query sibling
/// openings, the final polynomial, and the proof-of-work witness.
pub struct FriQueryStep {
    pub sibling_value: u64,
    pub opening_proof: Vec<Vec<u8>>,
}

pub struct FriQueryProof {
    pub steps: Vec<FriQueryStep>,
}

pub struct FriProof {
    pub round_commitments: Vec<Vec<u8>>,
    pub query_proofs: Vec<FriQueryProof>,
    pub final_poly: Vec<u64>,
    pub pow_witness: u64,
}

/// The whole opening proof: the folding proof plus, per query and per
/// committed input batch, the opened rows with their inclusion proofs.
pub struct TwoAdicFriPcsProof {
    pub fri_proof: FriProof,
    pub input_openings: Vec<Vec<InputOpening>>,
}

/// The scheme: folding parameters beside the evaluation engine.
pub struct TwoAdicFriPcs {
    pub fri: FriParams,
    pub dft: Radix2DitParallel,
}

/// The shift every committed domain uses: the field's multiplicative
/// generator, divided by the polynomial's own domain shift.
pub open spec fn commit_shift_val(coset_shift: u64) -> int {
    f_mul(31, f_inv(coset_shift as int))
}

/// A height the scheme can extend with `lb` extra bits.
pub open spec fn pcs_supported(h: nat, lb: nat) -> bool {
    exists|k: nat| k + lb <= 27 && h == pow2(k)
}

impl TwoAdicFriPcs {
    pub open spec fn wf(&self) -> bool {
        self.dft.wf() && self.fri.log_blowup >= 1
    }

    /// Builds the scheme; a zero blow-up leaves no soundness margin and is
    /// rejected as a configuration error.
    pub fn new(fri: FriParams, dft: Radix2DitParallel) -> (r: Result<TwoAdicFriPcs, PcsError>)
        requires
            dft.wf(),
        ensures
            (match r {
                Ok(p) => fri.log_blowup >= 1 && p.wf() && p.fri.log_blowup == fri.log_blowup
                    && p.fri.num_queries == fri.num_queries && p.fri.proof_of_work_bits
                    == fri.proof_of_work_bits,
                Err(e) => fri.log_blowup == 0 && (e matches PcsError::ZeroBlowup),
            }),
    {
        if fri.log_blowup == 0 {
            return Err(PcsError::ZeroBlowup);
        }
        Ok(TwoAdicFriPcs { fri, dft })
    }

    /// The multiplicative generator every committed coset is shifted by.
    pub fn coset_shift(&self) -> (r: u64)
        ensures
            r == 31u64,
    {
        multiplicative_generator()
    }

    pub fn log_blowup(&self) -> (r: usize)
        ensures
            r == self.fri.log_blowup,
    {
        self.fri.log_blowup
    }

    /// Computes the coset LDE of every polynomial at the configured blow-up,
    /// shifted by generator / coset_shift, in the bit-reversed layout the
    /// commitment backend stores. The caller commits the returned batch in
    /// one backend call. `None` exactly when the shift is zero or some
    /// height is unsupported.
    pub fn commit_shifted_batches(&mut self, polynomials: &Vec<FpMatrix>, coset_shift: u64) -> (r:
        Option<Vec<FpMatrix>>)
        requires
            old(self).wf(),
            is_elem(coset_shift),
            forall|i: int| 0 <= i < polynomials@.len() ==> (#[trigger] polynomials@[i]).wf(),
        ensures
            final(self).wf(),
            final(self).fri == old(self).fri,
            (match r {
                Some(v) => {
                    &&& coset_shift != 0
                    &&& v@.len() == polynomials@.len()
                    &&& forall|i: int|
                        0 <= i < v@.len() ==> (#[trigger] v@[i]).wf() && v@[i].width
                            == polynomials@[i].width && v@[i].height() == polynomials@[i].height()
                            * pow2(old(self).fri.log_blowup as nat)
                    &&& forall|i: int, k: nat|
                        0 <= i < v@.len() && k + old(self).fri.log_blowup <= 27
                            && polynomials@[i].height() == #[trigger] pow2(k) ==> (
                        #[trigger] v@[i]).view_rows() == coset_lde_spec(
                            polynomials@[i].view_rows(),
                            k,
                            old(self).fri.log_blowup as nat,
                            commit_shift_val(coset_shift) as u64,
                        )
                },
                None => coset_shift == 0 || exists|i: int|
                    0 <= i < polynomials@.len() && !pcs_supported(
                        (#[trigger] polynomials@[i]).height(),
                        old(self).fri.log_blowup as nat,
                    ),
            }),
    {
        if coset_shift == 0 {
            return None;
        }
        let inv = finv(coset_shift);
        proof {
            lemma_finv_char(inv as int, coset_shift as int);
        }
        let shift = fmul(self.coset_shift(), inv);
        let lb = self.fri.log_blowup;
        let n = polynomials.len();
        let mut out: Vec<FpMatrix> = Vec::new();
        let mut i: usize = 0;
        while i < n
            invariant
                self.wf(),
                self.fri == old(self).fri,
                is_elem(coset_shift),
                coset_shift != 0,
                is_elem(shift),
                shift as int == commit_shift_val(coset_shift),
                lb == self.fri.log_blowup,
                n == polynomials@.len(),
                forall|j: int| 0 <= j < n ==> (#[trigger] polynomials@[j]).wf(),
                i <= n,
                out@.len() == i,
                forall|j: int|
                    0 <= j < i ==> (#[trigger] out@[j]).wf() && out@[j].width
                        == polynomials@[j].width && out@[j].height() == polynomials@[j].height()
                        * pow2(lb as nat),
                forall|j: int, k: nat|
                    0 <= j < i && k + lb <= 27 && polynomials@[j].height() == #[trigger] pow2(k)
                        ==> (#[trigger] out@[j]).view_rows() == coset_lde_spec(
                        polynomials@[j].view_rows(),
                        k,
                        lb as nat,
                        commit_shift_val(coset_shift) as u64,
                    ),
            decreases n - i,
        {
            let h = polynomials[i].num_rows();
            let k = match log2_strict(h) {
                Some(k) => k,
                None => {
                    proof {
                        assert(!pcs_supported(polynomials@[i as int].height(), lb as nat)) by {
                            if pcs_supported(polynomials@[i as int].height(), lb as nat) {
                                let k0 = choose|k0: nat|
                                    k0 + lb <= 27 && polynomials@[i as int].height() == pow2(k0);
                                assert(polynomials@[i as int].height() != pow2(k0));
                            }
                        }
                    }
                    return None;
                },
            };
            if lb > 27 || k + lb > 27 {
                proof {
                    assert(!pcs_supported(polynomials@[i as int].height(), lb as nat)) by {
                        if pcs_supported(polynomials@[i as int].height(), lb as nat) {
                            let k0 = choose|k0: nat|
                                k0 + lb <= 27 && polynomials@[i as int].height() == pow2(k0);
                            lemma_pow2_injective(k0, k as nat);
                        }
                    }
                }
                return None;
            }
            proof {
                assert(pcs_supported(polynomials@[i as int].height(), lb as nat)) by {
                    assert((k as nat) + lb <= 27 && polynomials@[i as int].height() == pow2(
                        k as nat,
                    ));
                }
                assert(crate::dft::lde_supported(polynomials@[i as int].height(), lb as nat)) by {
                    assert((k as nat) + lb <= 27 && polynomials@[i as int].height() == pow2(
                        k as nat,
                    ));
                }
            }
            let lde = self.dft.coset_lde_batch(&polynomials[i], lb, shift);
            out.push(lde);
            i = i + 1;
        }
        Some(out)
    }

    /// Commits with the polynomials' own domain shift of one.
    pub fn commit_batches(&mut self, polynomials: &Vec<FpMatrix>) -> (r: Option<Vec<FpMatrix>>)
        requires
            old(self).wf(),
            forall|i: int| 0 <= i < polynomials@.len() ==> (#[trigger] polynomials@[i]).wf(),
        ensures
            final(self).wf(),
            final(self).fri == old(self).fri,
            (match r {
                Some(v) => v@.len() == polynomials@.len() && forall|i: int, k: nat|
                    0 <= i < v@.len() && k + old(self).fri.log_blowup <= 27
                        && polynomials@[i].height() == #[trigger] pow2(k) ==> (
                    #[trigger] v@[i]).view_rows() == coset_lde_spec(
                        polynomials@[i].view_rows(),
                        k,
                        old(self).fri.log_blowup as nat,
                        commit_shift_val(1) as u64,
                    ),
                None => exists|i: int|
                    0 <= i < polynomials@.len() && !pcs_supported(
                        (#[trigger] polynomials@[i]).height(),
                        old(self).fri.log_blowup as nat,
                    ),
            }),
    {
        self.commit_shifted_batches(polynomials, 1)
    }
}

/// Presents committed matrices, which are stored bit-reversed, in natural
/// row order again. `None` when some height is no supported power of two.
pub fn get_ldes(committed: &Vec<FpMatrix>) -> (r: Option<Vec<FpMatrix>>)
    requires
        forall|i: int| 0 <= i < committed@.len() ==> (#[trigger] committed@[i]).wf(),
    ensures
        (match r {
            Some(v) => v@.len() == committed@.len() && forall|i: int, k: nat|
                0 <= i < v@.len() && k <= 31 && committed@[i].height() == #[trigger] pow2(k)
                    ==> (#[trigger] v@[i]).view_rows() == bitrev_rows_spec(
                    committed@[i].view_rows(),
                    k,
                ),
            None => exists|i: int|
                0 <= i < committed@.len() && (forall|k: nat|
                    k <= 31 ==> (#[trigger] committed@[i]).height() != pow2(k)),
        }),
{
    let n = committed.len();
    let mut out: Vec<FpMatrix> = Vec::new();
    let mut i: usize = 0;
    while i < n
        invariant
            forall|j: int| 0 <= j < n ==> (#[trigger] committed@[j]).wf(),
            n == committed@.len(),
            i <= n,
            out@.len() == i,
            forall|j: int, k: nat|
                0 <= j < i && k <= 31 && committed@[j].height() == #[trigger] pow2(k) ==> (
                #[trigger] out@[j]).view_rows() == bitrev_rows_spec(committed@[j].view_rows(), k),
        decreases n - i,
    {
        let bits = match log2_strict(committed[i].num_rows()) {
            Some(b) => b,
            None => {
                proof {
                    let wi: int = i as int;
                    assert(forall|k: nat|
                        k <= 31 ==> (#[trigger] committed@[wi]).height() != pow2(k));
                }
                return None;
            },
        };
        let m = bit_reverse_rows(&committed[i], bits);
        proof {
            assert forall|k: nat|
                k <= 31 && committed@[i as int].height() == pow2(k) implies m.view_rows()
                == bitrev_rows_spec(committed@[i as int].view_rows(), k) by {
                lemma_pow2_injective(k, bits as nat);
            }
        }
        out.push(m);
        i = i + 1;
    }
    Some(out)
}

/// A power cache holds 1, alpha, alpha^2, ... as far as it reaches.
pub open spec fn powers_cache_ok(cache: Seq<u64>, alpha: u64) -> bool {
    &&& cache.len() >= 1
    &&& forall|i: int|
        0 <= i < cache.len() ==> is_elem(#[trigger] cache[i]) && cache[i] as int == f_pow(
            alpha as int,
            i as nat,
        )
}

/// Extends the cached powers of the batching challenge just far enough and
/// hands out the window [start, start + count); powers are never
/// recomputed from index zero.
pub fn get_cached_powers(power: u64, cache: &mut Vec<u64>, start: usize, count: usize) -> (r: Vec<
    u64,
>)
    requires
        is_elem(power),
        powers_cache_ok(old(cache)@, power),
        start + count < 0x10000000,
    ensures
        powers_cache_ok(final(cache)@, power),
        final(cache)@.len() >= start + count,
        final(cache)@.len() >= old(cache)@.len(),
        r@.len() == count,
        forall|k: int|
            0 <= k < count ==> is_elem(#[trigger] r@[k]) && r@[k] as int == f_pow(
                power as int,
                (start + k) as nat,
            ),
{
    let target = start + count;
    while cache.len() < target
        invariant
            is_elem(power),
            powers_cache_ok(cache@, power),
            cache@.len() >= old(cache)@.len(),
            target < 0x10000000,
        decreases target - cache@.len(),
    {
        let last = cache[cache.len() - 1];
        proof {
            let i = cache@.len() - 1;
            lemma_pow_adds(power as int, i as nat, 1);
            lemma_pow1(power as int);
            lemma_mul_mod_noop_left(pow(power as int, i as nat), power as int, FP as int);
        }
        let nxt = fmul(last, power);
        cache.push(nxt);
    }
    let mut r: Vec<u64> = Vec::new();
    let mut k: usize = 0;
    while k < count
        invariant
            is_elem(power),
            powers_cache_ok(cache@, power),
            cache@.len() >= start + count,
            cache@.len() >= old(cache)@.len(),
            start + count < 0x10000000,
            k <= count,
            r@.len() == k,
            forall|j: int|
                0 <= j < k ==> is_elem(#[trigger] r@[j]) && r@[j] as int == f_pow(
                    power as int,
                    (start + j) as nat,
                ),
        decreases count - k,
    {
        r.push(cache[start + k]);
        k = k + 1;
    }
    r
}

/// The contribution one matrix row makes to its reduced opening at one
/// point: sum over the first w columns of alpha_pow[c] * (row[c] - ys[c]) *
/// inv_denom, added onto the running value.
pub open spec fn reduce_row_spec(
    acc: int,
    apows: Seq<u64>,
    row: Seq<u64>,
    ys: Seq<u64>,
    inv: int,
    w: int,
) -> int
    decreases w,
{
    if w <= 0 {
        acc
    } else {
        f_add(
            reduce_row_spec(acc, apows, row, ys, inv, w - 1),
            f_mul(apows[w - 1] as int, f_mul(f_sub(row[w - 1] as int, ys[w - 1] as int), inv)),
        )
    }
}

/// Folds one matrix opened at one point into the running reduced-opening
/// vector of its height: for every domain row i,
/// reduced[i] += sum_c alpha^(k+c) * (m[i][c] - ys[c]) * inv_denoms[i].
pub fn reduce_opening_step(
    acc: &Vec<u64>,
    mat: &FpMatrix,
    ys: &Vec<u64>,
    inv_denoms: &Vec<u64>,
    alpha_pows: &Vec<u64>,
) -> (r: Vec<u64>)
    requires
        mat.wf(),
        acc@.len() == mat.height(),
        forall|i: int| 0 <= i < acc@.len() ==> is_elem(#[trigger] acc@[i]),
        ys@.len() == mat.width,
        forall|i: int| 0 <= i < ys@.len() ==> is_elem(#[trigger] ys@[i]),
        inv_denoms@.len() == mat.height(),
        forall|i: int| 0 <= i < inv_denoms@.len() ==> is_elem(#[trigger] inv_denoms@[i]),
        alpha_pows@.len() == mat.width,
        forall|i: int| 0 <= i < alpha_pows@.len() ==> is_elem(#[trigger] alpha_pows@[i]),
    ensures
        r@.len() == acc@.len(),
        forall|i: int|
            0 <= i < r@.len() ==> is_elem(#[trigger] r@[i]) && r@[i] as int == reduce_row_spec(
                acc@[i] as int,
                alpha_pows@,
                mat.rows@[i]@,
                ys@,
                inv_denoms@[i] as int,
                mat.width as int,
            ),
{
    let n = mat.rows.len();
    let w = mat.width;
    let mut r: Vec<u64> = Vec::new();
    let mut i: usize = 0;
    while i < n
        invariant
            mat.wf(),
            n == mat.height(),
            w == mat.width,
            acc@.len() == n,
            forall|k: int| 0 <= k < n ==> is_elem(#[trigger] acc@[k]),
            ys@.len() == w,
            forall|k: int| 0 <= k < w ==> is_elem(#[trigger] ys@[k]),
            inv_denoms@.len() == n,
            forall|k: int| 0 <= k < n ==> is_elem(#[trigger] inv_denoms@[k]),
            alpha_pows@.len() == w,
            forall|k: int| 0 <= k < w ==> is_elem(#[trigger] alpha_pows@[k]),
            i <= n,
            r@.len() == i,
            forall|k: int|
                0 <= k < i ==> is_elem(#[trigger] r@[k]) && r@[k] as int == reduce_row_spec(
                    acc@[k] as int,
                    alpha_pows@,
                    mat.rows@[k]@,
                    ys@,
                    inv_denoms@[k] as int,
                    w as int,
                ),
        decreases n - i,
    {
        let mut cur: u64 = acc[i];
        let mut c: usize = 0;
        while c < w
            invariant
                mat.wf(),
                n == mat.height(),
                w == mat.width,
                i < n,
                ys@.len() == w,
                forall|k: int| 0 <= k < w ==> is_elem(#[trigger] ys@[k]),
                inv_denoms@.len() == n,
                forall|k: int| 0 <= k < n ==> is_elem(#[trigger] inv_denoms@[k]),
                alpha_pows@.len() == w,
                forall|k: int| 0 <= k < w ==> is_elem(#[trigger] alpha_pows@[k]),
                acc@.len() == n,
                forall|k: int| 0 <= k < n ==> is_elem(#[trigger] acc@[k]),
                c <= w,
                is_elem(cur),
                cur as int == reduce_row_spec(
                    acc@[i as int] as int,
                    alpha_pows@,
                    mat.rows@[i as int]@,
                    ys@,
                    inv_denoms@[i as int] as int,
                    c as int,
                ),
            decreases w - c,
        {
            let term = fmul(alpha_pows[c], fmul(fsub(mat.rows[i][c], ys[c]), inv_denoms[i]));
            cur = fadd(cur, term);
            c = c + 1;
        }
        r.push(cur);
        i = i + 1;
    }
    r
}

/// Batched reduced openings are linear in the columns: for two polynomials
/// p, q sharing a domain and opened at one point with batching challenge
/// alpha, the reduced value at a domain row x is exactly
/// (p(x) - p(z)) / (x - z) + alpha * (q(x) - q(z)) / (x - z).
pub proof fn lemma_reduced_opening_linearity(
    px: u64,
    qx: u64,
    pz: u64,
    qz: u64,
    alpha: u64,
    inv: u64,
)
    requires
        is_elem(px),
        is_elem(qx),
        is_elem(pz),
        is_elem(qz),
        is_elem(alpha),
        is_elem(inv),
    ensures
        reduce_row_spec(
            0,
            seq![1u64, alpha],
            seq![px, qx],
            seq![pz, qz],
            inv as int,
            2,
        ) == f_add(
            f_mul(f_sub(px as int, pz as int), inv as int),
            f_mul(alpha as int, f_mul(f_sub(qx as int, qz as int), inv as int)),
        ),
{
    let t0 = f_mul(f_sub(px as int, pz as int), inv as int);
    let t1 = f_mul(alpha as int, f_mul(f_sub(qx as int, qz as int), inv as int));
    assert(reduce_row_spec(0, seq![1u64, alpha], seq![px, qx], seq![pz, qz], inv as int, 0)
        == 0);
    assert(seq![1u64, alpha][0] == 1u64);
    assert(seq![1u64, alpha][1] == alpha);
    assert(seq![px, qx][0] == px && seq![px, qx][1] == qx);
    assert(seq![pz, qz][0] == pz && seq![pz, qz][1] == qz);
    assert(reduce_row_spec(0, seq![1u64, alpha], seq![px, qx], seq![pz, qz], inv as int, 1)
        == f_add(0, f_mul(1, t0)));
    lemma_small_mod(0, FP as nat);
    assert(f_mul(1, t0) == t0 % (FP as int));
    assert(0 <= t0 < FP as int);
    lemma_small_mod(t0 as nat, FP as nat);
    assert(f_add(0, t0) == t0);
    assert(reduce_row_spec(0, seq![1u64, alpha], seq![px, qx], seq![pz, qz], inv as int, 2)
        == f_add(t0, t1));
}


/// The log of a power-of-two height.
pub open spec fn log2_of(h: nat) -> nat {
    choose|k: nat| pow2(k) == h
}

pub proof fn lemma_log2_of(k: nat)
    ensures
        log2_of(pow2(k)) == k,
{
    let k0 = choose|k0: nat| pow2(k0) == pow2(k);
    assert(pow2(k) == pow2(k));
    lemma_pow2_injective(k0, k);
}

/// The values a matrix opens to at one point: every column of the
/// un-blown-up low sub-coset (the first height/2^lb stored rows, read in
/// natural order) evaluated at z by coset-barycentric interpolation.
pub open spec fn open_values_spec(mat: FpMatrix, z: u64, lb: nat) -> Seq<u64> {
    let lh = log2_of(mat.height());
    let ln = (lh - lb) as nat;
    let lowm = bitrev_rows_spec(mat.view_rows().take(pow2(ln) as int), ln);
    Seq::new(
        mat.width as nat,
        |c: int| interpolate_spec(lowm, ln, 31u64, z, c) as u64,
    )
}

/// The domain point standing at stored row i of a committed matrix of log
/// height lh: the rows sit in bit-reversed order over the coset 31*H.
pub open spec fn stored_point(lh: nat, i: int) -> int {
    f_mul(31, f_pow(two_adic_gen_val(lh) as int, bitrev_spec(i as nat, lh)))
}

/// The inverse denominator of domain row i for a point z.
pub open spec fn open_inv_denom(lh: nat, z: u64, i: int) -> int {
    f_inv(f_sub(stored_point(lh, i), z as int))
}

/// Opening one matrix at its points is possible: a supported shape, every
/// point off the low sub-coset with an invertible barycentric denominator,
/// and every point distinct from every stored domain point.
pub open spec fn open_matrix_possible(mat: FpMatrix, zs: Seq<u64>, nr0: nat, lb: nat) -> bool {
    exists|lh: nat|
        {
            &&& lh <= 27
            &&& mat.height() == pow2(lh)
            &&& lb <= lh
            &&& mat.width <= 0x10000
            &&& zs.len() <= 0x100
            &&& nr0 <= 0x1000000
            &&& (forall|p: int|
                0 <= p < zs.len() ==> crate::interpolate::interpolation_possible(
                    pow2((lh - lb) as nat),
                    31u64,
                    #[trigger] zs[p],
                ))
            &&& (forall|p: int, i: int|
                0 <= p < zs.len() && 0 <= i < mat.height() ==> f_sub(
                    #[trigger] stored_point(lh, i),
                    #[trigger] zs[p] as int,
                ) != 0)
        }
}

/// What a possible opening gives, spelled out at the height the matrix has.
proof fn lemma_open_matrix_possible_unpack(
    mat: FpMatrix,
    zs: Seq<u64>,
    nr0: nat,
    lb: nat,
    lh: nat,
)
    requires
        open_matrix_possible(mat, zs, nr0, lb),
        mat.height() == pow2(lh),
    ensures
        lh <= 27,
        lb <= lh,
        mat.width <= 0x10000,
        zs.len() <= 0x100,
        nr0 <= 0x1000000,
        forall|p: int|
            0 <= p < zs.len() ==> crate::interpolate::interpolation_possible(
                pow2((lh - lb) as nat),
                31u64,
                #[trigger] zs[p],
            ),
        forall|p: int, i: int|
            0 <= p < zs.len() && 0 <= i < mat.height() ==> f_sub(
                #[trigger] stored_point(lh, i),
                #[trigger] zs[p] as int,
            ) != 0,
{
    let lh0 = choose|lh0: nat|
        {
            &&& lh0 <= 27
            &&& mat.height() == pow2(lh0)
            &&& lb <= lh0
            &&& mat.width <= 0x10000
            &&& zs.len() <= 0x100
            &&& nr0 <= 0x1000000
            &&& (forall|p: int|
                0 <= p < zs.len() ==> crate::interpolate::interpolation_possible(
                    pow2((lh0 - lb) as nat),
                    31u64,
                    #[trigger] zs[p],
                ))
            &&& (forall|p: int, i: int|
                0 <= p < zs.len() && 0 <= i < mat.height() ==> f_sub(
                    #[trigger] stored_point(lh0, i),
                    #[trigger] zs[p] as int,
                ) != 0)
        };
    lemma_pow2_injective(lh0, lh);
}

/// A possible opening names a supported power-of-two height.
proof fn lemma_open_matrix_possible_height(mat: FpMatrix, zs: Seq<u64>, nr0: nat, lb: nat)
    requires
        open_matrix_possible(mat, zs, nr0, lb),
    ensures
        exists|lh: nat| lh <= 27 && mat.height() == #[trigger] pow2(lh),
{
    let lh0 = choose|lh0: nat|
        {
            &&& lh0 <= 27
            &&& mat.height() == pow2(lh0)
            &&& lb <= lh0
            &&& mat.width <= 0x10000
            &&& zs.len() <= 0x100
            &&& nr0 <= 0x1000000
            &&& (forall|p: int|
                0 <= p < zs.len() ==> crate::interpolate::interpolation_possible(
                    pow2((lh0 - lb) as nat),
                    31u64,
                    #[trigger] zs[p],
                ))
            &&& (forall|p: int, i: int|
                0 <= p < zs.len() && 0 <= i < mat.height() ==> f_sub(
                    #[trigger] stored_point(lh0, i),
                    #[trigger] zs[p] as int,
                ) != 0)
        };
    assert(lh0 <= 27 && mat.height() == pow2(lh0));
}

/// The window of challenge powers a matrix-point pair consumes: one power
/// per column, starting where the height's running count stands.
pub open spec fn alpha_window(alpha: u64, start: nat, w: nat) -> Seq<u64> {
    Seq::new(w, |c: int| f_pow(alpha as int, (start + c) as nat) as u64)
}

/// The reduced-opening vector after folding in the first p points of one
/// matrix, starting from acc with the height's power count at nr0.
pub open spec fn acc_after_points(
    acc: Seq<u64>,
    mat: FpMatrix,
    zs: Seq<u64>,
    alpha: u64,
    nr0: nat,
    lb: nat,
    p: int,
) -> Seq<u64>
    decreases p,
{
    if p <= 0 {
        acc
    } else {
        let prev = acc_after_points(acc, mat, zs, alpha, nr0, lb, p - 1);
        let ys = open_values_spec(mat, zs[p - 1], lb);
        let apows = alpha_window(
            alpha,
            (nr0 + (p - 1) * mat.width) as nat,
            mat.width as nat,
        );
        let lh = log2_of(mat.height());
        Seq::new(
            prev.len(),
            |i: int|
                reduce_row_spec(
                    prev[i] as int,
                    apows,
                    mat.rows@[i]@,
                    ys,
                    open_inv_denom(lh, zs[p - 1], i),
                    mat.width as int,
                ) as u64,
        )
    }
}

/// A vector of zeroes: the initial reduced opening of a height.
pub fn zero_vec(n: usize) -> (r: Vec<u64>)
    ensures
        r@.len() == n,
        forall|i: int| 0 <= i < n ==> (#[trigger] r@[i]) == 0,
{
    let mut r: Vec<u64> = Vec::new();
    let mut i: usize = 0;
    while i < n
        invariant
            i <= n,
            r@.len() == i,
            forall|k: int| 0 <= k < i ==> (#[trigger] r@[k]) == 0,
        decreases n - i,
    {
        r.push(0);
        i = i + 1;
    }
    r
}

/// The first n rows of a matrix.
fn take_rows(m: &FpMatrix, n: usize) -> (r: FpMatrix)
    requires
        m.wf(),
        n <= m.height(),
    ensures
        r.wf(),
        r.width == m.width,
        r.height() == n,
        r.view_rows() == m.view_rows().take(n as int),
{
    let mut rows: Vec<Vec<u64>> = Vec::new();
    let mut i: usize = 0;
    while i < n
        invariant
            m.wf(),
            n <= m.height(),
            i <= n,
            rows@.len() == i,
            forall|k: int| 0 <= k < i ==> (#[trigger] rows@[k])@ == m.rows@[k]@,
        decreases n - i,
    {
        rows.push(m.rows[i].clone());
        i = i + 1;
    }
    let r = FpMatrix { rows, width: m.width };
    proof {
        assert(r.view_rows() =~~= m.view_rows().take(n as int));
    }
    r
}

/// Opens one committed matrix at each of its points: evaluates the low
/// sub-coset at every point and folds every contribution into the
/// height's running reduced-opening vector, consuming one challenge power
/// per column per point. `None` when a shape is unsupported, a denominator
/// vanishes, or the power count would overflow.
pub fn open_for_matrix(
    mat: &FpMatrix,
    zs: &Vec<u64>,
    alpha: u64,
    cache: &mut Vec<u64>,
    nr0: usize,
    acc: &Vec<u64>,
    lb: usize,
) -> (r: Option<(Vec<Vec<u64>>, Vec<u64>, usize)>)
    requires
        mat.wf(),
        is_elem(alpha),
        forall|p: int| 0 <= p < zs@.len() ==> is_elem(#[trigger] zs@[p]),
        powers_cache_ok(old(cache)@, alpha),
        acc@.len() == mat.height(),
        forall|i: int| 0 <= i < acc@.len() ==> is_elem(#[trigger] acc@[i]),
    ensures
        powers_cache_ok(final(cache)@, alpha),
        (match r {
            Some(out) => {
                &&& out.0@.len() == zs@.len()
                &&& forall|p: int|
                    0 <= p < zs@.len() ==> (#[trigger] out.0@[p])@ == open_values_spec(
                        *mat,
                        zs@[p],
                        lb as nat,
                    )
                &&& out.1@.len() == acc@.len()
                &&& forall|i: int| 0 <= i < out.1@.len() ==> is_elem(#[trigger] out.1@[i])
                &&& out.1@ == acc_after_points(
                    acc@,
                    *mat,
                    zs@,
                    alpha,
                    nr0 as nat,
                    lb as nat,
                    zs@.len() as int,
                )
                &&& out.2 == nr0 + zs@.len() * mat.width
            },
            None => !open_matrix_possible(*mat, zs@, nr0 as nat, lb as nat),
        }),
{
    let h = mat.num_rows();
    let lh = match log2_strict(h) {
        Some(k) => k,
        None => {
            proof {
                if open_matrix_possible(*mat, zs@, nr0 as nat, lb as nat) {
                    lemma_open_matrix_possible_height(*mat, zs@, nr0 as nat, lb as nat);
                    let lh0 = choose|lh0: nat| lh0 <= 27 && mat.height() == #[trigger] pow2(lh0);
                    assert(mat.height() != pow2(lh0));
                }
            }
            return None;
        },
    };
    if lh > 27 || lb > lh {
        proof {
            if open_matrix_possible(*mat, zs@, nr0 as nat, lb as nat) {
                lemma_open_matrix_possible_unpack(*mat, zs@, nr0 as nat, lb as nat, lh as nat);
            }
        }
        return None;
    }
    let w = mat.width;
    if w > 0x10000 || zs.len() > 0x100 || nr0 > 0x1000000 {
        proof {
            if open_matrix_possible(*mat, zs@, nr0 as nat, lb as nat) {
                lemma_open_matrix_possible_unpack(*mat, zs@, nr0 as nat, lb as nat, lh as nat);
            }
        }
        return None;
    }
    proof {
        lemma_log2_of(lh as nat);
    }
    let g = two_adic_generator(lh);
    let pts = shifted_powers(g, 31, h);
    let pts_rev = bitrev_permute_vals(&pts, lh);
    proof {
        assert forall|i: int|
            0 <= i < h implies is_elem(#[trigger] pts_rev@[i]) && pts_rev@[i] as int == f_mul(
            31,
            f_pow(two_adic_gen_val(lh as nat) as int, bitrev_spec(i as nat, lh as nat)),
        ) by {
            crate::bitrev::lemma_bitrev_bound(i as nat, lh as nat);
            assert(pts_rev@[i] == pts@[bitrev_spec(i as nat, lh as nat) as int]);
        }
    }
    let low_n = pow2_usize(lh - lb);
    proof {
        vstd::arithmetic::power2::lemma_pow2_pos((lh - lb) as nat);
        if ((lh - lb) as nat) < (lh as nat) {
            vstd::arithmetic::power2::lemma_pow2_strictly_increases((lh - lb) as nat, lh as nat);
        }
    }
    let low = take_rows(mat, low_n);
    let low_nat = bit_reverse_rows(&low, lh - lb);
    let np = zs.len();
    let mut opened: Vec<Vec<u64>> = Vec::new();
    let mut cur: Vec<u64> = acc.clone();
    let mut nr: usize = nr0;
    let mut p: usize = 0;
    while p < np
        invariant
            mat.wf(),
            is_elem(alpha),
            forall|q: int| 0 <= q < zs@.len() ==> is_elem(#[trigger] zs@[q]),
            powers_cache_ok(cache@, alpha),
            acc@.len() == mat.height(),
            forall|i: int| 0 <= i < acc@.len() ==> is_elem(#[trigger] acc@[i]),
            h == mat.height(),
            h as nat == pow2(lh as nat),
            lh <= 27,
            lb <= lh,
            lh as nat == log2_of(mat.height()),
            w == mat.width,
            w <= 0x10000,
            np == zs@.len(),
            np <= 0x100,
            nr0 <= 0x1000000,
            nr == nr0 + p * w,
            low_nat.wf(),
            low_nat.width == mat.width,
            low_nat.height() == pow2((lh - lb) as nat),
            low_nat.view_rows() == bitrev_rows_spec(
                mat.view_rows().take(pow2((lh - lb) as nat) as int),
                (lh - lb) as nat,
            ),
            pts_rev@.len() == h,
            forall|i: int|
                0 <= i < h ==> is_elem(#[trigger] pts_rev@[i]) && pts_rev@[i] as int == f_mul(
                    31,
                    f_pow(two_adic_gen_val(lh as nat) as int, bitrev_spec(i as nat, lh as nat)),
                ),
            p <= np,
            opened@.len() == p,
            forall|q: int|
                0 <= q < p ==> (#[trigger] opened@[q])@ == open_values_spec(
                    *mat,
                    zs@[q],
                    lb as nat,
                ),
            cur@.len() == acc@.len(),
            forall|i: int| 0 <= i < cur@.len() ==> is_elem(#[trigger] cur@[i]),
            cur@ == acc_after_points(acc@, *mat, zs@, alpha, nr0 as nat, lb as nat, p as int),
        decreases np - p,
    {
        let z = zs[p];
        let ys = match interpolate_coset(&low_nat, 31, z) {
            Some(v) => v,
            None => {
                proof {
                    if open_matrix_possible(*mat, zs@, nr0 as nat, lb as nat) {
                        lemma_open_matrix_possible_unpack(
                            *mat,
                            zs@,
                            nr0 as nat,
                            lb as nat,
                            lh as nat,
                        );
                        let wp: int = p as int;
                        assert(crate::interpolate::interpolation_possible(
                            pow2((lh - lb) as nat),
                            31u64,
                            zs@[wp],
                        ));
                    }
                }
                return None;
            },
        };
        let ghost ys_spec = open_values_spec(*mat, z, lb as nat);
        proof {
            let ln0 = choose|ln0: nat|
                ln0 <= 26 && low_nat.height() == pow2(ln0) && (forall|col: int|
                    0 <= col < ys@.len() ==> (#[trigger] ys@[col]) as int == interpolate_spec(
                        low_nat.view_rows(),
                        ln0,
                        31u64,
                        z,
                        col,
                    ));
            lemma_pow2_injective(ln0, (lh - lb) as nat);
            assert(ys@ =~= ys_spec);
        }
        let mut diffs: Vec<u64> = Vec::new();
        let mut i: usize = 0;
        while i < h
            invariant
                is_elem(alpha),
                powers_cache_ok(cache@, alpha),
                is_elem(z),
                h == mat.height(),
                h as nat == pow2(lh as nat),
                lh <= 27,
                lb <= lh,
                p < np,
                np == zs@.len(),
                z == zs@[p as int],
                h == pts_rev@.len(),
                forall|k: int| 0 <= k < h ==> is_elem(#[trigger] pts_rev@[k]),
                forall|k: int|
                    0 <= k < h ==> (#[trigger] pts_rev@[k]) as int == stored_point(
                        lh as nat,
                        k,
                    ),
                i <= h,
                diffs@.len() == i,
                forall|k: int|
                    0 <= k < i ==> is_elem(#[trigger] diffs@[k]) && diffs@[k] != 0 && diffs@[k]
                        as int == f_sub(pts_rev@[k] as int, z as int),
            decreases h - i,
        {
            let d = fsub(pts_rev[i], z);
            if d == 0 {
                proof {
                    if open_matrix_possible(*mat, zs@, nr0 as nat, lb as nat) {
                        lemma_open_matrix_possible_unpack(
                            *mat,
                            zs@,
                            nr0 as nat,
                            lb as nat,
                            lh as nat,
                        );
                        let wp: int = p as int;
                        let wi: int = i as int;
                        assert(f_sub(stored_point(lh as nat, wi), zs@[wp] as int) != 0);
                    }
                }
                return None;
            }
            diffs.push(d);
            i = i + 1;
        }
        let invs = batch_inverse(&diffs);
        proof {
            assert forall|k: int| 0 <= k < invs@.len() implies is_elem(#[trigger] invs@[k])
                && invs@[k] as int == open_inv_denom(lh as nat, z, k) by {
                lemma_finv_char(invs@[k] as int, diffs@[k] as int);
            }
        }
        proof {
            assert((p as int) * (w as int) <= 0x1000000) by (nonlinear_arith)
                requires
                    0 <= (p as int) <= 0x100,
                    0 <= (w as int) <= 0x10000,
            ;
        }
        let apows = get_cached_powers(alpha, cache, nr, w);
        proof {
            assert(apows@ =~= alpha_window(alpha, nr as nat, w as nat));
        }
        let nxt = reduce_opening_step(&cur, mat, &ys, &invs, &apows);
        proof {
            assert(nxt@ =~= acc_after_points(
                acc@,
                *mat,
                zs@,
                alpha,
                nr0 as nat,
                lb as nat,
                (p + 1) as int,
            )) by {
                assert(acc_after_points(
                    acc@,
                    *mat,
                    zs@,
                    alpha,
                    nr0 as nat,
                    lb as nat,
                    (p + 1) as int,
                ) == Seq::new(
                    cur@.len(),
                    |i: int|
                        reduce_row_spec(
                            cur@[i] as int,
                            alpha_window(alpha, (nr0 + p * w) as nat, w as nat),
                            mat.rows@[i]@,
                            ys_spec,
                            open_inv_denom(lh as nat, z, i),
                            w as int,
                        ) as u64,
                ));
            }
        }
        opened.push(ys);
        cur = nxt;
        proof {
            assert((nr0 as int) + (p as int) * (w as int) + (w as int) == (nr0 as int) + ((p
                + 1) as int) * (w as int)) by (nonlinear_arith);
        }
        nr = nr + w;
        p = p + 1;
    }
    Some((opened, cur, nr))
}


/// The reduced-opening buckets as sequences, one per log height; an empty
/// sequence marks a height no matrix uses.
pub open spec fn buckets_view(v: Seq<Vec<u64>>) -> Seq<Seq<u64>> {
    Seq::new(v.len(), |l: int| v[l]@)
}

/// One matrix folded into the bucket state: the height's bucket starts at
/// zero when first touched, then accumulates the matrix's points, and the
/// height's power count moves on by one power per column per point.
pub open spec fn open_step(
    buckets: Seq<Seq<u64>>,
    counts: Seq<nat>,
    mat: FpMatrix,
    zs: Seq<u64>,
    alpha: u64,
    lb: nat,
) -> (Seq<Seq<u64>>, Seq<nat>) {
    let lh = log2_of(mat.height()) as int;
    if 0 <= lh < buckets.len() && lh < counts.len() {
        let acc0 = if buckets[lh].len() == 0 {
            Seq::new(mat.height(), |i: int| 0u64)
        } else {
            buckets[lh]
        };
        let newacc = acc_after_points(acc0, mat, zs, alpha, counts[lh], lb, zs.len() as int);
        (
            buckets.update(lh, newacc),
            counts.update(lh, (counts[lh] + zs.len() * mat.width) as nat),
        )
    } else {
        (buckets, counts)
    }
}

/// The bucket state after the first b rounds and, within round b, the
/// first m matrices, processed in commit order.
pub open spec fn open_state(
    rounds: Seq<Vec<FpMatrix>>,
    points: Seq<Vec<Vec<u64>>>,
    alpha: u64,
    lb: nat,
    b: int,
    m: int,
) -> (Seq<Seq<u64>>, Seq<nat>)
    decreases b, m,
{
    if b <= 0 && m <= 0 {
        (Seq::new(28, |l: int| Seq::<u64>::empty()), Seq::new(28, |l: int| 0nat))
    } else if m <= 0 {
        open_state(rounds, points, alpha, lb, b - 1, rounds[b - 1]@.len() as int)
    } else {
        let prev = open_state(rounds, points, alpha, lb, b, m - 1);
        open_step(prev.0, prev.1, rounds[b]@[m - 1], points[b]@[m - 1]@, alpha, lb)
    }
}

/// The bucket state always keeps one slot per supported log height.
pub proof fn lemma_open_state_len(
    rounds: Seq<Vec<FpMatrix>>,
    points: Seq<Vec<Vec<u64>>>,
    alpha: u64,
    lb: nat,
    b: int,
    m: int,
)
    ensures
        open_state(rounds, points, alpha, lb, b, m).0.len() == 28,
        open_state(rounds, points, alpha, lb, b, m).1.len() == 28,
    decreases b, m,
{
    let st = open_state(rounds, points, alpha, lb, b, m);
    if b <= 0 && m <= 0 {
        assert(st.0.len() == 28);
        assert(st.1.len() == 28);
    } else if m <= 0 {
        lemma_open_state_len(rounds, points, alpha, lb, b - 1, rounds[b - 1]@.len() as int);
        assert(st == open_state(rounds, points, alpha, lb, b - 1, rounds[b - 1]@.len() as int));
    } else {
        lemma_open_state_len(rounds, points, alpha, lb, b, m - 1);
        let prev = open_state(rounds, points, alpha, lb, b, m - 1);
        assert(st == open_step(
            prev.0,
            prev.1,
            rounds[b]@[m - 1],
            points[b]@[m - 1]@,
            alpha,
            lb,
        ));
        assert(st.0.len() == prev.0.len());
        assert(st.1.len() == prev.1.len());
    }
    assert(st.0.len() == 28);
    assert(st.1.len() == 28);
}

/// Every matrix of every round can be opened at its points, each with the
/// power count its height's bucket has reached when its turn comes.
pub open spec fn open_all_possible(
    rounds: Seq<Vec<FpMatrix>>,
    points: Seq<Vec<Vec<u64>>>,
    alpha: u64,
    lb: nat,
) -> bool {
    forall|b: int, m: int|
        0 <= b < rounds.len() && 0 <= m < rounds[b]@.len() ==> open_matrix_possible(
            #[trigger] rounds[b]@[m],
            points[b]@[m]@,
            open_state(rounds, points, alpha, lb, b, m).1[log2_of(
                rounds[b]@[m].height(),
            ) as int],
            lb,
        )
}

impl TwoAdicFriPcs {
    /// Opens every committed batch at its points: samples nothing itself —
    /// the batching challenge comes from the caller's transcript. Returns
    /// the opened values per (matrix, point), exactly the low-coset
    /// barycentric evaluations, and one reduced-opening vector per distinct
    /// log height (an empty vector marks an unused height), accumulated
    /// matrix by matrix through `open_for_matrix`, which the folding phase
    /// consumes. `None` when a shape is unsupported or a denominator
    /// vanishes.
    pub fn open_multi_batches(
        &mut self,
        rounds: &Vec<Vec<FpMatrix>>,
        points: &Vec<Vec<Vec<u64>>>,
        alpha: u64,
    ) -> (r: Option<(Vec<Vec<Vec<Vec<u64>>>>, Vec<Vec<u64>>)>)
        requires
            old(self).wf(),
            is_elem(alpha),
            points@.len() == rounds@.len(),
            forall|b: int|
                0 <= b < rounds@.len() ==> (#[trigger] points@[b])@.len() == rounds@[b]@.len(),
            forall|b: int, m: int|
                0 <= b < rounds@.len() && 0 <= m < rounds@[b]@.len() ==> (
                #[trigger] rounds@[b]@[m]).wf(),
            forall|b: int, m: int, p: int|
                0 <= b < rounds@.len() && 0 <= m < rounds@[b]@.len() && 0 <= p
                    < points@[b]@[m]@.len() ==> is_elem(#[trigger] points@[b]@[m]@[p]),
        ensures
            final(self).wf(),
            final(self).fri == old(self).fri,
            (match r {
                Some(out) => {
                    &&& out.0@.len() == rounds@.len()
                    &&& forall|b: int|
                        0 <= b < rounds@.len() ==> (#[trigger] out.0@[b])@.len()
                            == rounds@[b]@.len()
                    &&& forall|b: int, m: int|
                        0 <= b < rounds@.len() && 0 <= m < rounds@[b]@.len() ==> (
                        #[trigger] out.0@[b]@[m])@.len() == points@[b]@[m]@.len()
                    &&& forall|b: int, m: int, p: int|
                        0 <= b < rounds@.len() && 0 <= m < rounds@[b]@.len() && 0 <= p
                            < points@[b]@[m]@.len() ==> (#[trigger] out.0@[b]@[m]@[p])@
                            == open_values_spec(
                            rounds@[b]@[m],
                            points@[b]@[m]@[p],
                            old(self).fri.log_blowup as nat,
                        )
                    &&& out.1@.len() == 28
                    &&& forall|l: int|
                        0 <= l < 28 ==> (#[trigger] out.1@[l])@.len() == 0 || out.1@[l]@.len()
                            == pow2(l as nat)
                    &&& forall|l: int, i: int|
                        0 <= l < 28 && 0 <= i < out.1@[l]@.len() ==> is_elem(
                            #[trigger] out.1@[l]@[i],
                        )
                    &&& buckets_view(out.1@) == open_state(
                        rounds@,
                        points@,
                        alpha,
                        old(self).fri.log_blowup as nat,
                        rounds@.len() as int,
                        0,
                    ).0
                },
                None => !open_all_possible(
                    rounds@,
                    points@,
                    alpha,
                    old(self).fri.log_blowup as nat,
                ),
            }),
    {
        let lb = self.fri.log_blowup;
        let mut cache: Vec<u64> = Vec::new();
        cache.push(1);
        proof {
            vstd::arithmetic::power::lemma_pow0(alpha as int);
            lemma_small_mod(1, FP as nat);
            assert(powers_cache_ok(cache@, alpha));
        }
        let mut reduced: Vec<Vec<u64>> = Vec::new();
        let mut nums: Vec<usize> = Vec::new();
        let mut l: usize = 0;
        while l < 28
            invariant
                l <= 28,
                reduced@.len() == l,
                nums@.len() == l,
                forall|k: int| 0 <= k < l ==> (#[trigger] reduced@[k])@.len() == 0,
                forall|k: int| 0 <= k < l ==> (#[trigger] nums@[k]) == 0,
            decreases 28 - l,
        {
            reduced.push(Vec::new());
            nums.push(0);
            l = l + 1;
        }
        let nb = rounds.len();
        proof {
            assert(buckets_view(reduced@) =~~= open_state(
                rounds@,
                points@,
                alpha,
                lb as nat,
                0,
                0,
            ).0);
        }
        let mut opened: Vec<Vec<Vec<Vec<u64>>>> = Vec::new();
        let mut b: usize = 0;
        while b < nb
            invariant
                self.wf(),
                self.fri == old(self).fri,
                lb == self.fri.log_blowup,
                is_elem(alpha),
                nb == rounds@.len(),
                points@.len() == rounds@.len(),
                forall|b2: int|
                    0 <= b2 < rounds@.len() ==> (#[trigger] points@[b2])@.len()
                        == rounds@[b2]@.len(),
                forall|b2: int, m: int|
                    0 <= b2 < rounds@.len() && 0 <= m < rounds@[b2]@.len() ==> (
                    #[trigger] rounds@[b2]@[m]).wf(),
                forall|b2: int, m: int, p: int|
                    0 <= b2 < rounds@.len() && 0 <= m < rounds@[b2]@.len() && 0 <= p
                        < points@[b2]@[m]@.len() ==> is_elem(#[trigger] points@[b2]@[m]@[p]),
                powers_cache_ok(cache@, alpha),
                reduced@.len() == 28,
                nums@.len() == 28,
                forall|k: int|
                    0 <= k < 28 ==> (#[trigger] reduced@[k])@.len() == 0 || reduced@[k]@.len()
                        == pow2(k as nat),
                forall|k: int, i: int|
                    0 <= k < 28 && 0 <= i < reduced@[k]@.len() ==> is_elem(
                        #[trigger] reduced@[k]@[i],
                    ),
                b <= nb,
                buckets_view(reduced@) == open_state(
                    rounds@,
                    points@,
                    alpha,
                    lb as nat,
                    b as int,
                    0,
                ).0,
                forall|l: int|
                    0 <= l < 28 ==> (#[trigger] nums@[l]) as nat == open_state(
                        rounds@,
                        points@,
                        alpha,
                        lb as nat,
                        b as int,
                        0,
                    ).1[l],
                opened@.len() == b,
                forall|b2: int|
                    0 <= b2 < b ==> (#[trigger] opened@[b2])@.len() == rounds@[b2]@.len(),
                forall|b2: int, m: int|
                    0 <= b2 < b && 0 <= m < rounds@[b2]@.len() ==> (
                    #[trigger] opened@[b2]@[m])@.len() == points@[b2]@[m]@.len(),
                forall|b2: int, m: int, p: int|
                    0 <= b2 < b && 0 <= m < rounds@[b2]@.len() && 0 <= p
                        < points@[b2]@[m]@.len() ==> (#[trigger] opened@[b2]@[m]@[p])@
                        == open_values_spec(rounds@[b2]@[m], points@[b2]@[m]@[p], lb as nat),
            decreases nb - b,
        {
            let nm = rounds[b].len();
            let mut opened_round: Vec<Vec<Vec<u64>>> = Vec::new();
            let mut m: usize = 0;
            while m < nm
                invariant
                    self.wf(),
                    lb == self.fri.log_blowup,
                    is_elem(alpha),
                    b < rounds@.len(),
                    nm == rounds@[b as int]@.len(),
                    points@.len() == rounds@.len(),
                    forall|b2: int|
                        0 <= b2 < rounds@.len() ==> (#[trigger] points@[b2])@.len()
                            == rounds@[b2]@.len(),
                    forall|b2: int, m2: int|
                        0 <= b2 < rounds@.len() && 0 <= m2 < rounds@[b2]@.len() ==> (
                        #[trigger] rounds@[b2]@[m2]).wf(),
                    forall|b2: int, m2: int, p: int|
                        0 <= b2 < rounds@.len() && 0 <= m2 < rounds@[b2]@.len() && 0 <= p
                            < points@[b2]@[m2]@.len() ==> is_elem(#[trigger] points@[b2]@[m2]@[p]),
                    powers_cache_ok(cache@, alpha),
                    reduced@.len() == 28,
                    nums@.len() == 28,
                    forall|k: int|
                        0 <= k < 28 ==> (#[trigger] reduced@[k])@.len() == 0 || reduced@[k]@.len()
                            == pow2(k as nat),
                    forall|k: int, i: int|
                        0 <= k < 28 && 0 <= i < reduced@[k]@.len() ==> is_elem(
                            #[trigger] reduced@[k]@[i],
                        ),
                    m <= nm,
                    buckets_view(reduced@) == open_state(
                        rounds@,
                        points@,
                        alpha,
                        lb as nat,
                        b as int,
                        m as int,
                    ).0,
                    forall|l: int|
                        0 <= l < 28 ==> (#[trigger] nums@[l]) as nat == open_state(
                            rounds@,
                            points@,
                            alpha,
                            lb as nat,
                            b as int,
                            m as int,
                        ).1[l],
                    opened_round@.len() == m,
                    forall|m2: int|
                        0 <= m2 < m ==> (#[trigger] opened_round@[m2])@.len()
                            == points@[b as int]@[m2]@.len(),
                    forall|m2: int, p: int|
                        0 <= m2 < m && 0 <= p < points@[b as int]@[m2]@.len() ==> (
                        #[trigger] opened_round@[m2]@[p])@ == open_values_spec(
                            rounds@[b as int]@[m2],
                            points@[b as int]@[m2]@[p],
                            lb as nat,
                        ),
                decreases nm - m,
            {
                let mat = &rounds[b][m];
                let ghost entry_buckets = buckets_view(reduced@);
                let ghost prev = open_state(
                    rounds@,
                    points@,
                    alpha,
                    lb as nat,
                    b as int,
                    m as int,
                );
                proof {
                    assert(entry_buckets == prev.0);
                }
                let h = mat.num_rows();
                let lh = match log2_strict(h) {
                    Some(k) => k,
                    None => {
                        proof {
                            if open_all_possible(rounds@, points@, alpha, lb as nat) {
                                let wb: int = b as int;
                                let wm: int = m as int;
                                assert(open_matrix_possible(
                                    rounds@[wb]@[wm],
                                    points@[wb]@[wm]@,
                                    open_state(rounds@, points@, alpha, lb as nat, wb, wm).1[
                                        log2_of(rounds@[wb]@[wm].height()) as int],
                                    lb as nat,
                                ));
                                lemma_open_matrix_possible_height(
                                    rounds@[wb]@[wm],
                                    points@[wb]@[wm]@,
                                    open_state(rounds@, points@, alpha, lb as nat, wb, wm).1[
                                        log2_of(rounds@[wb]@[wm].height()) as int],
                                    lb as nat,
                                );
                                let lh0 = choose|lh0: nat|
                                    lh0 <= 27 && rounds@[wb]@[wm].height() == #[trigger] pow2(
                                        lh0,
                                    );
                                assert(mat.height() != pow2(lh0));
                            }
                        }
                        return None;
                    },
                };
                if lh > 27 || lb > lh {
                    proof {
                        if open_all_possible(rounds@, points@, alpha, lb as nat) {
                            let wb: int = b as int;
                            let wm: int = m as int;
                            assert(open_matrix_possible(
                                rounds@[wb]@[wm],
                                points@[wb]@[wm]@,
                                open_state(rounds@, points@, alpha, lb as nat, wb, wm).1[
                                    log2_of(rounds@[wb]@[wm].height()) as int],
                                lb as nat,
                            ));
                            lemma_open_matrix_possible_unpack(
                                rounds@[wb]@[wm],
                                points@[wb]@[wm]@,
                                open_state(rounds@, points@, alpha, lb as nat, wb, wm).1[
                                    log2_of(rounds@[wb]@[wm].height()) as int],
                                lb as nat,
                                lh as nat,
                            );
                        }
                    }
                    return None;
                }
                proof {
                    lemma_log2_of(lh as nat);
                }
                let ghost acc0_spec = if entry_buckets[lh as int].len() == 0 {
                    Seq::new(mat.height(), |i: int| 0u64)
                } else {
                    entry_buckets[lh as int]
                };
                if reduced[lh].len() == 0 {
                    let z = zero_vec(h);
                    reduced.set(lh, z);
                }
                proof {
                    assert(reduced@[lh as int]@ =~= acc0_spec);
                    assert forall|l: int| 0 <= l < 28 && l != lh implies #[trigger] reduced@[l]@
                        == entry_buckets[l] by {}
                }
                let nr = nums[lh];
                let res = open_for_matrix(mat, &points[b][m], alpha, &mut cache, nr, &reduced[lh], lb);
                let (ys_per_point, newacc, nr2) = match res {
                    Some(t) => t,
                    None => {
                        proof {
                            if open_all_possible(rounds@, points@, alpha, lb as nat) {
                                let wb: int = b as int;
                                let wm: int = m as int;
                                lemma_log2_of(lh as nat);
                                assert(open_matrix_possible(
                                    rounds@[wb]@[wm],
                                    points@[wb]@[wm]@,
                                    open_state(rounds@, points@, alpha, lb as nat, wb, wm).1[
                                        log2_of(rounds@[wb]@[wm].height()) as int],
                                    lb as nat,
                                ));
                                assert(nr as nat == open_state(
                                    rounds@,
                                    points@,
                                    alpha,
                                    lb as nat,
                                    wb,
                                    wm,
                                ).1[lh as int]);
                            }
                        }
                        return None;
                    },
                };
                proof {
                    lemma_open_state_len(
                        rounds@,
                        points@,
                        alpha,
                        lb as nat,
                        b as int,
                        m as int,
                    );
                    let stepped = open_step(
                        prev.0,
                        prev.1,
                        rounds@[b as int]@[m as int],
                        points@[b as int]@[m as int]@,
                        alpha,
                        lb as nat,
                    );
                    assert(open_state(
                        rounds@,
                        points@,
                        alpha,
                        lb as nat,
                        b as int,
                        (m + 1) as int,
                    ) == stepped);
                    assert(newacc@ == acc_after_points(
                        acc0_spec,
                        rounds@[b as int]@[m as int],
                        points@[b as int]@[m as int]@,
                        alpha,
                        nr as nat,
                        lb as nat,
                        points@[b as int]@[m as int]@.len() as int,
                    ));
                    assert(nr as nat == prev.1[lh as int]);
                    assert forall|l: int|
                        0 <= l < 28 implies #[trigger] buckets_view(
                        reduced@.update(lh as int, newacc))[l] == stepped.0[l] by {
                        if l != lh {
                            assert(buckets_view(reduced@.update(lh as int, newacc))[l]
                                == reduced@[l]@);
                            assert(stepped.0[l] == prev.0[l]);
                        }
                    }
                    assert(buckets_view(reduced@.update(lh as int, newacc)) =~~= stepped.0);
                    assert forall|l: int|
                        0 <= l < 28 implies (#[trigger] nums@.update(lh as int, nr2)[l]) as nat
                        == stepped.1[l] by {
                        if l != lh {
                            assert(nums@.update(lh as int, nr2)[l] == nums@[l]);
                            assert(stepped.1[l] == prev.1[l]);
                        }
                    }
                }
                reduced.set(lh, newacc);
                nums.set(lh, nr2);
                opened_round.push(ys_per_point);
                m = m + 1;
            }
            proof {
                assert(open_state(rounds@, points@, alpha, lb as nat, (b + 1) as int, 0)
                    == open_state(rounds@, points@, alpha, lb as nat, b as int, nm as int));
            }
            opened.push(opened_round);
            b = b + 1;
        }
        Some((opened, reduced))
    }
}

/// The verifier's replay state after some fold steps: the running value,
/// the query position, the log height, and the coset shift, which squares
/// every round.
pub open spec fn chain_state(
    e0: int,
    idx0: nat,
    lh0: nat,
    sh0: u64,
    betas: Seq<u64>,
    sibs: Seq<u64>,
    r: int,
) -> (int, nat, nat, u64)
    decreases r,
{
    if r <= 0 {
        (e0, idx0, lh0, sh0)
    } else {
        let prev = chain_state(e0, idx0, lh0, sh0, betas, sibs, r - 1);
        let half = prev.1 / 2;
        let bit = prev.1 % 2;
        let lo = if bit == 0 {
            prev.0
        } else {
            sibs[r - 1] as int
        };
        let hi = if bit == 0 {
            sibs[r - 1] as int
        } else {
            prev.0
        };
        let t = fri_twiddle((prev.2 - 1) as nat, prev.3, half);
        (
            fold_row_univariate(lo, hi, betas[r - 1] as int, t),
            half,
            (prev.2 - 1) as nat,
            f_mul(prev.3 as int, prev.3 as int) as u64,
        )
    }
}

/// The domain point whose inverse the replay needs at step r of a chain.
pub open spec fn chain_point(
    e0: int,
    idx0: nat,
    lh0: nat,
    sh0: u64,
    betas: Seq<u64>,
    sibs: Seq<u64>,
    r: int,
) -> int {
    let st = chain_state(e0, idx0, lh0, sh0, betas, sibs, r);
    f_mul(
        st.3 as int,
        f_pow(two_adic_gen_val(st.2) as int, bitrev_spec(2 * (st.1 / 2), st.2)),
    )
}

/// Replays the fold chain of one query: at every round the claimed value
/// and its sibling are interpolated with the round challenge, exactly as
/// the prover folds. `None` exactly when some step's domain point has no
/// inverse.
pub fn verify_query_fold(
    index: usize,
    log_max_height: usize,
    shift0: u64,
    betas: &Vec<u64>,
    sibs: &Vec<u64>,
    start: u64,
) -> (r: Option<u64>)
    requires
        log_max_height <= 27,
        index < pow2(log_max_height as nat),
        is_elem(shift0),
        is_elem(start),
        betas@.len() == sibs@.len(),
        betas@.len() <= log_max_height,
        forall|i: int| 0 <= i < betas@.len() ==> is_elem(#[trigger] betas@[i]),
        forall|i: int| 0 <= i < sibs@.len() ==> is_elem(#[trigger] sibs@[i]),
    ensures
        (match r {
            Some(v) => is_elem(v) && v as int == chain_state(
                start as int,
                index as nat,
                log_max_height as nat,
                shift0,
                betas@,
                sibs@,
                betas@.len() as int,
            ).0,
            None => exists|r2: int|
                0 <= r2 < betas@.len() && #[trigger] chain_point(
                    start as int,
                    index as nat,
                    log_max_height as nat,
                    shift0,
                    betas@,
                    sibs@,
                    r2,
                ) == 0,
        }),
{
    let nrounds = betas.len();
    let mut e: u64 = start;
    let mut idx: usize = index;
    let mut lh: usize = log_max_height;
    let mut sh: u64 = shift0;
    let mut r0: usize = 0;
    while r0 < nrounds
        invariant
            log_max_height <= 27,
            nrounds == betas@.len(),
            betas@.len() == sibs@.len(),
            betas@.len() <= log_max_height,
            forall|i: int| 0 <= i < betas@.len() ==> is_elem(#[trigger] betas@[i]),
            forall|i: int| 0 <= i < sibs@.len() ==> is_elem(#[trigger] sibs@[i]),
            r0 <= nrounds,
            lh == log_max_height - r0,
            is_elem(e),
            is_elem(sh),
            idx < pow2(lh as nat),
            (e as int, idx as nat, lh as nat, sh) == chain_state(
                start as int,
                index as nat,
                log_max_height as nat,
                shift0,
                betas@,
                sibs@,
                r0 as int,
            ),
        decreases nrounds - r0,
    {
        let half = idx / 2;
        let bit = idx % 2;
        let s = sibs[r0];
        let (lo, hi) = if bit == 0 {
            (e, s)
        } else {
            (s, e)
        };
        let g = two_adic_generator(lh);
        proof {
            vstd::arithmetic::power2::lemma_pow2_unfold(lh as nat);
        }
        let bidx = reverse_bits_len(2 * half, lh);
        let pt = fmul(sh, fexp(g, bidx as u64));
        if pt == 0 {
            proof {
                assert(chain_point(
                    start as int,
                    index as nat,
                    log_max_height as nat,
                    shift0,
                    betas@,
                    sibs@,
                    r0 as int,
                ) == 0);
            }
            return None;
        }
        let t = finv(pt);
        proof {
            lemma_finv_char(t as int, pt as int);
            assert(t as int == fri_twiddle((lh - 1) as nat, sh, half as nat));
        }
        let sum = fadd(lo, hi);
        let diff = fmul(fsub(lo, hi), t);
        let beta = betas[r0];
        let e2 = crate::field::fhalve(fadd(sum, fmul(beta, diff)));
        let sh2 = fmul(sh, sh);
        proof {
            assert((e2 as int, half as nat, (lh - 1) as nat, sh2) == chain_state(
                start as int,
                index as nat,
                log_max_height as nat,
                shift0,
                betas@,
                sibs@,
                (r0 + 1) as int,
            ));
        }
        e = e2;
        idx = half;
        lh = lh - 1;
        sh = sh2;
        r0 = r0 + 1;
    }
    Some(e)
}


/// The per-height power counters the verifier has assigned before batch b,
/// matrix m, in commit order — the mirror of the opening side's counts,
/// read off the claimed dimensions.
pub open spec fn vcounts(
    log_heights: Seq<Vec<usize>>,
    widths: Seq<Vec<usize>>,
    points: Seq<Vec<Vec<u64>>>,
    b: int,
    m: int,
) -> Seq<nat>
    decreases b, m,
{
    if b <= 0 && m <= 0 {
        Seq::new(28, |l: int| 0nat)
    } else if m <= 0 {
        vcounts(log_heights, widths, points, b - 1, log_heights[b - 1]@.len() as int)
    } else {
        let prev = vcounts(log_heights, widths, points, b, m - 1);
        let lh = log_heights[b]@[m - 1] as int;
        if 0 <= lh < prev.len() {
            prev.update(
                lh,
                (prev[lh] + points[b]@[m - 1]@.len() * widths[b]@[m - 1]) as nat,
            )
        } else {
            prev
        }
    }
}

proof fn lemma_vcounts_len(
    log_heights: Seq<Vec<usize>>,
    widths: Seq<Vec<usize>>,
    points: Seq<Vec<Vec<u64>>>,
    b: int,
    m: int,
)
    ensures
        vcounts(log_heights, widths, points, b, m).len() == 28,
    decreases b, m,
{
    if b <= 0 && m <= 0 {
    } else if m <= 0 {
        lemma_vcounts_len(log_heights, widths, points, b - 1, log_heights[b - 1]@.len() as int);
    } else {
        lemma_vcounts_len(log_heights, widths, points, b, m - 1);
    }
}

/// One matrix's contribution to the replayed reduced opening at the queried
/// row: its claimed leaf row against its claimed evaluations, point by
/// point, exactly as the opening side accumulated them.
pub open spec fn vpoints(
    e: int,
    leaf: Seq<u64>,
    ys: Seq<Vec<u64>>,
    zs: Seq<u64>,
    alpha: u64,
    off: nat,
    w: nat,
    lh: nat,
    row: int,
    p: int,
) -> int
    decreases p,
{
    if p <= 0 {
        e
    } else {
        reduce_row_spec(
            vpoints(e, leaf, ys, zs, alpha, off, w, lh, row, p - 1),
            alpha_window(alpha, (off + (p - 1) * w) as nat, w),
            leaf,
            ys[p - 1]@,
            open_inv_denom(lh, zs[p - 1], row),
            w as int,
        )
    }
}

/// The replayed reduced-opening value at one height and queried row, after
/// folding in the first b batches and, within batch b, the first m
/// matrices, skipping matrices of other heights.
pub open spec fn vmats(
    e: int,
    lh: nat,
    row: int,
    log_heights: Seq<Vec<usize>>,
    widths: Seq<Vec<usize>>,
    points: Seq<Vec<Vec<u64>>>,
    values: Seq<Vec<Vec<Vec<u64>>>>,
    leaves: Seq<InputOpening>,
    alpha: u64,
    b: int,
    m: int,
) -> int
    decreases b, m,
{
    if b <= 0 && m <= 0 {
        e
    } else if m <= 0 {
        vmats(
            e,
            lh,
            row,
            log_heights,
            widths,
            points,
            values,
            leaves,
            alpha,
            b - 1,
            log_heights[b - 1]@.len() as int,
        )
    } else {
        let prev = vmats(
            e,
            lh,
            row,
            log_heights,
            widths,
            points,
            values,
            leaves,
            alpha,
            b,
            m - 1,
        );
        if log_heights[b]@[m - 1] == lh {
            vpoints(
                prev,
                leaves[b].opened_values@[m - 1]@,
                values[b]@[m - 1]@,
                points[b]@[m - 1]@,
                alpha,
                vcounts(log_heights, widths, points, b, m - 1)[lh as int],
                widths[b]@[m - 1] as nat,
                lh,
                row,
                points[b]@[m - 1]@.len() as int,
            )
        } else {
            prev
        }
    }
}

/// The verifier's whole replay state for one query after r rounds: mix in
/// every contribution of the current height, then fold one step with the
/// round's sibling and challenge on the current coset.
pub open spec fn vquery_state(
    idx0: nat,
    lmh: nat,
    log_heights: Seq<Vec<usize>>,
    widths: Seq<Vec<usize>>,
    points: Seq<Vec<Vec<u64>>>,
    values: Seq<Vec<Vec<Vec<u64>>>>,
    leaves: Seq<InputOpening>,
    alpha: u64,
    betas: Seq<u64>,
    sibs: Seq<u64>,
    r: int,
) -> (int, nat, nat, u64)
    decreases r,
{
    if r <= 0 {
        (0int, idx0, lmh, 31u64)
    } else {
        let prev = vquery_state(
            idx0,
            lmh,
            log_heights,
            widths,
            points,
            values,
            leaves,
            alpha,
            betas,
            sibs,
            r - 1,
        );
        let e1 = vmats(
            prev.0,
            prev.2,
            prev.1 as int,
            log_heights,
            widths,
            points,
            values,
            leaves,
            alpha,
            log_heights.len() as int,
            0,
        );
        let half = prev.1 / 2;
        let bit = prev.1 % 2;
        let lo = if bit == 0 {
            e1
        } else {
            sibs[r - 1] as int
        };
        let hi = if bit == 0 {
            sibs[r - 1] as int
        } else {
            e1
        };
        let t = fri_twiddle((prev.2 - 1) as nat, prev.3, half);
        (
            fold_row_univariate(lo, hi, betas[r - 1] as int, t),
            half,
            (prev.2 - 1) as nat,
            f_mul(prev.3 as int, prev.3 as int) as u64,
        )
    }
}

/// The sibling values a query proof carries, round by round.
pub open spec fn sibs_of(qp: FriQueryProof) -> Seq<u64> {
    Seq::new(qp.steps@.len(), |r: int| qp.steps@[r].sibling_value)
}

impl TwoAdicFriPcs {
    /// The algebraic replay of an opening proof: recomputes every query's
    /// reduced-opening value at its position from the claimed opened rows
    /// and claimed evaluations, replays the fold chain with the round
    /// challenges, and compares the outcome against the final polynomial.
    /// The transcript challenges arrive recomputed by the caller, and the
    /// inclusion proofs are checked by the commitment backend; this
    /// function rejects any proof whose algebra does not close. Nothing is
    /// ever partially accepted: the first failed check rejects the proof.
    pub fn verify_multi_batches(
        &self,
        points: &Vec<Vec<Vec<u64>>>,
        log_heights: &Vec<Vec<usize>>,
        widths: &Vec<Vec<usize>>,
        values: &Vec<Vec<Vec<Vec<u64>>>>,
        proof: &TwoAdicFriPcsProof,
        alpha: u64,
        betas: &Vec<u64>,
        query_indices: &Vec<usize>,
    ) -> (r: Result<(), PcsError>)
        requires
            self.wf(),
        ensures
            (match r {
                Ok(u) => {
                    &&& self.fri.log_blowup + betas@.len() <= 27
                    &&& proof.fri_proof.final_poly@.len() == pow2(self.fri.log_blowup as nat)
                    &&& proof.fri_proof.query_proofs@.len() == query_indices@.len()
                    &&& proof.input_openings@.len() == query_indices@.len()
                    &&& forall|q: int|
                        0 <= q < query_indices@.len() ==> ({
                            let st = vquery_state(
                                query_indices@[q] as nat,
                                (self.fri.log_blowup + betas@.len()) as nat,
                                log_heights@,
                                widths@,
                                points@,
                                values@,
                                proof.input_openings@[q]@,
                                alpha,
                                betas@,
                                sibs_of(#[trigger] proof.fri_proof.query_proofs@[q]),
                                betas@.len() as int,
                            );
                            st.0 == proof.fri_proof.final_poly@[st.1 as int] as int
                        })
                },
                Err(e) => !(e matches PcsError::ZeroBlowup),
            }),
    {
        let lb = self.fri.log_blowup;
        if lb > 27 || betas.len() > 27 - lb {
            return Err(PcsError::ShapeMismatch);
        }
        let lmh = lb + betas.len();
        if alpha >= crate::field::FP {
            return Err(PcsError::ShapeMismatch);
        }
        let nb = log_heights.len();
        if points.len() != nb || widths.len() != nb || values.len() != nb {
            return Err(PcsError::ShapeMismatch);
        }
        let nq = query_indices.len();
        if proof.fri_proof.query_proofs.len() != nq || proof.input_openings.len() != nq {
            return Err(PcsError::ShapeMismatch);
        }
        let final_len = pow2_usize(lb);
        if proof.fri_proof.final_poly.len() != final_len {
            return Err(PcsError::ShapeMismatch);
        }
        let mut bi: usize = 0;
        while bi < betas.len()
            invariant
                bi <= betas@.len(),
                forall|i: int| 0 <= i < bi ==> is_elem(#[trigger] betas@[i]),
            decreases betas@.len() - bi,
        {
            if betas[bi] >= crate::field::FP {
                return Err(PcsError::ShapeMismatch);
            }
            bi = bi + 1;
        }
        // The per-height running power counts, assigned in commit order.
        let mut offsets: Vec<Vec<usize>> = Vec::new();
        let mut cnt: Vec<usize> = Vec::new();
        let mut l0: usize = 0;
        while l0 < 28
            invariant
                l0 <= 28,
                cnt@.len() == l0,
                forall|k: int| 0 <= k < l0 ==> (#[trigger] cnt@[k]) == 0,
            decreases 28 - l0,
        {
            cnt.push(0);
            l0 = l0 + 1;
        }
        proof {
            lemma_vcounts_len(log_heights@, widths@, points@, 0, 0);
            assert forall|k: int| 0 <= k < 28 implies (#[trigger] cnt@[k]) as nat == vcounts(
                log_heights@,
                widths@,
                points@,
                0,
                0,
            )[k] by {}
        }
        let mut b: usize = 0;
        while b < nb
            invariant
                nb == log_heights@.len(),
                points@.len() == nb,
                widths@.len() == nb,
                cnt@.len() == 28,
                forall|k: int| 0 <= k < 28 ==> (#[trigger] cnt@[k]) <= 0x2000000,
                forall|k: int|
                    0 <= k < 28 ==> (#[trigger] cnt@[k]) as nat == vcounts(
                        log_heights@,
                        widths@,
                        points@,
                        b as int,
                        0,
                    )[k],
                b <= nb,
                offsets@.len() == b,
                forall|b2: int|
                    0 <= b2 < b ==> (#[trigger] offsets@[b2])@.len() == log_heights@[b2]@.len(),
                forall|b2: int, m2: int|
                    0 <= b2 < b && 0 <= m2 < offsets@[b2]@.len() ==> (
                    #[trigger] offsets@[b2]@[m2]) <= 0x2000000,
                forall|b2: int, m2: int|
                    0 <= b2 < b && 0 <= m2 < offsets@[b2]@.len() ==> (
                    #[trigger] offsets@[b2]@[m2]) as nat == vcounts(
                        log_heights@,
                        widths@,
                        points@,
                        b2,
                        m2,
                    )[log_heights@[b2]@[m2] as int],
            decreases nb - b,
        {
            if points[b].len() != log_heights[b].len() || widths[b].len()
                != log_heights[b].len() {
                return Err(PcsError::ShapeMismatch);
            }
            let nm = log_heights[b].len();
            let mut row: Vec<usize> = Vec::new();
            let mut m: usize = 0;
            while m < nm
                invariant
                    b < nb,
                    nb == log_heights@.len(),
                    points@.len() == nb,
                    widths@.len() == nb,
                    points@[b as int]@.len() == log_heights@[b as int]@.len(),
                    widths@[b as int]@.len() == log_heights@[b as int]@.len(),
                    nm == log_heights@[b as int]@.len(),
                    cnt@.len() == 28,
                    forall|k: int| 0 <= k < 28 ==> (#[trigger] cnt@[k]) <= 0x2000000,
                    forall|k: int|
                        0 <= k < 28 ==> (#[trigger] cnt@[k]) as nat == vcounts(
                            log_heights@,
                            widths@,
                            points@,
                            b as int,
                            m as int,
                        )[k],
                    m <= nm,
                    row@.len() == m,
                    forall|m2: int| 0 <= m2 < m ==> (#[trigger] row@[m2]) <= 0x2000000,
                    forall|m2: int|
                        0 <= m2 < m ==> (#[trigger] row@[m2]) as nat == vcounts(
                            log_heights@,
                            widths@,
                            points@,
                            b as int,
                            m2,
                        )[log_heights@[b as int]@[m2] as int],
                decreases nm - m,
            {
                let lh = log_heights[b][m];
                let w = widths[b][m];
                let np = points[b][m].len();
                if lh > 27 || lh < lb || w > 0x10000 || np > 0x100 {
                    return Err(PcsError::ShapeMismatch);
                }
                row.push(cnt[lh]);
                proof {
                    assert((np as int) * (w as int) <= 0x1000000) by (nonlinear_arith)
                        requires
                            0 <= (np as int) <= 0x100,
                            0 <= (w as int) <= 0x10000,
                    ;
                }
                let add = np * w;
                if cnt[lh] > 0x1000000 {
                    return Err(PcsError::ShapeMismatch);
                }
                let newc = cnt[lh] + add;
                proof {
                    lemma_vcounts_len(log_heights@, widths@, points@, b as int, m as int);
                    let prev = vcounts(log_heights@, widths@, points@, b as int, m as int);
                    assert(vcounts(log_heights@, widths@, points@, b as int, (m + 1) as int)
                        == prev.update(
                        lh as int,
                        (prev[lh as int] + points@[b as int]@[m as int]@.len()
                            * widths@[b as int]@[m as int]) as nat,
                    ));
                    assert forall|k: int|
                        0 <= k < 28 implies (#[trigger] cnt@.update(lh as int, newc)[k]) as nat
                        == vcounts(
                        log_heights@,
                        widths@,
                        points@,
                        b as int,
                        (m + 1) as int,
                    )[k] by {}
                }
                cnt.set(lh, newc);
                m = m + 1;
            }
            proof {
                assert(vcounts(log_heights@, widths@, points@, (b + 1) as int, 0) == vcounts(
                    log_heights@,
                    widths@,
                    points@,
                    b as int,
                    nm as int,
                ));
            }
            offsets.push(row);
            b = b + 1;
        }
        let mut cache: Vec<u64> = Vec::new();
        cache.push(1);
        proof {
            vstd::arithmetic::power::lemma_pow0(alpha as int);
            lemma_small_mod(1, FP as nat);
        }
        let mut q: usize = 0;
        while q < nq
            invariant
                self.wf(),
                lb == self.fri.log_blowup,
                lb <= 27,
                betas@.len() <= 27 - lb,
                lmh == lb + betas@.len(),
                is_elem(alpha),
                forall|i: int| 0 <= i < betas@.len() ==> is_elem(#[trigger] betas@[i]),
                nb == log_heights@.len(),
                points@.len() == nb,
                widths@.len() == nb,
                values@.len() == nb,
                nq == query_indices@.len(),
                proof.fri_proof.query_proofs@.len() == nq,
                proof.input_openings@.len() == nq,
                proof.fri_proof.final_poly@.len() == final_len,
                final_len == pow2(lb as nat),
                offsets@.len() == nb,
                forall|b2: int|
                    0 <= b2 < nb ==> (#[trigger] offsets@[b2])@.len() == log_heights@[b2]@.len(),
                forall|b2: int, m2: int|
                    0 <= b2 < nb && 0 <= m2 < offsets@[b2]@.len() ==> (
                    #[trigger] offsets@[b2]@[m2]) <= 0x2000000,
                forall|b2: int, m2: int|
                    0 <= b2 < nb && 0 <= m2 < offsets@[b2]@.len() ==> (
                    #[trigger] offsets@[b2]@[m2]) as nat == vcounts(
                        log_heights@,
                        widths@,
                        points@,
                        b2,
                        m2,
                    )[log_heights@[b2]@[m2] as int],
                powers_cache_ok(cache@, alpha),
                q <= nq,
                forall|q2: int|
                    0 <= q2 < q ==> ({
                        let st = vquery_state(
                            query_indices@[q2] as nat,
                            lmh as nat,
                            log_heights@,
                            widths@,
                            points@,
                            values@,
                            proof.input_openings@[q2]@,
                            alpha,
                            betas@,
                            sibs_of(#[trigger] proof.fri_proof.query_proofs@[q2]),
                            betas@.len() as int,
                        );
                        st.0 == proof.fri_proof.final_poly@[st.1 as int] as int
                    }),
            decreases nq - q,
        {
            let idx0 = query_indices[q];
            let max_h = pow2_usize(lmh);
            if idx0 >= max_h {
                return Err(PcsError::ShapeMismatch);
            }
            if proof.fri_proof.query_proofs[q].steps.len() != betas.len() {
                return Err(PcsError::ShapeMismatch);
            }
            if proof.input_openings[q].len() != nb {
                return Err(PcsError::ShapeMismatch);
            }
            let ghost leaves_q = proof.input_openings@[q as int]@;
            let ghost sibs_q = sibs_of(proof.fri_proof.query_proofs@[q as int]);
            let mut e: u64 = 0;
            let mut cur_idx: usize = idx0;
            let mut cur_lh: usize = lmh;
            let csh = self.coset_shift();
            let mut cur_sh: u64 = csh;
            let mut r0: usize = 0;
            while r0 < betas.len()
                invariant
                    self.wf(),
                    lb == self.fri.log_blowup,
                    lb <= 27,
                    betas@.len() <= 27 - lb,
                    lmh == lb + betas@.len(),
                    is_elem(alpha),
                    forall|i: int| 0 <= i < betas@.len() ==> is_elem(#[trigger] betas@[i]),
                    nb == log_heights@.len(),
                    points@.len() == nb,
                    widths@.len() == nb,
                    values@.len() == nb,
                    q < nq,
                    nq == query_indices@.len(),
                    idx0 == query_indices@[q as int],
                    proof.fri_proof.query_proofs@.len() == nq,
                    proof.input_openings@.len() == nq,
                    proof.input_openings@[q as int]@.len() == nb,
                    proof.fri_proof.query_proofs@[q as int].steps@.len() == betas@.len(),
                    leaves_q == proof.input_openings@[q as int]@,
                    sibs_q == sibs_of(proof.fri_proof.query_proofs@[q as int]),
                    offsets@.len() == nb,
                    forall|b2: int|
                        0 <= b2 < nb ==> (#[trigger] offsets@[b2])@.len()
                            == log_heights@[b2]@.len(),
                    forall|b2: int, m2: int|
                        0 <= b2 < nb && 0 <= m2 < offsets@[b2]@.len() ==> (
                        #[trigger] offsets@[b2]@[m2]) <= 0x2000000,
                    forall|b2: int, m2: int|
                        0 <= b2 < nb && 0 <= m2 < offsets@[b2]@.len() ==> (
                        #[trigger] offsets@[b2]@[m2]) as nat == vcounts(
                            log_heights@,
                            widths@,
                            points@,
                            b2,
                            m2,
                        )[log_heights@[b2]@[m2] as int],
                    powers_cache_ok(cache@, alpha),
                    r0 <= betas@.len(),
                    cur_lh == lmh - r0,
                    lb <= cur_lh <= lmh <= 27,
                    is_elem(e),
                    csh == 31u64,
                    is_elem(cur_sh),
                    cur_idx < pow2(cur_lh as nat),
                    (e as int, cur_idx as nat, cur_lh as nat, cur_sh) == vquery_state(
                        idx0 as nat,
                        lmh as nat,
                        log_heights@,
                        widths@,
                        points@,
                        values@,
                        leaves_q,
                        alpha,
                        betas@,
                        sibs_q,
                        r0 as int,
                    ),
                decreases betas@.len() - r0,
            {
                let ghost e_start = e as int;
                // Mix the reduced-opening contribution of this height in.
                let mut b2: usize = 0;
                while b2 < nb
                    invariant
                        self.wf(),
                        is_elem(alpha),
                        nb == log_heights@.len(),
                        points@.len() == nb,
                        widths@.len() == nb,
                        values@.len() == nb,
                        q < nq,
                        proof.input_openings@.len() == nq,
                        proof.input_openings@[q as int]@.len() == nb,
                        leaves_q == proof.input_openings@[q as int]@,
                        offsets@.len() == nb,
                        forall|b3: int|
                            0 <= b3 < nb ==> (#[trigger] offsets@[b3])@.len()
                                == log_heights@[b3]@.len(),
                        forall|b3: int, m3: int|
                            0 <= b3 < nb && 0 <= m3 < offsets@[b3]@.len() ==> (
                            #[trigger] offsets@[b3]@[m3]) <= 0x2000000,
                        forall|b3: int, m3: int|
                            0 <= b3 < nb && 0 <= m3 < offsets@[b3]@.len() ==> (
                            #[trigger] offsets@[b3]@[m3]) as nat == vcounts(
                                log_heights@,
                                widths@,
                                points@,
                                b3,
                                m3,
                            )[log_heights@[b3]@[m3] as int],
                        powers_cache_ok(cache@, alpha),
                        cur_lh <= 27,
                        cur_idx < pow2(cur_lh as nat),
                        csh == 31u64,
                        is_elem(e),
                        b2 <= nb,
                        e as int == vmats(
                            e_start,
                            cur_lh as nat,
                            cur_idx as int,
                            log_heights@,
                            widths@,
                            points@,
                            values@,
                            leaves_q,
                            alpha,
                            b2 as int,
                            0,
                        ),
                    decreases nb - b2,
                {
                    if points[b2].len() != log_heights[b2].len() || widths[b2].len()
                        != log_heights[b2].len() || values[b2].len() != log_heights[b2].len()
                        || proof.input_openings[q][b2].opened_values.len()
                        != log_heights[b2].len() {
                        return Err(PcsError::ShapeMismatch);
                    }
                    let nm = log_heights[b2].len();
                    let mut m2: usize = 0;
                    while m2 < nm
                        invariant
                            self.wf(),
                            is_elem(alpha),
                            nb == log_heights@.len(),
                            b2 < nb,
                            points@.len() == nb,
                            widths@.len() == nb,
                            values@.len() == nb,
                            q < nq,
                            proof.input_openings@.len() == nq,
                            proof.input_openings@[q as int]@.len() == nb,
                            leaves_q == proof.input_openings@[q as int]@,
                            nm == log_heights@[b2 as int]@.len(),
                            points@[b2 as int]@.len() == nm,
                            widths@[b2 as int]@.len() == nm,
                            values@[b2 as int]@.len() == nm,
                            proof.input_openings@[q as int]@[b2 as int].opened_values@.len()
                                == nm,
                            offsets@.len() == nb,
                            forall|b3: int|
                                0 <= b3 < nb ==> (#[trigger] offsets@[b3])@.len()
                                    == log_heights@[b3]@.len(),
                            forall|b3: int, m3: int|
                                0 <= b3 < nb && 0 <= m3 < offsets@[b3]@.len() ==> (
                                #[trigger] offsets@[b3]@[m3]) <= 0x2000000,
                            forall|b3: int, m3: int|
                                0 <= b3 < nb && 0 <= m3 < offsets@[b3]@.len() ==> (
                                #[trigger] offsets@[b3]@[m3]) as nat == vcounts(
                                    log_heights@,
                                    widths@,
                                    points@,
                                    b3,
                                    m3,
                                )[log_heights@[b3]@[m3] as int],
                            powers_cache_ok(cache@, alpha),
                            cur_lh <= 27,
                            cur_idx < pow2(cur_lh as nat),
                            csh == 31u64,
                            is_elem(e),
                            m2 <= nm,
                            e as int == vmats(
                                e_start,
                                cur_lh as nat,
                                cur_idx as int,
                                log_heights@,
                                widths@,
                                points@,
                                values@,
                                leaves_q,
                                alpha,
                                b2 as int,
                                m2 as int,
                            ),
                        decreases nm - m2,
                    {
                        let ghost e_mat = e as int;
                        if log_heights[b2][m2] == cur_lh {
                            let w = widths[b2][m2];
                            let np = points[b2][m2].len();
                            if w > 0x10000 || np > 0x100 {
                                return Err(PcsError::ShapeMismatch);
                            }
                            let leaf = &proof.input_openings[q][b2].opened_values[m2];
                            if leaf.len() != w {
                                return Err(PcsError::ShapeMismatch);
                            }
                            let mut c0: usize = 0;
                            while c0 < w
                                invariant
                                    w == leaf@.len(),
                                    c0 <= w,
                                    forall|c2: int| 0 <= c2 < c0 ==> is_elem(#[trigger] leaf@[c2]),
                                decreases w - c0,
                            {
                                if leaf[c0] >= crate::field::FP {
                                    return Err(PcsError::ShapeMismatch);
                                }
                                c0 = c0 + 1;
                            }
                            let g = two_adic_generator(cur_lh);
                            let bidx = reverse_bits_len(cur_idx, cur_lh);
                            let x = fmul(csh, fexp(g, bidx as u64));
                            proof {
                                assert(x as int == stored_point(cur_lh as nat, cur_idx as int));
                            }
                            if values[b2][m2].len() != np {
                                return Err(PcsError::ShapeMismatch);
                            }
                            let off = offsets[b2][m2];
                            let mut p2: usize = 0;
                            while p2 < np
                                invariant
                                    self.wf(),
                                    is_elem(alpha),
                                    b2 < nb,
                                    m2 < nm,
                                    points@.len() == nb,
                                    values@.len() == nb,
                                    nb == log_heights@.len(),
                                    points@[b2 as int]@.len() == nm,
                                    values@[b2 as int]@.len() == nm,
                                    nm == log_heights@[b2 as int]@.len(),
                                    np == points@[b2 as int]@[m2 as int]@.len(),
                                    values@[b2 as int]@[m2 as int]@.len() == np,
                                    np <= 0x100,
                                    w <= 0x10000,
                                    w == widths@[b2 as int]@[m2 as int],
                                    w == leaf@.len(),
                                    leaf@ == leaves_q[b2 as int].opened_values@[m2 as int]@,
                                    forall|c2: int|
                                        0 <= c2 < w ==> is_elem(#[trigger] leaf@[c2]),
                                    is_elem(x),
                                    x as int == stored_point(cur_lh as nat, cur_idx as int),
                                    off == offsets@[b2 as int]@[m2 as int],
                                    off <= 0x2000000,
                                    off as nat == vcounts(
                                        log_heights@,
                                        widths@,
                                        points@,
                                        b2 as int,
                                        m2 as int,
                                    )[cur_lh as int],
                                    log_heights@[b2 as int]@[m2 as int] == cur_lh,
                                    powers_cache_ok(cache@, alpha),
                                    cur_lh <= 27,
                                    is_elem(e),
                                    p2 <= np,
                                    e as int == vpoints(
                                        e_mat,
                                        leaf@,
                                        values@[b2 as int]@[m2 as int]@,
                                        points@[b2 as int]@[m2 as int]@,
                                        alpha,
                                        off as nat,
                                        w as nat,
                                        cur_lh as nat,
                                        cur_idx as int,
                                        p2 as int,
                                    ),
                                decreases np - p2,
                            {
                                let z = points[b2][m2][p2];
                                if z >= crate::field::FP {
                                    return Err(PcsError::ShapeMismatch);
                                }
                                let d = fsub(x, z);
                                if d == 0 {
                                    return Err(PcsError::FoldMismatch);
                                }
                                let dinv = finv(d);
                                proof {
                                    lemma_finv_char(dinv as int, d as int);
                                    assert(dinv as int == open_inv_denom(
                                        cur_lh as nat,
                                        z,
                                        cur_idx as int,
                                    ));
                                }
                                let ys = &values[b2][m2][p2];
                                if ys.len() != w {
                                    return Err(PcsError::ShapeMismatch);
                                }
                                proof {
                                    assert((p2 as int) * (w as int) <= 0x1000000)
                                        by (nonlinear_arith)
                                        requires
                                            0 <= (p2 as int) <= 0x100,
                                            0 <= (w as int) <= 0x10000,
                                    ;
                                }
                                let apows = get_cached_powers(
                                    alpha,
                                    &mut cache,
                                    off + p2 * w,
                                    w,
                                );
                                proof {
                                    assert(apows@ =~= alpha_window(
                                        alpha,
                                        (off + p2 * w) as nat,
                                        w as nat,
                                    ));
                                }
                                let ghost e_pt = e as int;
                                let mut c: usize = 0;
                                while c < w
                                    invariant
                                        w == leaf@.len(),
                                        ys@.len() == w,
                                        apows@.len() == w,
                                        forall|c2: int|
                                            0 <= c2 < w ==> is_elem(#[trigger] leaf@[c2]),
                                        is_elem(dinv),
                                        forall|c2: int|
                                            0 <= c2 < w ==> is_elem(#[trigger] apows@[c2]),
                                        is_elem(e),
                                        c <= w,
                                        e as int == reduce_row_spec(
                                            e_pt,
                                            apows@,
                                            leaf@,
                                            ys@,
                                            dinv as int,
                                            c as int,
                                        ),
                                    decreases w - c,
                                {
                                    if ys[c] >= crate::field::FP {
                                        return Err(PcsError::ShapeMismatch);
                                    }
                                    let term = fmul(apows[c], fmul(fsub(leaf[c], ys[c]), dinv));
                                    e = fadd(e, term);
                                    c = c + 1;
                                }
                                proof {
                                    assert(e as int == vpoints(
                                        e_mat,
                                        leaf@,
                                        values@[b2 as int]@[m2 as int]@,
                                        points@[b2 as int]@[m2 as int]@,
                                        alpha,
                                        off as nat,
                                        w as nat,
                                        cur_lh as nat,
                                        cur_idx as int,
                                        (p2 + 1) as int,
                                    ));
                                }
                                p2 = p2 + 1;
                            }
                        }
                        proof {
                            assert(vmats(
                                e_start,
                                cur_lh as nat,
                                cur_idx as int,
                                log_heights@,
                                widths@,
                                points@,
                                values@,
                                leaves_q,
                                alpha,
                                b2 as int,
                                (m2 + 1) as int,
                            ) == (if log_heights@[b2 as int]@[m2 as int] == cur_lh as nat {
                                vpoints(
                                    e_mat,
                                    leaves_q[b2 as int].opened_values@[m2 as int]@,
                                    values@[b2 as int]@[m2 as int]@,
                                    points@[b2 as int]@[m2 as int]@,
                                    alpha,
                                    vcounts(
                                        log_heights@,
                                        widths@,
                                        points@,
                                        b2 as int,
                                        m2 as int,
                                    )[cur_lh as int],
                                    widths@[b2 as int]@[m2 as int] as nat,
                                    cur_lh as nat,
                                    cur_idx as int,
                                    points@[b2 as int]@[m2 as int]@.len() as int,
                                )
                            } else {
                                e_mat
                            }));
                        }
                        m2 = m2 + 1;
                    }
                    proof {
                        assert(vmats(
                            e_start,
                            cur_lh as nat,
                            cur_idx as int,
                            log_heights@,
                            widths@,
                            points@,
                            values@,
                            leaves_q,
                            alpha,
                            (b2 + 1) as int,
                            0,
                        ) == vmats(
                            e_start,
                            cur_lh as nat,
                            cur_idx as int,
                            log_heights@,
                            widths@,
                            points@,
                            values@,
                            leaves_q,
                            alpha,
                            b2 as int,
                            nm as int,
                        ));
                    }
                    b2 = b2 + 1;
                }
                // One fold step down.
                let half = cur_idx / 2;
                let bit = cur_idx % 2;
                let s = proof.fri_proof.query_proofs[q].steps[r0].sibling_value;
                if s >= crate::field::FP {
                    return Err(PcsError::ShapeMismatch);
                }
                let (lo, hi) = if bit == 0 {
                    (e, s)
                } else {
                    (s, e)
                };
                let g = two_adic_generator(cur_lh);
                proof {
                    vstd::arithmetic::power2::lemma_pow2_unfold(cur_lh as nat);
                }
                let bidx = reverse_bits_len(2 * half, cur_lh);
                let pt = fmul(cur_sh, fexp(g, bidx as u64));
                if pt == 0 {
                    return Err(PcsError::FoldMismatch);
                }
                let t = finv(pt);
                proof {
                    lemma_finv_char(t as int, pt as int);
                    assert(t as int == fri_twiddle((cur_lh - 1) as nat, cur_sh, half as nat));
                    assert(sibs_q[r0 as int] == s);
                }
                let sum = fadd(lo, hi);
                let diff = fmul(fsub(lo, hi), t);
                let e2 = crate::field::fhalve(fadd(sum, fmul(betas[r0], diff)));
                let sh2 = fmul(cur_sh, cur_sh);
                proof {
                    assert((e2 as int, half as nat, (cur_lh - 1) as nat, sh2) == vquery_state(
                        idx0 as nat,
                        lmh as nat,
                        log_heights@,
                        widths@,
                        points@,
                        values@,
                        leaves_q,
                        alpha,
                        betas@,
                        sibs_q,
                        (r0 + 1) as int,
                    ));
                }
                e = e2;
                cur_sh = sh2;
                cur_idx = half;
                cur_lh = cur_lh - 1;
                r0 = r0 + 1;
            }
            if e != proof.fri_proof.final_poly[cur_idx] {
                return Err(PcsError::FinalPolyMismatch);
            }
            q = q + 1;
        }
        Ok(())
    }
}

} // verus!
