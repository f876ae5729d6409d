//! The radix-2 decimation-in-time engine: a butterfly network split into two
//! halves of layers, with a bit-reversal between them so that every layer
//! works on small independent blocks, plus the twiddle tables it consumes.
use vstd::prelude::*;
use vstd::pervasive::VecAdditionalExecFns;
use vstd::arithmetic::power2::{
    pow2, lemma_pow2_unfold, lemma_pow2_adds, lemma_pow2_pos, lemma2_to64,
    lemma_pow2_strictly_increases,
};
use vstd::arithmetic::div_mod::{
    lemma_fundamental_div_mod, lemma_mod_twice, lemma_small_mod,
};
use crate::field::{
    FP, f_mul, f_pow, f_inv, is_elem, fmul, fexp, fexp_pow2, finv, shifted_powers,
    two_adic_generator, two_adic_gen_val, lemma_finv_char,
};
use crate::matrix::{
    FpMatrix, row_fma_spec, row_fms_spec, row_fma, row_fms, bitrev_rows_spec,
};
use crate::bitrev::{
    bitrev_vals_spec, bitrev_permute_vals, pow2_usize,
};

verus! {

/// The table 1, base, base^2, ..., of length n: every twiddle table has
/// this shape for some base and shift.
pub open spec fn twiddle_table_spec(base: int, n: nat) -> Seq<u64> {
    Seq::new(n, |i: int| f_pow(base, i as nat) as u64)
}

/// Forward twiddles for height 2^log_h: powers of the subgroup generator,
/// half the height many.
pub open spec fn forward_twiddles_spec(log_h: nat) -> Seq<u64> {
    twiddle_table_spec(two_adic_gen_val(log_h) as int, (pow2(log_h) / 2) as nat)
}

/// Inverse twiddles: powers of the inverse generator.
pub open spec fn inverse_twiddles_spec(log_h: nat) -> Seq<u64> {
    twiddle_table_spec(f_inv(two_adic_gen_val(log_h) as int), (pow2(log_h) / 2) as nat)
}

/// A twiddle table in natural order beside the same table bit-reversed:
/// the first half of the network reads the one, the second half the other.
pub struct VectorPair {
    pub twiddles: Vec<u64>,
    pub bit_reversed_twiddles: Vec<u64>,
}

impl VectorPair {
    pub open spec fn is_table(&self, base: int, log_h: nat) -> bool {
        &&& self.twiddles@ == twiddle_table_spec(base, (pow2(log_h) / 2) as nat)
        &&& self.bit_reversed_twiddles@ == bitrev_vals_spec(
            self.twiddles@,
            (log_h - 1) as nat,
        )
        &&& forall|i: int|
            0 <= i < self.twiddles@.len() ==> is_elem(#[trigger] self.twiddles@[i])
        &&& forall|i: int|
            0 <= i < self.bit_reversed_twiddles@.len() ==> is_elem(
                #[trigger] self.bit_reversed_twiddles@[i],
            )
    }

    pub fn duplicate(&self) -> (r: VectorPair)
        ensures
            r.twiddles@ == self.twiddles@,
            r.bit_reversed_twiddles@ == self.bit_reversed_twiddles@,
    {
        VectorPair {
            twiddles: self.twiddles.clone(),
            bit_reversed_twiddles: self.bit_reversed_twiddles.clone(),
        }
    }
}

/// The powers 1, base, base^2, ... as a table of canonical residues.
fn powers_table(base: u64, n: usize) -> (r: Vec<u64>)
    requires
        is_elem(base),
    ensures
        r@ == twiddle_table_spec(base as int, n as nat),
        r@.len() == n,
        forall|i: int| 0 <= i < n ==> is_elem(#[trigger] r@[i]),
{
    let r = shifted_powers(base, 1, n);
    proof {
        assert forall|i: int| 0 <= i < n implies r@[i] == twiddle_table_spec(
            base as int,
            n as nat,
        )[i] by {
            lemma_mod_twice(vstd::arithmetic::power::pow(base as int, i as nat), FP as int);
        }
        assert(r@ =~= twiddle_table_spec(base as int, n as nat));
    }
    r
}

/// Builds a natural-order table and its bit-reversed companion.
fn build_vector_pair(base: u64, log_h: usize) -> (r: VectorPair)
    requires
        is_elem(base),
        1 <= log_h <= 27,
    ensures
        r.is_table(base as int, log_h as nat),
{
    let half_h = pow2_usize(log_h) / 2;
    proof {
        lemma_pow2_unfold(log_h as nat);
        assert(half_h as nat == pow2((log_h - 1) as nat));
    }
    let twiddles = powers_table(base, half_h);
    let bit_reversed_twiddles = bitrev_permute_vals(&twiddles, log_h - 1);
    proof {
        assert forall|i: int|
            0 <= i < bit_reversed_twiddles@.len() implies is_elem(
            #[trigger] bit_reversed_twiddles@[i]) by {
            crate::bitrev::lemma_bitrev_bound(i as nat, (log_h - 1) as nat);
            assert(bit_reversed_twiddles@[i] == twiddles@[
                crate::bitrev::bitrev_spec(i as nat, (log_h - 1) as nat) as int]);
        }
    }
    VectorPair { twiddles, bit_reversed_twiddles }
}

/// Twiddles based on roots of unity, used in the forward transform.
pub fn compute_twiddles(log_h: usize) -> (r: VectorPair)
    requires
        1 <= log_h <= 27,
    ensures
        r.is_table(two_adic_gen_val(log_h as nat) as int, log_h as nat),
{
    let root = two_adic_generator(log_h);
    build_vector_pair(root, log_h)
}

/// Twiddles based on inverse roots of unity, used in the inverse transform.
pub fn compute_inverse_twiddles(log_h: usize) -> (r: VectorPair)
    requires
        1 <= log_h <= 27,
    ensures
        r.is_table(f_inv(two_adic_gen_val(log_h as nat) as int), log_h as nat),
{
    let root = two_adic_generator(log_h);
    let root_inv = finv(root);
    proof {
        lemma_finv_char(root_inv as int, root as int);
    }
    build_vector_pair(root_inv, log_h)
}

/// In a layer with half-blocks of `block/2` rows, the whole block around
/// row `r` still lies inside the matrix.
proof fn lemma_block_bound(r: int, block: int, h: int)
    requires
        0 < block,
        0 <= r < h,
        h % block == 0,
    ensures
        r - (r % block) + block <= h,
        r / block < h / block,
        0 <= r % block <= r,
        0 <= r / block,
{
    let q = r % block;
    let d = r / block;
    lemma_fundamental_div_mod(r, block);
    lemma_fundamental_div_mod(h, block);
    assert(d >= 0) by (nonlinear_arith)
        requires
            block > 0,
            r >= 0,
            r == block * d + q,
            0 <= q < block,
    ;
    assert(block * d >= 0) by (nonlinear_arith)
        requires
            block > 0,
            d >= 0,
    ;
    assert(d < h / block) by (nonlinear_arith)
        requires
            block > 0,
            r == block * d + q,
            0 <= q < block,
            h == block * (h / block),
            r < h,
    ;
    assert(block * (d + 1) <= block * (h / block)) by (nonlinear_arith)
        requires
            block > 0,
            d + 1 <= h / block,
    ;
    assert(block * (d + 1) == block * d + block) by (nonlinear_arith);
}

/// A pair index below `half` keeps its strided twiddle index inside the table.
proof fn lemma_stride_index(q: int, half: int, stride: int, lim: int)
    requires
        0 <= q < half,
        1 <= stride,
        half * stride <= lim,
    ensures
        0 <= q * stride,
        q * stride < lim,
{
    assert(q * stride < half * stride) by (nonlinear_arith)
        requires
            0 <= q < half,
            stride >= 1,
    ;
    assert(q * stride >= 0) by (nonlinear_arith)
        requires
            q >= 0,
            stride >= 0,
    ;
}

/// One decimation-in-time layer: within each block of 2^(layer+1) rows, pair
/// q combines rows (lo, hi) into (lo + t*hi, lo - t*hi) with twiddle
/// tw[q * stride].
pub open spec fn dit_row_spec(
    m: Seq<Seq<u64>>,
    layer: nat,
    tw: Seq<u64>,
    stride: nat,
    r: int,
) -> Seq<u64> {
    let half = pow2(layer) as int;
    let block = 2 * half;
    let q = r % block;
    if q < half {
        row_fma_spec(m[r], m[r + half], tw[q * stride])
    } else {
        row_fms_spec(m[r - half], m[r], tw[(q - half) * stride])
    }
}

pub open spec fn dit_layer_spec(
    m: Seq<Seq<u64>>,
    layer: nat,
    tw: Seq<u64>,
    stride: nat,
) -> Seq<Seq<u64>> {
    Seq::new(m.len(), |r: int| dit_row_spec(m, layer, tw, stride, r))
}

/// The same butterflies with rows in bit-reversed order: blocks have
/// 2^(layer_rev+1) rows and block b reads the single twiddle tw_rev[b].
pub open spec fn dit_rev_row_spec(
    m: Seq<Seq<u64>>,
    layer_rev: nat,
    tw_rev: Seq<u64>,
    r: int,
) -> Seq<u64> {
    let half = pow2(layer_rev) as int;
    let block = 2 * half;
    let q = r % block;
    let b = r / block;
    if q < half {
        row_fma_spec(m[r], m[r + half], tw_rev[b])
    } else {
        row_fms_spec(m[r - half], m[r], tw_rev[b])
    }
}

pub open spec fn dit_layer_rev_spec(
    m: Seq<Seq<u64>>,
    layer_rev: nat,
    tw_rev: Seq<u64>,
) -> Seq<Seq<u64>> {
    Seq::new(m.len(), |r: int| dit_rev_row_spec(m, layer_rev, tw_rev, r))
}

/// One layer of the decimation-in-time butterfly network.
pub fn dit_layer(
    m: &FpMatrix,
    log_h: usize,
    layer: usize,
    tw: &Vec<u64>,
    stride: usize,
) -> (r: FpMatrix)
    requires
        m.wf(),
        log_h <= 27,
        m.height() == pow2(log_h as nat),
        layer < log_h,
        stride >= 1,
        pow2(layer as nat) * stride <= tw@.len(),
        forall|i: int| 0 <= i < tw@.len() ==> is_elem(#[trigger] tw@[i]),
    ensures
        r.wf(),
        r.width == m.width,
        r.height() == m.height(),
        r.view_rows() == dit_layer_spec(m.view_rows(), layer as nat, tw@, stride as nat),
{
    let h = m.num_rows();
    let half = pow2_usize(layer);
    proof {
        lemma_pow2_pos(layer as nat);
        lemma_pow2_unfold((layer + 1) as nat);
        lemma_pow2_adds((layer + 1) as nat, (log_h - layer - 1) as nat);
        assert(pow2(log_h as nat) == pow2((layer + 1) as nat) * pow2((log_h - layer - 1) as nat));
        lemma2_to64();
        if (log_h as nat) < 31 {
            lemma_pow2_strictly_increases(log_h as nat, 31);
        }
    }
    let block = 2 * half;
    let ghost hb = h as nat / block as nat;
    proof {
        assert(h as int % block as int == 0) by (nonlinear_arith)
            requires
                h as int == block as int * pow2((log_h - layer - 1) as nat),
                block as int > 0,
        ;
    }
    let tw_len = tw.len();
    let mut out: Vec<Vec<u64>> = Vec::new();
    let mut rr: usize = 0;
    while rr < h
        invariant
            m.wf(),
            log_h <= 27,
            m.height() == pow2(log_h as nat),
            layer < log_h,
            stride >= 1,
            tw_len == tw@.len(),
            pow2(layer as nat) * stride <= tw@.len(),
            forall|i: int| 0 <= i < tw@.len() ==> is_elem(#[trigger] tw@[i]),
            h == m.height(),
            half as nat == pow2(layer as nat),
            half >= 1,
            block == 2 * half,
            h as int % block as int == 0,
            rr <= h,
            out@.len() == rr,
            forall|j: int|
                0 <= j < rr ==> #[trigger] out@[j]@ == dit_row_spec(
                    m.view_rows(),
                    layer as nat,
                    tw@,
                    stride as nat,
                    j,
                ),
        decreases h - rr,
    {
        let q = rr % block;
        proof {
            lemma_block_bound(rr as int, block as int, h as int);
        }
        let row: Vec<u64> = if q < half {
            proof {
                lemma_stride_index(q as int, half as int, stride as int, tw_len as int);
            }
            let t = tw[q * stride];
            row_fma(&m.rows[rr], &m.rows[rr + half], t)
        } else {
            proof {
                lemma_stride_index(
                    q - half,
                    half as int,
                    stride as int,
                    tw_len as int,
                );
            }
            let t = tw[(q - half) * stride];
            row_fms(&m.rows[rr - half], &m.rows[rr], t)
        };
        out.push(row);
        rr = rr + 1;
    }
    let r = FpMatrix { rows: out, width: m.width };
    proof {
        assert forall|j: int| 0 <= j < r.view_rows().len() implies r.view_rows()[j]
            == dit_layer_spec(m.view_rows(), layer as nat, tw@, stride as nat)[j] by {
            assert(r.view_rows()[j] == out@[j]@);
        }
        assert(r.view_rows() =~~= dit_layer_spec(
            m.view_rows(),
            layer as nat,
            tw@,
            stride as nat,
        ));
        assert forall|i: int| 0 <= i < r.rows@.len() implies (#[trigger] r.rows@[i])@.len()
            == r.width by {
            assert(out@[i]@ == dit_row_spec(m.view_rows(), layer as nat, tw@, stride as nat, i));
            lemma_block_bound(i, block as int, h as int);
        }
        assert forall|i: int, j: int|
            0 <= i < r.rows@.len() && 0 <= j < r.width implies (#[trigger] r.rows@[i]@[j])
            < FP by {
            assert(out@[i]@ == dit_row_spec(m.view_rows(), layer as nat, tw@, stride as nat, i));
            lemma_block_bound(i, block as int, h as int);
        }
    }
    r
}

/// One layer of the reversed network (the transposed ordering the second
/// half of the split runs in).
pub fn dit_layer_rev(
    m: &FpMatrix,
    log_h: usize,
    layer_rev: usize,
    tw_rev: &Vec<u64>,
) -> (r: FpMatrix)
    requires
        m.wf(),
        log_h <= 27,
        m.height() == pow2(log_h as nat),
        layer_rev < log_h,
        pow2((log_h - layer_rev - 1) as nat) <= tw_rev@.len(),
        forall|i: int| 0 <= i < tw_rev@.len() ==> is_elem(#[trigger] tw_rev@[i]),
    ensures
        r.wf(),
        r.width == m.width,
        r.height() == m.height(),
        r.view_rows() == dit_layer_rev_spec(m.view_rows(), layer_rev as nat, tw_rev@),
{
    let h = m.num_rows();
    let half = pow2_usize(layer_rev);
    proof {
        lemma_pow2_pos(layer_rev as nat);
        lemma_pow2_unfold((layer_rev + 1) as nat);
        lemma_pow2_adds((layer_rev + 1) as nat, (log_h - layer_rev - 1) as nat);
        lemma2_to64();
        if (log_h as nat) < 31 {
            lemma_pow2_strictly_increases(log_h as nat, 31);
        }
    }
    let block = 2 * half;
    proof {
        assert(h as int % block as int == 0 && h as int / block as int == pow2(
            (log_h - layer_rev - 1) as nat,
        )) by (nonlinear_arith)
            requires
                h as int == block as int * pow2((log_h - layer_rev - 1) as nat),
                block as int > 0,
        ;
    }
    let mut out: Vec<Vec<u64>> = Vec::new();
    let mut rr: usize = 0;
    while rr < h
        invariant
            m.wf(),
            log_h <= 27,
            m.height() == pow2(log_h as nat),
            layer_rev < log_h,
            pow2((log_h - layer_rev - 1) as nat) <= tw_rev@.len(),
            forall|i: int| 0 <= i < tw_rev@.len() ==> is_elem(#[trigger] tw_rev@[i]),
            h == m.height(),
            half as nat == pow2(layer_rev as nat),
            half >= 1,
            block == 2 * half,
            h as int % block as int == 0,
            h as int / block as int == pow2((log_h - layer_rev - 1) as nat),
            rr <= h,
            out@.len() == rr,
            forall|j: int|
                0 <= j < rr ==> #[trigger] out@[j]@ == dit_rev_row_spec(
                    m.view_rows(),
                    layer_rev as nat,
                    tw_rev@,
                    j,
                ),
        decreases h - rr,
    {
        let q = rr % block;
        let b = rr / block;
        proof {
            lemma_block_bound(rr as int, block as int, h as int);
        }
        let t = tw_rev[b];
        let row: Vec<u64> = if q < half {
            row_fma(&m.rows[rr], &m.rows[rr + half], t)
        } else {
            row_fms(&m.rows[rr - half], &m.rows[rr], t)
        };
        out.push(row);
        rr = rr + 1;
    }
    let r = FpMatrix { rows: out, width: m.width };
    proof {
        assert(r.view_rows() =~~= dit_layer_rev_spec(m.view_rows(), layer_rev as nat, tw_rev@));
        assert forall|i: int| 0 <= i < r.rows@.len() implies (#[trigger] r.rows@[i])@.len()
            == r.width by {
            assert(out@[i]@ == dit_rev_row_spec(m.view_rows(), layer_rev as nat, tw_rev@, i));
            lemma_block_bound(i, block as int, h as int);
        }
        assert forall|i: int, j: int|
            0 <= i < r.rows@.len() && 0 <= j < r.width implies (#[trigger] r.rows@[i]@[j])
            < FP by {
            assert(out@[i]@ == dit_rev_row_spec(m.view_rows(), layer_rev as nat, tw_rev@, i));
            lemma_block_bound(i, block as int, h as int);
        }
    }
    r
}


/// Powers of two are distinct, so a height names its log uniquely.
pub proof fn lemma_pow2_injective(a: nat, b: nat)
    requires
        pow2(a) == pow2(b),
    ensures
        a == b,
{
    if a < b {
        lemma_pow2_strictly_increases(a, b);
    } else if b < a {
        lemma_pow2_strictly_increases(b, a);
    }
}

/// The first `l` layers of the standard network, lowest layer first;
/// layer j reads the natural-order table with stride 2^(log_h - 1 - j).
pub open spec fn first_half_spec(m: Seq<Seq<u64>>, tw: Seq<u64>, log_h: nat, l: nat) -> Seq<
    Seq<u64>,
>
    decreases l,
{
    if l == 0 {
        m
    } else {
        dit_layer_spec(
            first_half_spec(m, tw, log_h, (l - 1) as nat),
            (l - 1) as nat,
            tw,
            pow2((log_h - l) as nat),
        )
    }
}

/// Layers mid..l of the reversed network, run after the interleaving
/// bit-reversal; layer j works at reversed depth log_h - 1 - j.
pub open spec fn second_half_spec(
    m: Seq<Seq<u64>>,
    tw_rev: Seq<u64>,
    log_h: nat,
    mid: nat,
    l: nat,
) -> Seq<Seq<u64>>
    decreases l,
{
    if l <= mid {
        m
    } else {
        dit_layer_rev_spec(
            second_half_spec(m, tw_rev, log_h, mid, (l - 1) as nat),
            (log_h - l) as nat,
            tw_rev,
        )
    }
}

/// The first half of the butterfly network: layers 0..mid over independent
/// row blocks.
pub fn par_dit_layer(m: &FpMatrix, log_h: usize, mid: usize, tw: &Vec<u64>) -> (r: FpMatrix)
    requires
        m.wf(),
        log_h <= 27,
        m.height() == pow2(log_h as nat),
        mid <= log_h,
        tw@.len() == pow2(log_h as nat) / 2,
        forall|i: int| 0 <= i < tw@.len() ==> is_elem(#[trigger] tw@[i]),
    ensures
        r.wf(),
        r.width == m.width,
        r.height() == m.height(),
        r.view_rows() == first_half_spec(m.view_rows(), tw@, log_h as nat, mid as nat),
{
    let mut cur = crate::matrix::clone_matrix(m);
    proof {
        assert(cur.view_rows() == first_half_spec(m.view_rows(), tw@, log_h as nat, 0));
    }
    let mut layer: usize = 0;
    while layer < mid
        invariant
            m.wf(),
            log_h <= 27,
            m.height() == pow2(log_h as nat),
            mid <= log_h,
            tw@.len() == pow2(log_h as nat) / 2,
            forall|i: int| 0 <= i < tw@.len() ==> is_elem(#[trigger] tw@[i]),
            layer <= mid,
            cur.wf(),
            cur.width == m.width,
            cur.height() == m.height(),
            cur.view_rows() == first_half_spec(m.view_rows(), tw@, log_h as nat, layer as nat),
        decreases mid - layer,
    {
        let stride = crate::bitrev::pow2_usize(log_h - 1 - layer);
        proof {
            lemma_pow2_pos((log_h - 1 - layer) as nat);
            lemma_pow2_adds(layer as nat, (log_h - 1 - layer) as nat);
            lemma_pow2_unfold(log_h as nat);
        }
        let nxt = dit_layer(&cur, log_h, layer, tw, stride);
        proof {
            assert(first_half_spec(m.view_rows(), tw@, log_h as nat, (layer + 1) as nat)
                == dit_layer_spec(
                first_half_spec(m.view_rows(), tw@, log_h as nat, layer as nat),
                layer as nat,
                tw@,
                pow2((log_h - layer - 1) as nat),
            ));
        }
        cur = nxt;
        layer = layer + 1;
    }
    cur
}

/// The second half: layers mid..log_h of the reversed network.
pub fn par_dit_layer_rev(m: &FpMatrix, log_h: usize, mid: usize, tw_rev: &Vec<u64>) -> (r:
    FpMatrix)
    requires
        m.wf(),
        log_h <= 27,
        m.height() == pow2(log_h as nat),
        mid <= log_h,
        tw_rev@.len() == pow2(log_h as nat) / 2,
        forall|i: int| 0 <= i < tw_rev@.len() ==> is_elem(#[trigger] tw_rev@[i]),
    ensures
        r.wf(),
        r.width == m.width,
        r.height() == m.height(),
        r.view_rows() == second_half_spec(
            m.view_rows(),
            tw_rev@,
            log_h as nat,
            mid as nat,
            log_h as nat,
        ),
{
    let mut cur = crate::matrix::clone_matrix(m);
    let mut layer: usize = mid;
    while layer < log_h
        invariant
            m.wf(),
            log_h <= 27,
            m.height() == pow2(log_h as nat),
            mid <= layer <= log_h,
            tw_rev@.len() == pow2(log_h as nat) / 2,
            forall|i: int| 0 <= i < tw_rev@.len() ==> is_elem(#[trigger] tw_rev@[i]),
            cur.wf(),
            cur.width == m.width,
            cur.height() == m.height(),
            cur.view_rows() == second_half_spec(
                m.view_rows(),
                tw_rev@,
                log_h as nat,
                mid as nat,
                layer as nat,
            ),
        decreases log_h - layer,
    {
        let layer_rev = log_h - 1 - layer;
        proof {
            lemma_pow2_unfold(log_h as nat);
            if (layer as nat) < (log_h - 1) as nat {
                lemma_pow2_strictly_increases(layer as nat, (log_h - 1) as nat);
            }
            assert(pow2((log_h - layer_rev - 1) as nat) <= tw_rev@.len());
        }
        let nxt = dit_layer_rev(&cur, log_h, layer_rev, tw_rev);
        proof {
            assert(second_half_spec(
                m.view_rows(),
                tw_rev@,
                log_h as nat,
                mid as nat,
                (layer + 1) as nat,
            ) == dit_layer_rev_spec(
                second_half_spec(m.view_rows(), tw_rev@, log_h as nat, mid as nat, layer as nat),
                (log_h - layer - 1) as nat,
                tw_rev@,
            ));
        }
        cur = nxt;
        layer = layer + 1;
    }
    cur
}


/// One memoized coset table: the per-layer twiddles for a height and shift.
pub struct CosetEntry {
    pub log_h: usize,
    pub shift: u64,
    pub tables: Vec<Vec<u64>>,
}

/// The per-layer coset twiddle tables for height 2^log_h and a shift:
/// layer index tl holds shift^(2^tl) times the powers of root^(2^tl),
/// bit-reversed for the tables the second half of the network reads.
pub open spec fn coset_layer_spec(log_h: nat, shift: u64, tl: int) -> Seq<u64> {
    let blen = (log_h - 1 - tl) as nat;
    let base = f_pow(two_adic_gen_val(log_h) as int, pow2(tl as nat));
    let sp = f_pow(shift as int, pow2(tl as nat));
    let tbl = Seq::new(pow2(blen), |q: int| f_mul(sp, f_pow(base, q as nat)) as u64);
    if blen >= log_h / 2 {
        bitrev_vals_spec(tbl, blen)
    } else {
        tbl
    }
}

pub open spec fn coset_twiddles_spec(log_h: nat, shift: u64) -> Seq<Seq<u64>> {
    Seq::new(log_h, |tl: int| coset_layer_spec(log_h, shift, tl))
}

/// Every coset twiddle is a canonical residue.
proof fn lemma_coset_layer_elem(log_h: nat, shift: u64, tl: int, q: int)
    requires
        0 <= tl < log_h,
        0 <= q < coset_layer_spec(log_h, shift, tl).len(),
    ensures
        is_elem(coset_layer_spec(log_h, shift, tl)[q]),
{
    let blen = (log_h - 1 - tl) as nat;
    if blen >= log_h / 2 {
        crate::bitrev::lemma_bitrev_bound(q as nat, blen);
    }
}

impl CosetEntry {
    pub open spec fn wf(&self) -> bool {
        &&& self.log_h <= 27
        &&& is_elem(self.shift)
        &&& self.tables@.len() == self.log_h
        &&& forall|tl: int|
            0 <= tl < self.log_h ==> (#[trigger] self.tables@[tl])@ == coset_layer_spec(
                self.log_h as nat,
                self.shift,
                tl,
            )
    }
}

/// Computes the per-layer twiddles with the coset shift baked in; which
/// layers are stored bit-reversed follows from the half of the network
/// that reads them.
pub fn compute_coset_twiddles(log_h: usize, shift: u64) -> (r: Vec<Vec<u64>>)
    requires
        log_h <= 27,
        is_elem(shift),
    ensures
        r@.len() == log_h,
        forall|tl: int|
            0 <= tl < log_h ==> (#[trigger] r@[tl])@ == coset_layer_spec(
                log_h as nat,
                shift,
                tl,
            ),
{
    let mid = log_h / 2;
    let root = two_adic_generator(log_h);
    let mut r: Vec<Vec<u64>> = Vec::new();
    let mut tl: usize = 0;
    while tl < log_h
        invariant
            log_h <= 27,
            is_elem(shift),
            is_elem(root),
            root as nat == two_adic_gen_val(log_h as nat),
            mid == log_h / 2,
            tl <= log_h,
            r@.len() == tl,
            forall|j: int|
                0 <= j < tl ==> (#[trigger] r@[j])@ == coset_layer_spec(
                    log_h as nat,
                    shift,
                    j,
                ),
        decreases log_h - tl,
    {
        let blen = log_h - 1 - tl;
        let len = crate::bitrev::pow2_usize(blen);
        let base = fexp_pow2(root, tl);
        let sp = fexp_pow2(shift, tl);
        let tbl = shifted_powers(base, sp, len);
        proof {
            assert(tbl@ =~= Seq::new(
                pow2(blen as nat),
                |q: int|
                    f_mul(
                        f_pow(shift as int, pow2(tl as nat)),
                        f_pow(f_pow(two_adic_gen_val(log_h as nat) as int, pow2(tl as nat)), q as nat),
                    ) as u64,
            ));
        }
        let entry: Vec<u64> = if blen >= mid {
            bitrev_permute_vals(&tbl, blen)
        } else {
            tbl
        };
        proof {
            assert(entry@ =~= coset_layer_spec(log_h as nat, shift, tl as int));
        }
        r.push(entry);
        tl = tl + 1;
    }
    r
}

/// The engine: a split butterfly network beside three lazily filled
/// twiddle caches (forward, inverse, and coset-keyed-by-shift); each fetch
/// either reads a table computed before or computes and stores it.
pub struct Radix2DitParallel {
    twiddles: Vec<Option<VectorPair>>,
    coset_twiddles: Vec<CosetEntry>,
    inverse_twiddles: Vec<Option<VectorPair>>,
}

impl Radix2DitParallel {
    /// The forward twiddle cache, one slot per supported log height.
    pub closed spec fn forward_cache(&self) -> Seq<Option<VectorPair>> {
        self.twiddles@
    }

    /// The inverse twiddle cache.
    pub closed spec fn inverse_cache(&self) -> Seq<Option<VectorPair>> {
        self.inverse_twiddles@
    }

    /// The coset twiddle cache, keyed by height and shift, in insertion order.
    pub closed spec fn coset_cache(&self) -> Seq<CosetEntry> {
        self.coset_twiddles@
    }

    pub closed spec fn wf(&self) -> bool {
        &&& self.twiddles@.len() == 28
        &&& self.inverse_twiddles@.len() == 28
        &&& forall|k: int|
            0 <= k < 28 ==> ((#[trigger] self.twiddles@[k]) matches Some(vp) ==> vp.is_table(
                two_adic_gen_val(k as nat) as int,
                k as nat,
            ))
        &&& forall|k: int|
            0 <= k < 28 ==> ((#[trigger] self.inverse_twiddles@[k]) matches Some(vp)
                ==> vp.is_table(f_inv(two_adic_gen_val(k as nat) as int), k as nat))
        &&& forall|e: int|
            0 <= e < self.coset_twiddles@.len() ==> (#[trigger] self.coset_twiddles@[e]).wf()
    }

    pub fn new() -> (r: Radix2DitParallel)
        ensures
            r.wf(),
    {
        let mut twiddles: Vec<Option<VectorPair>> = Vec::new();
        let mut inverse_twiddles: Vec<Option<VectorPair>> = Vec::new();
        let mut i: usize = 0;
        while i < 28
            invariant
                i <= 28,
                twiddles@.len() == i,
                inverse_twiddles@.len() == i,
                forall|k: int| 0 <= k < i ==> (#[trigger] twiddles@[k]) is None,
                forall|k: int| 0 <= k < i ==> (#[trigger] inverse_twiddles@[k]) is None,
            decreases 28 - i,
        {
            twiddles.push(None);
            inverse_twiddles.push(None);
            i = i + 1;
        }
        Radix2DitParallel { twiddles, coset_twiddles: Vec::new(), inverse_twiddles }
    }

    /// Fetch-or-insert on the forward cache.
    fn get_twiddles(&mut self, log_h: usize) -> (r: VectorPair)
        requires
            old(self).wf(),
            1 <= log_h <= 27,
        ensures
            final(self).wf(),
            r.is_table(two_adic_gen_val(log_h as nat) as int, log_h as nat),
            final(self).inverse_cache() == old(self).inverse_cache(),
            final(self).coset_cache() == old(self).coset_cache(),
            final(self).forward_cache().len() == old(self).forward_cache().len(),
            forall|k: int|
                0 <= k < 28 && k != log_h ==> final(self).forward_cache()[k]
                    == old(self).forward_cache()[k],
            old(self).forward_cache()[log_h as int] is Some ==> final(self).forward_cache()
                == old(self).forward_cache(),
    {
        if self.twiddles[log_h].is_none() {
            let vp = compute_twiddles(log_h);
            self.twiddles.set(log_h, Some(vp));
        }
        match &self.twiddles[log_h] {
            Some(vp) => vp.duplicate(),
            None => {
                proof {
                    assert(false);
                }
                VectorPair { twiddles: Vec::new(), bit_reversed_twiddles: Vec::new() }
            },
        }
    }

    /// Fetch-or-insert on the inverse cache.
    fn get_inverse_twiddles(&mut self, log_h: usize) -> (r: VectorPair)
        requires
            old(self).wf(),
            1 <= log_h <= 27,
        ensures
            final(self).wf(),
            r.is_table(f_inv(two_adic_gen_val(log_h as nat) as int), log_h as nat),
            final(self).forward_cache() == old(self).forward_cache(),
            final(self).coset_cache() == old(self).coset_cache(),
            final(self).inverse_cache().len() == old(self).inverse_cache().len(),
            forall|k: int|
                0 <= k < 28 && k != log_h ==> final(self).inverse_cache()[k]
                    == old(self).inverse_cache()[k],
            old(self).inverse_cache()[log_h as int] is Some ==> final(self).inverse_cache()
                == old(self).inverse_cache(),
    {
        if self.inverse_twiddles[log_h].is_none() {
            let vp = compute_inverse_twiddles(log_h);
            self.inverse_twiddles.set(log_h, Some(vp));
        }
        match &self.inverse_twiddles[log_h] {
            Some(vp) => vp.duplicate(),
            None => {
                proof {
                    assert(false);
                }
                VectorPair { twiddles: Vec::new(), bit_reversed_twiddles: Vec::new() }
            },
        }
    }

    /// Fetch-or-insert on the coset cache, keyed by height and shift.
    fn get_coset_twiddles(&mut self, log_h: usize, shift: u64) -> (r: Vec<Vec<u64>>)
        requires
            old(self).wf(),
            log_h <= 27,
            is_elem(shift),
        ensures
            final(self).wf(),
            r@.len() == log_h,
            forall|tl: int|
                0 <= tl < log_h ==> (#[trigger] r@[tl])@ == coset_layer_spec(
                    log_h as nat,
                    shift,
                    tl,
                ),
            final(self).forward_cache() == old(self).forward_cache(),
            final(self).inverse_cache() == old(self).inverse_cache(),
            old(self).coset_cache().len() <= final(self).coset_cache().len()
                <= old(self).coset_cache().len() + 1,
            forall|e: int|
                0 <= e < old(self).coset_cache().len() ==> final(self).coset_cache()[e]
                    == old(self).coset_cache()[e],
    {
        let n = self.coset_twiddles.len();
        let mut e: usize = 0;
        while e < n
            invariant
                self.wf(),
                n == self.coset_twiddles@.len(),
                e <= n,
            decreases n - e,
        {
            let hit = self.coset_twiddles[e].log_h == log_h && self.coset_twiddles[e].shift
                == shift;
            if hit {
                return clone_tables(&self.coset_twiddles[e].tables);
            }
            e = e + 1;
        }
        let tables = compute_coset_twiddles(log_h, shift);
        let out = clone_tables(&tables);
        self.coset_twiddles.push(CosetEntry { log_h, shift, tables });
        out
    }
}

/// A fresh copy of a set of per-layer tables.
fn clone_tables(t: &Vec<Vec<u64>>) -> (r: Vec<Vec<u64>>)
    ensures
        r@.len() == t@.len(),
        forall|i: int| 0 <= i < t@.len() ==> (#[trigger] r@[i])@ == t@[i]@,
{
    let n = t.len();
    let mut r: Vec<Vec<u64>> = Vec::new();
    let mut i: usize = 0;
    while i < n
        invariant
            n == t@.len(),
            i <= n,
            r@.len() == i,
            forall|j: int| 0 <= j < i ==> (#[trigger] r@[j])@ == t@[j]@,
        decreases n - i,
    {
        r.push(t[i].clone());
        i = i + 1;
    }
    r
}


/// Every row scaled by one factor.
pub open spec fn scale_rows_spec(m: Seq<Seq<u64>>, t: u64) -> Seq<Seq<u64>> {
    Seq::new(m.len(), |i: int| crate::matrix::row_scale_spec(m[i], t))
}

/// Multiplies every value of the matrix by `t`: division by the height is
/// a multiplication by its inverse.
pub fn scale_matrix(m: &FpMatrix, t: u64) -> (r: FpMatrix)
    requires
        m.wf(),
        is_elem(t),
    ensures
        r.wf(),
        r.width == m.width,
        r.height() == m.height(),
        r.view_rows() == scale_rows_spec(m.view_rows(), t),
{
    let n = m.rows.len();
    let mut out: Vec<Vec<u64>> = Vec::new();
    let mut i: usize = 0;
    while i < n
        invariant
            m.wf(),
            is_elem(t),
            n == m.height(),
            i <= n,
            out@.len() == i,
            forall|j: int|
                0 <= j < i ==> #[trigger] out@[j]@ == crate::matrix::row_scale_spec(
                    m.rows@[j]@,
                    t,
                ),
        decreases n - i,
    {
        out.push(crate::matrix::row_scale(&m.rows[i], t));
        i = i + 1;
    }
    let r = FpMatrix { rows: out, width: m.width };
    proof {
        assert(r.view_rows() =~~= scale_rows_spec(m.view_rows(), t));
        assert forall|i2: int, j: int|
            0 <= i2 < r.rows@.len() && 0 <= j < r.width implies (#[trigger] r.rows@[i2]@[j])
            < FP by {
            assert(r.rows@[i2]@ == crate::matrix::row_scale_spec(m.rows@[i2]@, t));
        }
    }
    r
}

/// The first `l` layers of the coset network, reading the per-layer tables
/// with stride one.
pub open spec fn coset_first_half_spec(
    m: Seq<Seq<u64>>,
    tws: Seq<Seq<u64>>,
    log_h: nat,
    l: nat,
) -> Seq<Seq<u64>>
    decreases l,
{
    if l == 0 {
        m
    } else {
        dit_layer_spec(
            coset_first_half_spec(m, tws, log_h, (l - 1) as nat),
            (l - 1) as nat,
            tws[(log_h - l) as int],
            1,
        )
    }
}

/// Layers mid..l of the reversed coset network; layer j reads the table at
/// its reversed depth, one twiddle per block.
pub open spec fn coset_second_half_spec(
    m: Seq<Seq<u64>>,
    tws: Seq<Seq<u64>>,
    log_h: nat,
    mid: nat,
    l: nat,
) -> Seq<Seq<u64>>
    decreases l,
{
    if l <= mid {
        m
    } else {
        dit_layer_rev_spec(
            coset_second_half_spec(m, tws, log_h, mid, (l - 1) as nat),
            (log_h - l) as nat,
            tws[(log_h - l) as int],
        )
    }
}

/// The forward transform over the coset shift*H, on a matrix that arrives
/// with bit-reversed rows (the inverse pass leaves it so).
pub open spec fn coset_dft_spec(m: Seq<Seq<u64>>, log_h: nat, shift: u64) -> Seq<Seq<u64>> {
    let tws = coset_twiddles_spec(log_h, shift);
    let mid = log_h / 2;
    coset_second_half_spec(
        bitrev_rows_spec(coset_first_half_spec(m, tws, log_h, mid), log_h),
        tws,
        log_h,
        mid,
        log_h,
    )
}

/// Runs one coset-shifted forward transform, fetching the shift's twiddle
/// tables from the engine's coset cache.
pub fn coset_dft(dft: &mut Radix2DitParallel, m: &FpMatrix, shift: u64, log_h: usize) -> (r:
    FpMatrix)
    requires
        old(dft).wf(),
        m.wf(),
        is_elem(shift),
        log_h <= 27,
        m.height() == pow2(log_h as nat),
    ensures
        final(dft).wf(),
        r.wf(),
        r.width == m.width,
        r.height() == m.height(),
        r.view_rows() == coset_dft_spec(m.view_rows(), log_h as nat, shift),
        final(dft).forward_cache() == old(dft).forward_cache(),
        final(dft).inverse_cache() == old(dft).inverse_cache(),
        old(dft).coset_cache().len() <= final(dft).coset_cache().len()
            <= old(dft).coset_cache().len() + 1,
        forall|e: int|
            0 <= e < old(dft).coset_cache().len() ==> final(dft).coset_cache()[e]
                == old(dft).coset_cache()[e],
{
    let tables = dft.get_coset_twiddles(log_h, shift);
    let ghost tws = coset_twiddles_spec(log_h as nat, shift);
    proof {
        assert forall|tl: int| 0 <= tl < log_h implies (#[trigger] tables@[tl])@ == tws[tl] by {}
    }
    let mid = log_h / 2;
    let mut cur = crate::matrix::clone_matrix(m);
    proof {
        assert(cur.view_rows() == coset_first_half_spec(m.view_rows(), tws, log_h as nat, 0));
    }
    let mut layer: usize = 0;
    while layer < mid
        invariant
            dft.wf(),
            m.wf(),
            is_elem(shift),
            log_h <= 27,
            m.height() == pow2(log_h as nat),
            mid == log_h / 2,
            tables@.len() == log_h,
            tws == coset_twiddles_spec(log_h as nat, shift),
            forall|tl: int| 0 <= tl < log_h ==> (#[trigger] tables@[tl])@ == tws[tl],
            layer <= mid,
            cur.wf(),
            cur.width == m.width,
            cur.height() == m.height(),
            cur.view_rows() == coset_first_half_spec(
                m.view_rows(),
                tws,
                log_h as nat,
                layer as nat,
            ),
        decreases mid - layer,
    {
        let layer_rev = log_h - 1 - layer;
        proof {
            assert(tables@[layer_rev as int]@ == coset_layer_spec(
                log_h as nat,
                shift,
                layer_rev as int,
            ));
            assert(coset_layer_spec(log_h as nat, shift, layer_rev as int).len() == pow2(
                layer as nat,
            ));
            assert forall|q: int|
                0 <= q < tables@[layer_rev as int]@.len() implies is_elem(
                #[trigger] tables@[layer_rev as int]@[q]) by {
                lemma_coset_layer_elem(log_h as nat, shift, layer_rev as int, q);
            }
            assert(pow2(layer as nat) * 1 == pow2(layer as nat)) by (nonlinear_arith);
        }
        let nxt = dit_layer(&cur, log_h, layer, &tables[layer_rev], 1);
        proof {
            assert(coset_first_half_spec(m.view_rows(), tws, log_h as nat, (layer + 1) as nat)
                == dit_layer_spec(
                coset_first_half_spec(m.view_rows(), tws, log_h as nat, layer as nat),
                layer as nat,
                tws[(log_h - layer - 1) as int],
                1,
            ));
        }
        cur = nxt;
        layer = layer + 1;
    }
    let mut cur2 = crate::matrix::bit_reverse_rows(&cur, log_h);
    let ghost mstate = cur2.view_rows();
    proof {
        assert(cur2.view_rows() == coset_second_half_spec(
            mstate,
            tws,
            log_h as nat,
            mid as nat,
            mid as nat,
        ));
    }
    let mut layer2: usize = mid;
    while layer2 < log_h
        invariant
            dft.wf(),
            m.wf(),
            is_elem(shift),
            log_h <= 27,
            m.height() == pow2(log_h as nat),
            mid == log_h / 2,
            tables@.len() == log_h,
            tws == coset_twiddles_spec(log_h as nat, shift),
            forall|tl: int| 0 <= tl < log_h ==> (#[trigger] tables@[tl])@ == tws[tl],
            mid <= layer2 <= log_h,
            cur2.wf(),
            cur2.width == m.width,
            cur2.height() == m.height(),
            cur2.view_rows() == coset_second_half_spec(
                mstate,
                tws,
                log_h as nat,
                mid as nat,
                layer2 as nat,
            ),
        decreases log_h - layer2,
    {
        let layer_rev = log_h - 1 - layer2;
        proof {
            assert(tables@[layer_rev as int]@ == coset_layer_spec(
                log_h as nat,
                shift,
                layer_rev as int,
            ));
            assert(coset_layer_spec(log_h as nat, shift, layer_rev as int).len() == pow2(
                layer2 as nat,
            ));
            assert forall|q: int|
                0 <= q < tables@[layer_rev as int]@.len() implies is_elem(
                #[trigger] tables@[layer_rev as int]@[q]) by {
                lemma_coset_layer_elem(log_h as nat, shift, layer_rev as int, q);
            }
        }
        let nxt = dit_layer_rev(&cur2, log_h, layer_rev, &tables[layer_rev]);
        proof {
            assert(coset_second_half_spec(
                mstate,
                tws,
                log_h as nat,
                mid as nat,
                (layer2 + 1) as nat,
            ) == dit_layer_rev_spec(
                coset_second_half_spec(mstate, tws, log_h as nat, mid as nat, layer2 as nat),
                (log_h - layer2 - 1) as nat,
                tws[(log_h - layer2 - 1) as int],
            ));
        }
        cur2 = nxt;
        layer2 = layer2 + 1;
    }
    cur2
}


/// Heights the engine supports: powers of two within the field's two-adicity.
pub open spec fn dft_supported_height(h: nat) -> bool {
    exists|k: nat| k <= 27 && h == pow2(k)
}

/// The whole forward transform: bit-reverse, the first half of the layers,
/// bit-reverse, then the second half running in bit-reversed order — so
/// the rows of the result stand in bit-reversed evaluation order, which is
/// what the folding stage consumes.
pub open spec fn dft_batch_spec(m: Seq<Seq<u64>>, log_h: nat) -> Seq<Seq<u64>> {
    let tw = forward_twiddles_spec(log_h);
    let twr = bitrev_vals_spec(tw, (log_h - 1) as nat);
    let mid = log_h / 2;
    second_half_spec(
        bitrev_rows_spec(first_half_spec(bitrev_rows_spec(m, log_h), tw, log_h, mid), log_h),
        twr,
        log_h,
        mid,
        log_h,
    )
}

/// The coefficient buffer the inverse passes leave behind, in bit-reversed
/// order and divided by the height.
pub open spec fn idft_coeffs_spec(m: Seq<Seq<u64>>, log_h: nat) -> Seq<Seq<u64>> {
    let tw = inverse_twiddles_spec(log_h);
    let twr = bitrev_vals_spec(tw, (log_h - 1) as nat);
    let mid = log_h / 2;
    let hinv = f_inv(pow2(log_h) as int) as u64;
    scale_rows_spec(
        second_half_spec(
            bitrev_rows_spec(first_half_spec(bitrev_rows_spec(m, log_h), tw, log_h, mid), log_h),
            twr,
            log_h,
            mid,
            log_h,
        ),
        hinv,
    )
}

/// Heights and blow-ups the coset extension supports.
pub open spec fn lde_supported(h: nat, ab: nat) -> bool {
    exists|k: nat| k + ab <= 27 && h == pow2(k)
}

/// The low-degree extension: interpolate (inverse transform, divide by the
/// height), then evaluate over 2^ab disjoint cosets; the block of rows at
/// position j holds the coset with index bitrev(j), each block itself in
/// bit-reversed row order.
pub open spec fn coset_lde_spec(m: Seq<Seq<u64>>, log_h: nat, ab: nat, shift: u64) -> Seq<
    Seq<u64>,
> {
    let coeffs = idft_coeffs_spec(m, log_h);
    let h = pow2(log_h) as int;
    Seq::new(
        pow2((log_h + ab) as nat) as nat,
        |r: int|
            {
                let j = r / h;
                let idx = crate::bitrev::bitrev_spec(j as nat, ab);
                let tsh = f_mul(
                    f_pow(two_adic_gen_val((log_h + ab) as nat) as int, idx),
                    shift as int,
                ) as u64;
                coset_dft_spec(coeffs, log_h, tsh)[r % h]
            },
    )
}

impl Radix2DitParallel {
    /// Evaluates a batch of polynomials (coefficient rows) over their native
    /// two-adic subgroup; the rows of the result are in bit-reversed order.
    pub fn dft_batch(&mut self, mat: &FpMatrix) -> (r: FpMatrix)
        requires
            old(self).wf(),
            mat.wf(),
            dft_supported_height(mat.height()),
        ensures
            final(self).wf(),
            r.wf(),
            r.width == mat.width,
            r.height() == mat.height(),
            forall|k: nat|
                k <= 27 && mat.height() == #[trigger] pow2(k) ==> r.view_rows()
                    == dft_batch_spec(mat.view_rows(), k),
            final(self).inverse_cache() == old(self).inverse_cache(),
            final(self).coset_cache() == old(self).coset_cache(),
            final(self).forward_cache().len() == old(self).forward_cache().len(),
            forall|k: int|
                0 <= k < 28 && mat.height() != pow2(k as nat) ==> final(self).forward_cache()[k]
                    == old(self).forward_cache()[k],
            forall|k: int|
                0 <= k < 28 && (#[trigger] old(self).forward_cache()[k]) is Some
                    ==> final(self).forward_cache()[k] == old(self).forward_cache()[k],
    {
        let log_h = match crate::bitrev::log2_strict(mat.num_rows()) {
            Some(k) => k,
            None => {
                proof {
                    let k0 = choose|k: nat| k <= 27 && mat.height() == pow2(k);
                    assert(mat.height() != pow2(k0));
                }
                0
            },
        };
        proof {
            let k0 = choose|k: nat| k <= 27 && mat.height() == pow2(k);
            lemma_pow2_injective(k0, log_h as nat);
        }
        let pair = if log_h >= 1 {
            self.get_twiddles(log_h)
        } else {
            VectorPair { twiddles: Vec::new(), bit_reversed_twiddles: Vec::new() }
        };
        proof {
            assert forall|k: int|
                0 <= k < 28 && mat.height() != pow2(k as nat) implies self.forward_cache()[k]
                == old(self).forward_cache()[k] by {
                if k != log_h {
                } else {
                    lemma_pow2_injective(k as nat, log_h as nat);
                }
            }
        }
        let ghost tw = forward_twiddles_spec(log_h as nat);
        let ghost twr = bitrev_vals_spec(tw, (log_h - 1) as nat);
        proof {
            if log_h == 0 {
                lemma2_to64();
                assert(pair.twiddles@ =~= tw);
                assert(pair.bit_reversed_twiddles@ =~= twr);
            }
            assert(pair.twiddles@ == tw);
            assert(pair.bit_reversed_twiddles@ == twr);
            assert(tw.len() == pow2(log_h as nat) / 2);
            assert(twr.len() == tw.len());
        }
        let mid = log_h / 2;
        let s1 = crate::matrix::bit_reverse_rows(mat, log_h);
        let s2 = par_dit_layer(&s1, log_h, mid, &pair.twiddles);
        let s3 = crate::matrix::bit_reverse_rows(&s2, log_h);
        let r = par_dit_layer_rev(&s3, log_h, mid, &pair.bit_reversed_twiddles);
        proof {
            assert(r.view_rows() == dft_batch_spec(mat.view_rows(), log_h as nat));
            assert forall|k: nat|
                k <= 27 && mat.height() == #[trigger] pow2(k) implies r.view_rows()
                == dft_batch_spec(mat.view_rows(), k) by {
                lemma_pow2_injective(k, log_h as nat);
            }
        }
        r
    }

    /// Interpolates the batch, then evaluates it over 2^added_bits disjoint
    /// cosets of the blown-up domain, the first shifted by `shift`; the
    /// result keeps the committed bit-reversed layout.
    pub fn coset_lde_batch(&mut self, mat: &FpMatrix, added_bits: usize, shift: u64) -> (r:
        FpMatrix)
        requires
            old(self).wf(),
            mat.wf(),
            is_elem(shift),
            lde_supported(mat.height(), added_bits as nat),
        ensures
            final(self).wf(),
            r.wf(),
            r.width == mat.width,
            r.height() == mat.height() * pow2(added_bits as nat),
            forall|k: nat|
                k + added_bits <= 27 && mat.height() == #[trigger] pow2(k) ==> r.view_rows()
                    == coset_lde_spec(mat.view_rows(), k, added_bits as nat, shift),
            final(self).forward_cache() == old(self).forward_cache(),
            final(self).inverse_cache().len() == old(self).inverse_cache().len(),
            forall|k: int|
                0 <= k < 28 && mat.height() != pow2(k as nat) ==> final(self).inverse_cache()[k]
                    == old(self).inverse_cache()[k],
            forall|k: int|
                0 <= k < 28 && (#[trigger] old(self).inverse_cache()[k]) is Some
                    ==> final(self).inverse_cache()[k] == old(self).inverse_cache()[k],
            old(self).coset_cache().len() <= final(self).coset_cache().len(),
            forall|e: int|
                0 <= e < old(self).coset_cache().len() ==> final(self).coset_cache()[e]
                    == old(self).coset_cache()[e],
    {
        let log_h = match crate::bitrev::log2_strict(mat.num_rows()) {
            Some(k) => k,
            None => {
                proof {
                    let k0 = choose|k: nat| k + added_bits <= 27 && mat.height() == pow2(k);
                    assert(mat.height() != pow2(k0));
                }
                0
            },
        };
        proof {
            let k0 = choose|k: nat| k + added_bits <= 27 && mat.height() == pow2(k);
            lemma_pow2_injective(k0, log_h as nat);
        }
        let pair = if log_h >= 1 {
            self.get_inverse_twiddles(log_h)
        } else {
            VectorPair { twiddles: Vec::new(), bit_reversed_twiddles: Vec::new() }
        };
        proof {
            assert forall|k: int|
                0 <= k < 28 && mat.height() != pow2(k as nat) implies self.inverse_cache()[k]
                == old(self).inverse_cache()[k] by {
                if k == log_h {
                    lemma_pow2_injective(k as nat, log_h as nat);
                }
            }
        }
        let ghost tw = inverse_twiddles_spec(log_h as nat);
        let ghost twr = bitrev_vals_spec(tw, (log_h - 1) as nat);
        proof {
            if log_h == 0 {
                lemma2_to64();
                assert(pair.twiddles@ =~= tw);
                assert(pair.bit_reversed_twiddles@ =~= twr);
            }
            assert(pair.twiddles@ == tw);
            assert(pair.bit_reversed_twiddles@ == twr);
        }
        let mid = log_h / 2;
        let s1 = crate::matrix::bit_reverse_rows(mat, log_h);
        let s2 = par_dit_layer(&s1, log_h, mid, &pair.twiddles);
        let s3 = crate::matrix::bit_reverse_rows(&s2, log_h);
        let s4 = par_dit_layer_rev(&s3, log_h, mid, &pair.bit_reversed_twiddles);
        let h = crate::bitrev::pow2_usize(log_h);
        proof {
            lemma2_to64();
            vstd::arithmetic::power2::lemma2_to64_rest();
            if (log_h as nat) < 27 {
                lemma_pow2_strictly_increases(log_h as nat, 27);
            }
            lemma_pow2_pos(log_h as nat);
        }
        let hinv = finv(h as u64);
        proof {
            lemma_finv_char(hinv as int, h as int);
        }
        let coeffs = scale_matrix(&s4, hinv);
        proof {
            assert(coeffs.view_rows() == idft_coeffs_spec(mat.view_rows(), log_h as nat));
        }
        let g_big = two_adic_generator(log_h + added_bits);
        let nb = crate::bitrev::pow2_usize(added_bits);
        let ghost lspec = coset_lde_spec(
            mat.view_rows(),
            log_h as nat,
            added_bits as nat,
            shift,
        );
        let mut out: Vec<Vec<u64>> = Vec::new();
        let mut j: usize = 0;
        proof {
            lemma_pow2_adds(log_h as nat, added_bits as nat);
        }
        while j < nb
            invariant
                mat.wf(),
                is_elem(shift),
                log_h + added_bits <= 27,
                added_bits <= 27,
                mat.height() == pow2(log_h as nat),
                h as nat == pow2(log_h as nat),
                nb as nat == pow2(added_bits as nat),
                h >= 1,
                g_big as nat == two_adic_gen_val((log_h + added_bits) as nat),
                is_elem(g_big),
                coeffs.wf(),
                coeffs.width == mat.width,
                coeffs.height() == pow2(log_h as nat),
                coeffs.view_rows() == idft_coeffs_spec(mat.view_rows(), log_h as nat),
                lspec == coset_lde_spec(mat.view_rows(), log_h as nat, added_bits as nat, shift),
                self.wf(),
                self.forward_cache() == old(self).forward_cache(),
                self.inverse_cache().len() == old(self).inverse_cache().len(),
                forall|k: int|
                    0 <= k < 28 && mat.height() != pow2(k as nat) ==> self.inverse_cache()[k]
                        == old(self).inverse_cache()[k],
                forall|k: int|
                    0 <= k < 28 && (#[trigger] old(self).inverse_cache()[k]) is Some
                        ==> self.inverse_cache()[k] == old(self).inverse_cache()[k],
                old(self).coset_cache().len() <= self.coset_cache().len(),
                forall|e: int|
                    0 <= e < old(self).coset_cache().len() ==> self.coset_cache()[e]
                        == old(self).coset_cache()[e],
                j <= nb,
                out@.len() == (j as int) * (h as int),
                forall|rr: int| 0 <= rr < out@.len() ==> (#[trigger] out@[rr])@ == lspec[rr],
                forall|rr: int|
                    0 <= rr < out@.len() ==> (#[trigger] out@[rr])@.len() == mat.width,
                forall|rr: int, c: int|
                    0 <= rr < out@.len() && 0 <= c < mat.width ==> (#[trigger] out@[rr]@[c]) < FP,
            decreases nb - j,
        {
            let idx = crate::bitrev::reverse_bits_len(j, added_bits);
            let ts = fmul(fexp(g_big, idx as u64), shift);
            let block = coset_dft(self, &coeffs, ts, log_h);
            let base = out.len();
            proof {
                assert((j as int) * (h as int) + (h as int) == ((j + 1) as int) * (h as int))
                    by (nonlinear_arith);
                assert(((j + 1) as int) * (h as int) <= (nb as int) * (h as int))
                    by (nonlinear_arith)
                    requires
                        j + 1 <= nb,
                        h >= 1,
                ;
                assert((nb as int) * (h as int) == pow2((log_h + added_bits) as nat)) by {
                    lemma_pow2_adds(added_bits as nat, log_h as nat);
                }
            }
            let mut rr: usize = 0;
            while rr < h
                invariant
                    coeffs.wf(),
                    block.wf(),
                    block.width == coeffs.width,
                    block.height() == pow2(log_h as nat),
                    h as nat == pow2(log_h as nat),
                    base == (j as int) * (h as int),
                    block.view_rows() == coset_dft_spec(
                        idft_coeffs_spec(mat.view_rows(), log_h as nat),
                        log_h as nat,
                        ts,
                    ),
                    ts as int == f_mul(
                        f_pow(
                            two_adic_gen_val((log_h + added_bits) as nat) as int,
                            crate::bitrev::bitrev_spec(j as nat, added_bits as nat),
                        ),
                        shift as int,
                    ),
                    lspec == coset_lde_spec(
                        mat.view_rows(),
                        log_h as nat,
                        added_bits as nat,
                        shift,
                    ),
                    coeffs.view_rows() == idft_coeffs_spec(mat.view_rows(), log_h as nat),
                    coeffs.width == mat.width,
                    mat.height() == pow2(log_h as nat),
                    rr <= h,
                    base + h <= pow2((log_h + added_bits) as nat),
                    lspec.len() == pow2((log_h + added_bits) as nat),
                    out@.len() == base + rr,
                    forall|r2: int| 0 <= r2 < out@.len() ==> (#[trigger] out@[r2])@ == lspec[r2],
                    forall|r2: int|
                        0 <= r2 < out@.len() ==> (#[trigger] out@[r2])@.len() == mat.width,
                    forall|r2: int, c: int|
                        0 <= r2 < out@.len() && 0 <= c < mat.width ==> (#[trigger] out@[r2]@[c])
                            < FP,
                decreases h - rr,
            {
                proof {
                    vstd::arithmetic::div_mod::lemma_fundamental_div_mod_converse(
                        base + rr,
                        h as int,
                        j as int,
                        rr as int,
                    );
                    assert((base + rr) as int / (h as int) == j as int);
                    assert((base + rr) as int % (h as int) == rr as int);
                    assert(lspec[base + rr] == coset_dft_spec(
                        idft_coeffs_spec(mat.view_rows(), log_h as nat),
                        log_h as nat,
                        (f_mul(
                            f_pow(
                                two_adic_gen_val((log_h + added_bits) as nat) as int,
                                crate::bitrev::bitrev_spec(j as nat, added_bits as nat),
                            ),
                            shift as int,
                        )) as u64,
                    )[rr as int]);
                    assert(ts == (f_mul(
                        f_pow(
                            two_adic_gen_val((log_h + added_bits) as nat) as int,
                            crate::bitrev::bitrev_spec(j as nat, added_bits as nat),
                        ),
                        shift as int,
                    )) as u64);
                    assert(lspec[base + rr] == block.view_rows()[rr as int]);
                }
                out.push(block.rows[rr].clone());
                rr = rr + 1;
            }
            j = j + 1;
        }
        let r = FpMatrix { rows: out, width: mat.width };
        proof {
            lemma_pow2_adds(log_h as nat, added_bits as nat);
            assert((nb as int) * (h as int) == pow2((log_h + added_bits) as nat)) by {
                lemma_pow2_adds(added_bits as nat, log_h as nat);
            }
            assert(r.view_rows() =~~= coset_lde_spec(
                mat.view_rows(),
                log_h as nat,
                added_bits as nat,
                shift,
            ));
            assert forall|k: nat|
                k + added_bits <= 27 && mat.height() == #[trigger] pow2(k) implies r.view_rows()
                == coset_lde_spec(mat.view_rows(), k, added_bits as nat, shift) by {
                lemma_pow2_injective(k, log_h as nat);
            }
            assert(r.height() == mat.height() * pow2(added_bits as nat)) by (nonlinear_arith)
                requires
                    r.height() == (nb as int) * (h as int),
                    nb as nat == pow2(added_bits as nat),
                    h as nat == pow2(log_h as nat),
                    mat.height() == pow2(log_h as nat),
            ;
        }
        r
    }
}

} // verus!
