//! Rectangular batches of field elements: rows are domain points (in natural
//! or bit-reversed order), columns are the polynomials sharing one domain.
use vstd::prelude::*;
use vstd::arithmetic::power2::pow2;
use crate::field::{FP, f_add, f_mul, is_elem};
use crate::bitrev::{bitrev_spec, lemma_bitrev_bound, reverse_bits_len};

verus! {

/// An evaluation or coefficient matrix, held as its rows.
pub struct FpMatrix {
    pub rows: Vec<Vec<u64>>,
    pub width: usize,
}

impl FpMatrix {
    /// Every row has the stated width and holds canonical residues.
    pub open spec fn wf(&self) -> bool {
        &&& forall|i: int|
            0 <= i < self.rows@.len() ==> (#[trigger] self.rows@[i])@.len() == self.width
        &&& forall|i: int, j: int|
            0 <= i < self.rows@.len() && 0 <= j < self.width ==> (
            #[trigger] self.rows@[i]@[j]) < FP
    }

    pub open spec fn height(&self) -> nat {
        self.rows@.len()
    }

    /// The matrix as a sequence of rows of residues.
    pub open spec fn view_rows(&self) -> Seq<Seq<u64>> {
        Seq::new(self.rows@.len(), |i: int| self.rows@[i]@)
    }

    pub fn num_rows(&self) -> (r: usize)
        ensures
            r == self.height(),
    {
        self.rows.len()
    }
}

/// The rows of `m` read off in bit-reversed order over `bits` binary digits.
pub open spec fn bitrev_rows_spec(m: Seq<Seq<u64>>, bits: nat) -> Seq<Seq<u64>> {
    Seq::new(m.len(), |i: int| m[bitrev_spec(i as nat, bits) as int])
}

/// Reorders the rows of a matrix of power-of-two height by bit-reversing
/// each row index.
pub fn bit_reverse_rows(m: &FpMatrix, bits: usize) -> (r: FpMatrix)
    requires
        m.wf(),
        bits <= 31,
        m.height() == pow2(bits as nat),
    ensures
        r.wf(),
        r.width == m.width,
        r.height() == m.height(),
        r.view_rows() == bitrev_rows_spec(m.view_rows(), bits as nat),
{
    let n = m.rows.len();
    let mut out: Vec<Vec<u64>> = Vec::new();
    let mut i: usize = 0;
    while i < n
        invariant
            m.wf(),
            bits <= 31,
            n == m.height(),
            m.height() == pow2(bits as nat),
            i <= n,
            out@.len() == i,
            forall|j: int|
                0 <= j < i ==> #[trigger] out@[j]@ == m.rows@[bitrev_spec(
                    j as nat,
                    bits as nat,
                ) as int]@,
        decreases n - i,
    {
        let src = reverse_bits_len(i, bits);
        out.push(m.rows[src].clone());
        i = i + 1;
    }
    let r = FpMatrix { rows: out, width: m.width };
    proof {
        assert forall|j: int| 0 <= j < r.view_rows().len() implies r.view_rows()[j]
            == bitrev_rows_spec(m.view_rows(), bits as nat)[j] by {
            lemma_bitrev_bound(j as nat, bits as nat);
        }
        assert(r.view_rows() =~~= bitrev_rows_spec(m.view_rows(), bits as nat));
        assert forall|i: int| 0 <= i < r.rows@.len() implies (#[trigger] r.rows@[i])@.len()
            == r.width by {
            lemma_bitrev_bound(i as nat, bits as nat);
        }
        assert forall|i: int, j: int|
            0 <= i < r.rows@.len() && 0 <= j < r.width implies (#[trigger] r.rows@[i]@[j])
            < FP by {
            lemma_bitrev_bound(i as nat, bits as nat);
        }
    }
    r
}

/// Element-wise a + t*b over a pair of rows: the half that a decimation-in-time
/// butterfly adds into.
pub open spec fn row_fma_spec(a: Seq<u64>, b: Seq<u64>, t: u64) -> Seq<u64> {
    Seq::new(a.len(), |c: int| f_add(a[c] as int, f_mul(t as int, b[c] as int)) as u64)
}

/// Element-wise a - t*b: the half a butterfly subtracts from.
pub open spec fn row_fms_spec(a: Seq<u64>, b: Seq<u64>, t: u64) -> Seq<u64> {
    Seq::new(
        a.len(),
        |c: int| crate::field::f_sub(a[c] as int, f_mul(t as int, b[c] as int)) as u64,
    )
}

pub fn row_fma(a: &Vec<u64>, b: &Vec<u64>, t: u64) -> (r: Vec<u64>)
    requires
        a@.len() == b@.len(),
        is_elem(t),
        forall|c: int| 0 <= c < a@.len() ==> is_elem(#[trigger] a@[c]),
        forall|c: int| 0 <= c < b@.len() ==> is_elem(#[trigger] b@[c]),
    ensures
        r@ == row_fma_spec(a@, b@, t),
        r@.len() == a@.len(),
        forall|c: int| 0 <= c < r@.len() ==> is_elem(#[trigger] r@[c]),
{
    let n = a.len();
    let mut r: Vec<u64> = Vec::new();
    let mut c: usize = 0;
    while c < n
        invariant
            n == a@.len(),
            a@.len() == b@.len(),
            is_elem(t),
            forall|k: int| 0 <= k < a@.len() ==> is_elem(#[trigger] a@[k]),
            forall|k: int| 0 <= k < b@.len() ==> is_elem(#[trigger] b@[k]),
            c <= n,
            r@.len() == c,
            forall|k: int| 0 <= k < c ==> #[trigger] r@[k] == row_fma_spec(a@, b@, t)[k],
        decreases n - c,
    {
        let v = crate::field::fadd(a[c], crate::field::fmul(t, b[c]));
        r.push(v);
        c = c + 1;
    }
    proof {
        assert(r@ =~= row_fma_spec(a@, b@, t));
        assert forall|k: int| 0 <= k < r@.len() implies is_elem(#[trigger] r@[k]) by {
            assert(r@[k] == row_fma_spec(a@, b@, t)[k]);
        }
    }
    r
}

pub fn row_fms(a: &Vec<u64>, b: &Vec<u64>, t: u64) -> (r: Vec<u64>)
    requires
        a@.len() == b@.len(),
        is_elem(t),
        forall|c: int| 0 <= c < a@.len() ==> is_elem(#[trigger] a@[c]),
        forall|c: int| 0 <= c < b@.len() ==> is_elem(#[trigger] b@[c]),
    ensures
        r@ == row_fms_spec(a@, b@, t),
        r@.len() == a@.len(),
        forall|c: int| 0 <= c < r@.len() ==> is_elem(#[trigger] r@[c]),
{
    let n = a.len();
    let mut r: Vec<u64> = Vec::new();
    let mut c: usize = 0;
    while c < n
        invariant
            n == a@.len(),
            a@.len() == b@.len(),
            is_elem(t),
            forall|k: int| 0 <= k < a@.len() ==> is_elem(#[trigger] a@[k]),
            forall|k: int| 0 <= k < b@.len() ==> is_elem(#[trigger] b@[k]),
            c <= n,
            r@.len() == c,
            forall|k: int| 0 <= k < c ==> #[trigger] r@[k] == row_fms_spec(a@, b@, t)[k],
        decreases n - c,
    {
        let v = crate::field::fsub(a[c], crate::field::fmul(t, b[c]));
        r.push(v);
        c = c + 1;
    }
    proof {
        assert(r@ =~= row_fms_spec(a@, b@, t));
        assert forall|k: int| 0 <= k < r@.len() implies is_elem(#[trigger] r@[k]) by {
            assert(r@[k] == row_fms_spec(a@, b@, t)[k]);
        }
    }
    r
}

/// Every value of a row multiplied by one factor: how a whole matrix is
/// divided by its height after the inverse transform.
pub open spec fn row_scale_spec(a: Seq<u64>, t: u64) -> Seq<u64> {
    Seq::new(a.len(), |c: int| f_mul(t as int, a[c] as int) as u64)
}

pub fn row_scale(a: &Vec<u64>, t: u64) -> (r: Vec<u64>)
    requires
        is_elem(t),
        forall|c: int| 0 <= c < a@.len() ==> is_elem(#[trigger] a@[c]),
    ensures
        r@ == row_scale_spec(a@, t),
        r@.len() == a@.len(),
        forall|c: int| 0 <= c < r@.len() ==> is_elem(#[trigger] r@[c]),
{
    let n = a.len();
    let mut r: Vec<u64> = Vec::new();
    let mut c: usize = 0;
    while c < n
        invariant
            n == a@.len(),
            is_elem(t),
            forall|k: int| 0 <= k < a@.len() ==> is_elem(#[trigger] a@[k]),
            c <= n,
            r@.len() == c,
            forall|k: int| 0 <= k < c ==> #[trigger] r@[k] == row_scale_spec(a@, t)[k],
        decreases n - c,
    {
        let v = crate::field::fmul(t, a[c]);
        r.push(v);
        c = c + 1;
    }
    proof {
        assert(r@ =~= row_scale_spec(a@, t));
        assert forall|k: int| 0 <= k < r@.len() implies is_elem(#[trigger] r@[k]) by {
            assert(r@[k] == row_scale_spec(a@, t)[k]);
        }
    }
    r
}


/// A fresh matrix with the same rows.
pub fn clone_matrix(m: &FpMatrix) -> (r: FpMatrix)
    ensures
        r.width == m.width,
        r.height() == m.height(),
        r.view_rows() == m.view_rows(),
        m.wf() ==> r.wf(),
{
    let n = m.rows.len();
    let mut out: Vec<Vec<u64>> = Vec::new();
    let mut i: usize = 0;
    while i < n
        invariant
            n == m.height(),
            i <= n,
            out@.len() == i,
            forall|j: int| 0 <= j < i ==> #[trigger] out@[j]@ == m.rows@[j]@,
        decreases n - i,
    {
        out.push(m.rows[i].clone());
        i = i + 1;
    }
    let r = FpMatrix { rows: out, width: m.width };
    proof {
        assert(r.view_rows() =~~= m.view_rows());
    }
    r
}

} // verus!
