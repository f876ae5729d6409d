use fri_pcs::bitrev::{
    circle_bitrev_idx, circle_bitrev_idx_inv, circle_bitrev_permute, log2_strict,
    reverse_bits_len, CircleBitrevPerm,
};
use fri_pcs::dft::Radix2DitParallel;
use fri_pcs::field::{
    fadd, fexp, fhalve, finv, fmul, fsub, multiplicative_generator, two_adic_generator,
};
use fri_pcs::fold::{
    circle_generator, fold_bivariate, fold_univariate, m31_inverse, madd, mmul, CircleFriFolder,
    MP,
};
use fri_pcs::matrix::{bit_reverse_rows, FpMatrix};

const P: u64 = 2013265921;

fn mulp(a: u64, b: u64) -> u64 {
    ((a as u128) * (b as u128) % (P as u128)) as u64
}

fn addp(a: u64, b: u64) -> u64 {
    (a + b) % P
}

fn eval_poly(c: &[u64], x: u64) -> u64 {
    let mut acc: u64 = 0;
    for i in (0..c.len()).rev() {
        acc = addp(mulp(acc, x), c[i]);
    }
    acc
}

fn mk_mat(rows: Vec<Vec<u64>>, width: usize) -> FpMatrix {
    FpMatrix { rows, width }
}

fn column(m: &FpMatrix, c: usize) -> Vec<u64> {
    let mut v: Vec<u64> = Vec::new();
    for r in 0..m.rows.len() {
        v.push(m.rows[r][c]);
    }
    v
}

fn pairs_matrix(v: &[u64]) -> FpMatrix {
    let mut rows: Vec<Vec<u64>> = Vec::new();
    let mut i: usize = 0;
    while i < v.len() {
        rows.push(vec![v[i], v[i + 1]]);
        i += 2;
    }
    FpMatrix { rows, width: 2 }
}

#[test]
fn test_circle_bitrev() {
    assert_eq!(circle_bitrev_permute(&vec![0u64]).unwrap(), vec![0u64]);
    assert_eq!(circle_bitrev_permute(&vec![0u64, 1]).unwrap(), vec![0u64, 1]);
    assert_eq!(
        circle_bitrev_permute(&vec![0u64, 1, 2, 3]).unwrap(),
        vec![0u64, 3, 1, 2]
    );
    assert_eq!(
        circle_bitrev_permute(&vec![0u64, 1, 2, 3, 4, 5, 6, 7]).unwrap(),
        vec![0u64, 7, 3, 4, 1, 6, 2, 5]
    );
}

#[test]
fn test_circle_bitrev_perm_struct() {
    let p = CircleBitrevPerm::new(8).unwrap();
    assert_eq!(p.height(), 8);
    assert_eq!(p.map_row_index(0), 0);
    assert_eq!(p.map_row_index(1), 7);
    assert_eq!(p.map_row_index(2), 3);
    assert_eq!(p.map_row_index(3), 4);
    assert!(CircleBitrevPerm::new(6).is_none());
}

#[test]
fn test_field_ops() {
    assert_eq!(fadd(P - 1, 5), 4);
    assert_eq!(fsub(3, 10), P - 7);
    assert_eq!(fmul(123456, 654321), mulp(123456, 654321));
    let h: u64 = fhalve(7);
    assert_eq!(addp(h, h), 7);
    let i5: u64 = finv(5);
    assert_ne!(i5, 5);
    assert_eq!(mulp(i5, 5), 1);
    assert_eq!(multiplicative_generator(), 31);
}

#[test]
fn test_two_adic_generator_orders() {
    for k in 1..=6usize {
        let g: u64 = two_adic_generator(k);
        assert_eq!(fexp(g, 1u64 << k), 1);
        assert_ne!(fexp(g, 1u64 << (k - 1)), 1);
    }
    assert_eq!(two_adic_generator(0), 1);
}

#[test]
fn test_log2_strict() {
    assert_eq!(log2_strict(1), Some(0));
    assert_eq!(log2_strict(8), Some(3));
    assert_eq!(log2_strict(6), None);
    assert_eq!(log2_strict(0), None);
}

#[test]
fn test_reverse_bits_len() {
    assert_eq!(reverse_bits_len(1, 3), 4);
    assert_eq!(reverse_bits_len(3, 3), 6);
    assert_eq!(reverse_bits_len(5, 3), 5);
}

#[test]
fn test_dft_matches_naive() {
    let c0: Vec<u64> = vec![1, 2, 3, 4, 5, 6, 7, 8];
    let c1: Vec<u64> = vec![9, 0, 3, 5, 7, 11, 2, 1];
    let mut rows: Vec<Vec<u64>> = Vec::new();
    for i in 0..8 {
        rows.push(vec![c0[i], c1[i]]);
    }
    let m = mk_mat(rows, 2);
    let mut dft = Radix2DitParallel::new();
    let out = dft.dft_batch(&m);
    let nat = bit_reverse_rows(&out, 3);
    let g: u64 = two_adic_generator(3);
    for k in 0..8usize {
        let x: u64 = fexp(g, k as u64);
        assert_eq!(nat.rows[k][0], eval_poly(&c0, x));
        assert_eq!(nat.rows[k][1], eval_poly(&c1, x));
    }
}

#[test]
fn test_fft_ifft_roundtrip() {
    // Forward transform, then the inverse pass embedded in the extension
    // with no added bits and shift one: the evaluations come back exactly.
    let c0: Vec<u64> = vec![5, 0, 2013265920, 17, 3, 3, 9, 1];
    let mut rows: Vec<Vec<u64>> = Vec::new();
    for i in 0..8 {
        rows.push(vec![c0[i]]);
    }
    let m = mk_mat(rows, 1);
    let mut dft = Radix2DitParallel::new();
    let evals_br = dft.dft_batch(&m);
    let evals_nat = bit_reverse_rows(&evals_br, 3);
    let again = dft.coset_lde_batch(&evals_nat, 0, 1);
    for r in 0..8usize {
        assert_eq!(again.rows[r][0], evals_br.rows[r][0]);
    }
}

#[test]
fn test_bit_reverse_rows_involution() {
    let c0: Vec<u64> = vec![4, 9, 16, 25, 36, 49, 64, 81];
    let mut rows: Vec<Vec<u64>> = Vec::new();
    for i in 0..8 {
        rows.push(vec![c0[i]]);
    }
    let m = mk_mat(rows, 1);
    let twice = bit_reverse_rows(&bit_reverse_rows(&m, 3), 3);
    for r in 0..8usize {
        assert_eq!(twice.rows[r][0], m.rows[r][0]);
    }
}

#[test]
fn test_coset_lde_consistency() {
    // Every output row of the extension equals the interpolated polynomial
    // evaluated directly at the corresponding point of the blown-up coset.
    for log_n in 2..=6usize {
        for lb in 1..=3usize {
            let n: usize = 1 << log_n;
            let mut c: Vec<u64> = Vec::new();
            for i in 0..n {
                c.push(((i * i * 37 + 5 * i + 11) as u64) % P);
            }
            let g: u64 = two_adic_generator(log_n);
            let mut rows: Vec<Vec<u64>> = Vec::new();
            for k in 0..n {
                rows.push(vec![eval_poly(&c, fexp(g, k as u64))]);
            }
            let m = mk_mat(rows, 1);
            let mut dft = Radix2DitParallel::new();
            let out = dft.coset_lde_batch(&m, lb, 31);
            assert_eq!(out.rows.len(), n << lb);
            let g_big: u64 = two_adic_generator(log_n + lb);
            for r in 0..(n << lb) {
                let j: usize = r / n;
                let s: usize = r % n;
                let idx: usize = reverse_bits_len(j, lb);
                let br: usize = reverse_bits_len(s, log_n);
                let e: u64 = (idx + (br << lb)) as u64;
                let x: u64 = fmul(31, fexp(g_big, e));
                assert_eq!(out.rows[r][0], eval_poly(&c, x), "log_n {} lb {} row {}", log_n, lb, r);
            }
        }
    }
}

#[test]
fn test_fold_to_constant() {
    // A degree-bounded polynomial, evaluated over the blown-up subgroup in
    // bit-reversed order, folds down to the blow-up length with every
    // remaining entry equal.
    let k: usize = 4;
    let lb: usize = 1;
    let n: usize = 1 << k;
    let mut c: Vec<u64> = Vec::new();
    for i in 0..n {
        c.push(((7 * i * i + 3 * i + 29) as u64) % P);
    }
    for _ in 0..(n << lb) - n {
        c.push(0);
    }
    let mut rows: Vec<Vec<u64>> = Vec::new();
    for i in 0..(n << lb) {
        rows.push(vec![c[i]]);
    }
    let m = mk_mat(rows, 1);
    let mut dft = Radix2DitParallel::new();
    let evals = dft.dft_batch(&m);
    let mut v: Vec<u64> = column(&evals, 0);
    let betas: Vec<u64> = vec![3, 2013265920, 12345, 67];
    for b in 0..k {
        let pm = pairs_matrix(&v);
        v = fold_univariate(&pm, betas[b], 1).unwrap();
    }
    assert_eq!(v.len(), 1 << lb);
    for i in 1..v.len() {
        assert_eq!(v[i], v[0]);
    }
}

#[test]
fn test_circle_generator_on_circle() {
    for bits in 1..=6usize {
        let (re, im) = circle_generator(bits);
        assert_eq!(madd(mmul(re, re), mmul(im, im)), 1);
    }
    let i7: u64 = m31_inverse(7);
    assert_ne!(i7, 7);
    assert_eq!(mmul(i7, 7), 1);
}

#[test]
fn test_folding_single_matches_matrix() {
    let rows: Vec<Vec<u64>> = vec![
        vec![1, 2],
        vec![3, MP - 4],
        vec![5, 6],
        vec![7, 8],
    ];
    let m = mk_mat(rows.clone(), 2);
    let beta: u64 = 11;
    let fm = CircleFriFolder::fold_matrix(beta, &m).unwrap();
    assert_eq!(fm.len(), 4);
    for i in 0..4usize {
        let fr = CircleFriFolder::fold_row(i, 2, beta, &rows[i]).unwrap();
        assert_eq!(fm[i], fr);
    }
}

#[test]
fn test_fold_bivariate_shape() {
    let rows: Vec<Vec<u64>> = vec![vec![10, 20], vec![30, 40], vec![50, 60], vec![70, 80]];
    let m = mk_mat(rows, 2);
    let out = fold_bivariate(&m, 9).unwrap();
    assert_eq!(out.len(), 4);
}

#[test]
fn test_mix_in() {
    let folder = CircleFriFolder::new(5);
    assert_eq!(folder.bivariate_beta, 5);
    let mut cur: u64 = MP - 1;
    folder.mix_in(0, 3, &mut cur, 2);
    assert_eq!(cur, 1);
}

#[test]
fn test_circle_bitrev_inverse() {
    for bits in 0..=5usize {
        for i in 0..(1usize << bits) {
            assert_eq!(circle_bitrev_idx_inv(circle_bitrev_idx(i, bits), bits), i);
            assert_eq!(circle_bitrev_idx(circle_bitrev_idx_inv(i, bits), bits), i);
        }
    }
}
