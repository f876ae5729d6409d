use fri_pcs::dft::Radix2DitParallel;
use fri_pcs::field::{fexp, fmul, two_adic_generator};
use fri_pcs::fold::fold_univariate;
use fri_pcs::interpolate::interpolate_coset;
use fri_pcs::matrix::FpMatrix;
use fri_pcs::pcs::{
    get_cached_powers, get_ldes, reduce_opening_step, verify_query_fold, FriParams, FriProof,
    FriQueryProof, FriQueryStep, InputOpening, PcsError, TwoAdicFriPcs, TwoAdicFriPcsProof,
};

const P: u64 = 2013265921;

fn mulp(a: u64, b: u64) -> u64 {
    ((a as u128) * (b as u128) % (P as u128)) as u64
}

fn addp(a: u64, b: u64) -> u64 {
    (a + b) % P
}

fn subp(a: u64, b: u64) -> u64 {
    (a + P - b) % P
}

fn eval_poly(c: &[u64], x: u64) -> u64 {
    let mut acc: u64 = 0;
    for i in (0..c.len()).rev() {
        acc = addp(mulp(acc, x), c[i]);
    }
    acc
}

fn mk_mat(rows: Vec<Vec<u64>>, width: usize) -> FpMatrix {
    FpMatrix { rows, width }
}

fn pairs_matrix(v: &[u64]) -> FpMatrix {
    let mut rows: Vec<Vec<u64>> = Vec::new();
    let mut i: usize = 0;
    while i < v.len() {
        rows.push(vec![v[i], v[i + 1]]);
        i += 2;
    }
    FpMatrix { rows, width: 2 }
}

#[test]
fn test_pcs_new_rejects_zero_blowup() {
    let dft = Radix2DitParallel::new();
    let params = FriParams { log_blowup: 0, num_queries: 4, proof_of_work_bits: 0 };
    let r = TwoAdicFriPcs::new(params, dft);
    assert!(matches!(r, Err(PcsError::ZeroBlowup)));
}

#[test]
fn test_coset_shift_and_log_blowup() {
    let dft = Radix2DitParallel::new();
    let params = FriParams { log_blowup: 2, num_queries: 4, proof_of_work_bits: 0 };
    let pcs = TwoAdicFriPcs::new(params, dft).unwrap();
    assert_eq!(pcs.coset_shift(), 31);
    assert_eq!(pcs.log_blowup(), 2);
}

#[test]
fn test_get_cached_powers() {
    let mut cache: Vec<u64> = vec![1];
    let w = get_cached_powers(5, &mut cache, 2, 3);
    assert_eq!(w, vec![fexp(5, 2), fexp(5, 3), fexp(5, 4)]);
    // A later window continues from the cache, never from index zero.
    let w2 = get_cached_powers(5, &mut cache, 0, 2);
    assert_eq!(w2, vec![1, 5]);
    assert_eq!(cache.len(), 5);
}

#[test]
fn test_reduced_opening_linearity_concrete() {
    // reduced[x] = (p(x)-p(z))/(x-z) + alpha * (q(x)-q(z))/(x-z)
    let px: u64 = 123;
    let qx: u64 = 456;
    let pz: u64 = 78;
    let qz: u64 = 90;
    let alpha: u64 = 5;
    let iv: u64 = 31313;
    let acc: Vec<u64> = vec![0];
    let mat = mk_mat(vec![vec![px, qx]], 2);
    let ys: Vec<u64> = vec![pz, qz];
    let invs: Vec<u64> = vec![iv];
    let apows: Vec<u64> = vec![1, alpha];
    let out = reduce_opening_step(&acc, &mat, &ys, &invs, &apows);
    let expect: u64 = addp(
        mulp(subp(px, pz), iv),
        mulp(alpha, mulp(subp(qx, qz), iv)),
    );
    assert_eq!(out, vec![expect]);
}

#[test]
fn test_interpolate_matches_direct_eval() {
    let c: Vec<u64> = vec![3, 1, 4, 1, 5, 9, 2, 6];
    let g: u64 = two_adic_generator(3);
    let mut rows: Vec<Vec<u64>> = Vec::new();
    for k in 0..8usize {
        let x: u64 = fmul(31, fexp(g, k as u64));
        rows.push(vec![eval_poly(&c, x)]);
    }
    let m = mk_mat(rows, 1);
    let z: u64 = 987654;
    let v = interpolate_coset(&m, 31, z).unwrap();
    assert_eq!(v, vec![eval_poly(&c, z)]);
}

fn build_proof_setup() -> (
    TwoAdicFriPcs,
    Vec<Vec<Vec<u64>>>,
    Vec<Vec<usize>>,
    Vec<Vec<usize>>,
    Vec<Vec<Vec<Vec<u64>>>>,
    TwoAdicFriPcsProof,
    u64,
    Vec<u64>,
    Vec<usize>,
) {
    let dft = Radix2DitParallel::new();
    let params = FriParams { log_blowup: 1, num_queries: 2, proof_of_work_bits: 0 };
    let mut pcs = TwoAdicFriPcs::new(params, dft).unwrap();
    let mut rows1: Vec<Vec<u64>> = Vec::new();
    for i in 0..8usize {
        rows1.push(vec![(i as u64 * 91 + 7) % P, (i as u64 * 173 + 5) % P]);
    }
    let mut rows2: Vec<Vec<u64>> = Vec::new();
    for i in 0..4usize {
        rows2.push(vec![(i as u64 * 57 + 2) % P]);
    }
    let polys: Vec<FpMatrix> = vec![mk_mat(rows1, 2), mk_mat(rows2, 1)];
    let ldes = pcs.commit_batches(&polys).unwrap();
    assert_eq!(ldes.len(), 2);
    assert_eq!(ldes[0].rows.len(), 16);
    assert_eq!(ldes[1].rows.len(), 8);
    let zeta: u64 = 314159;
    let points: Vec<Vec<Vec<u64>>> = vec![vec![vec![zeta], vec![zeta]]];
    let rounds: Vec<Vec<FpMatrix>> = vec![ldes];
    let alpha: u64 = 7;
    let (opened, reduced) = pcs.open_multi_batches(&rounds, &points, alpha).unwrap();
    assert_eq!(reduced[4].len(), 16);
    assert_eq!(reduced[3].len(), 8);
    // The folding phase: fold each height in half, mixing the next height's
    // reduced opening in when it is reached.
    let lb: usize = 1;
    let betas: Vec<u64> = vec![3, 11, 5];
    let mut layers: Vec<Vec<u64>> = Vec::new();
    let mut v: Vec<u64> = reduced[4].clone();
    let mut cur_lh: usize = 4;
    let mut cur_sh: u64 = 31;
    for b in 0..betas.len() {
        layers.push(v.clone());
        let pm = pairs_matrix(&v);
        let mut f = fold_univariate(&pm, betas[b], cur_sh).unwrap();
        cur_sh = mulp(cur_sh, cur_sh);
        cur_lh -= 1;
        if cur_lh >= lb && reduced[cur_lh].len() > 0 {
            for i in 0..f.len() {
                f[i] = addp(f[i], reduced[cur_lh][i]);
            }
        }
        v = f;
    }
    let final_poly: Vec<u64> = v.clone();
    assert_eq!(final_poly.len(), 2);
    let query_indices: Vec<usize> = vec![5, 0];
    let mut query_proofs: Vec<FriQueryProof> = Vec::new();
    let mut input_openings: Vec<Vec<InputOpening>> = Vec::new();
    for q in 0..query_indices.len() {
        let idx: usize = query_indices[q];
        let mut steps: Vec<FriQueryStep> = Vec::new();
        for r in 0..betas.len() {
            let pos: usize = idx >> r;
            steps.push(FriQueryStep {
                sibling_value: layers[r][pos ^ 1],
                opening_proof: Vec::new(),
            });
        }
        query_proofs.push(FriQueryProof { steps });
        input_openings.push(vec![InputOpening {
            opened_values: vec![
                rounds[0][0].rows[idx].clone(),
                rounds[0][1].rows[idx >> 1].clone(),
            ],
            opening_proof: Vec::new(),
        }]);
    }
    let proof = TwoAdicFriPcsProof {
        fri_proof: FriProof {
            round_commitments: Vec::new(),
            query_proofs,
            final_poly,
            pow_witness: 0,
        },
        input_openings,
    };
    let log_heights: Vec<Vec<usize>> = vec![vec![4, 3]];
    let widths: Vec<Vec<usize>> = vec![vec![2, 1]];
    (pcs, points, log_heights, widths, opened, proof, alpha, betas, query_indices)
}

#[test]
fn test_pcs_open_verify_accepts() {
    let (pcs, points, log_heights, widths, values, proof, alpha, betas, query_indices) =
        build_proof_setup();
    let r = pcs.verify_multi_batches(
        &points,
        &log_heights,
        &widths,
        &values,
        &proof,
        alpha,
        &betas,
        &query_indices,
    );
    assert!(r.is_ok());
}

#[test]
fn test_pcs_verify_rejects_tampered_value() {
    let (pcs, points, log_heights, widths, mut values, proof, alpha, betas, query_indices) =
        build_proof_setup();
    values[0][0][0][0] = addp(values[0][0][0][0], 1);
    let r = pcs.verify_multi_batches(
        &points,
        &log_heights,
        &widths,
        &values,
        &proof,
        alpha,
        &betas,
        &query_indices,
    );
    assert!(r.is_err());
}

#[test]
fn test_pcs_verify_rejects_tampered_sibling() {
    let (pcs, points, log_heights, widths, values, mut proof, alpha, betas, query_indices) =
        build_proof_setup();
    let old = proof.fri_proof.query_proofs[0].steps[1].sibling_value;
    proof.fri_proof.query_proofs[0].steps[1].sibling_value = addp(old, 1);
    let r = pcs.verify_multi_batches(
        &points,
        &log_heights,
        &widths,
        &values,
        &proof,
        alpha,
        &betas,
        &query_indices,
    );
    assert!(matches!(r, Err(PcsError::FinalPolyMismatch)));
}

#[test]
fn test_pcs_verify_rejects_tampered_final_poly() {
    let (pcs, points, log_heights, widths, values, mut proof, alpha, betas, query_indices) =
        build_proof_setup();
    proof.fri_proof.final_poly[0] = addp(proof.fri_proof.final_poly[0], 1);
    let r = pcs.verify_multi_batches(
        &points,
        &log_heights,
        &widths,
        &values,
        &proof,
        alpha,
        &betas,
        &query_indices,
    );
    assert!(matches!(r, Err(PcsError::FinalPolyMismatch)));
}

#[test]
fn test_pcs_verify_rejects_bad_shapes() {
    let (pcs, points, log_heights, widths, values, mut proof, alpha, betas, query_indices) =
        build_proof_setup();
    proof.fri_proof.final_poly.push(0);
    let r = pcs.verify_multi_batches(
        &points,
        &log_heights,
        &widths,
        &values,
        &proof,
        alpha,
        &betas,
        &query_indices,
    );
    assert!(matches!(r, Err(PcsError::ShapeMismatch)));
}

#[test]
fn test_pcs_verify_rejects_point_on_domain() {
    // Opening claimed at a point of the committed coset itself: the
    // denominator x - z vanishes at the queried row.
    let (pcs, _points, log_heights, widths, values, proof, alpha, betas, query_indices) =
        build_proof_setup();
    let bad: Vec<Vec<Vec<u64>>> = vec![vec![vec![31], vec![31]]];
    let r = pcs.verify_multi_batches(
        &bad,
        &log_heights,
        &widths,
        &values,
        &proof,
        alpha,
        &betas,
        &query_indices,
    );
    assert!(r.is_err());
}

#[test]
fn test_commit_rejects_zero_shift() {
    let dft = Radix2DitParallel::new();
    let params = FriParams { log_blowup: 1, num_queries: 2, proof_of_work_bits: 0 };
    let mut pcs = TwoAdicFriPcs::new(params, dft).unwrap();
    let polys: Vec<FpMatrix> = vec![mk_mat(vec![vec![1], vec![2]], 1)];
    assert!(pcs.commit_shifted_batches(&polys, 0).is_none());
}

#[test]
fn test_commit_rejects_bad_height() {
    let dft = Radix2DitParallel::new();
    let params = FriParams { log_blowup: 1, num_queries: 2, proof_of_work_bits: 0 };
    let mut pcs = TwoAdicFriPcs::new(params, dft).unwrap();
    let polys: Vec<FpMatrix> = vec![mk_mat(vec![vec![1], vec![2], vec![3]], 1)];
    assert!(pcs.commit_batches(&polys).is_none());
}

#[test]
fn test_get_ldes_natural_order() {
    let dft = Radix2DitParallel::new();
    let params = FriParams { log_blowup: 1, num_queries: 2, proof_of_work_bits: 0 };
    let mut pcs = TwoAdicFriPcs::new(params, dft).unwrap();
    let polys: Vec<FpMatrix> = vec![mk_mat(vec![vec![1], vec![2], vec![3], vec![4]], 1)];
    let ldes = pcs.commit_batches(&polys).unwrap();
    let nat = get_ldes(&ldes).unwrap();
    assert_eq!(nat.len(), 1);
    assert_eq!(nat[0].rows.len(), 8);
    // Natural order means row i of the view is row bitrev(i) of storage.
    assert_eq!(nat[0].rows[1][0], ldes[0].rows[4][0]);
}

#[test]
fn test_verify_query_fold_matches_fold() {
    // Replaying one query of a fold chain lands on the folded vector's entry.
    let mut v: Vec<u64> = Vec::new();
    for i in 0..16u64 {
        v.push((i * i * 5 + 3) % P);
    }
    let betas: Vec<u64> = vec![21, 77];
    let pm = pairs_matrix(&v);
    let f1 = fold_univariate(&pm, betas[0], 1).unwrap();
    let f2 = fold_univariate(&pairs_matrix(&f1), betas[1], 1).unwrap();
    for idx in 0..16usize {
        let sibs: Vec<u64> = vec![v[idx ^ 1], f1[(idx >> 1) ^ 1]];
        let out = verify_query_fold(idx, 4, 1, &betas, &sibs, v[idx]).unwrap();
        assert_eq!(out, f2[idx >> 2]);
    }
}
