use ark_ec::{AffineRepr, CurveGroup};
use ark_ff::{AdditiveGroup, FftField, Field, PrimeField};
use halo::constraints::{
    affine_add_constraints_generic, affine_mul_constraints_generic, eq_generic, geometric_generic, pow_n,
    poseidon_constraints_generic, public_input_eval_generic, range_check_generic, t_reconstruct_generic,
};
use halo::field::{PastaFE, PastaFieldId};
use halo::trace_builder::poseidon_round;

type Fr = ark_pallas::Fr;

fn fp(n: u64) -> PastaFE {
    PastaFE::from_u64(n, Some(PastaFieldId::Fp))
}

fn fr(x: &PastaFE) -> Fr {
    Fr::from_bigint(ark_ff::BigInt(x.inner)).unwrap()
}

fn from_fr(x: Fr) -> PastaFE {
    PastaFE::new(x.into_bigint().0, Some(PastaFieldId::Fp))
}

#[test]
fn t_reconstruct_is_a_power_sum() {
    let ts: [PastaFE; 16] = std::array::from_fn(|i| fp(i as u64 + 1));
    let r = t_reconstruct_generic(ts, fp(2));
    // sum_{i<16} (i+1) * 2^i = 15 * 2^16 + 1
    assert_eq!(r.inner, [15 * 65536 + 1, 0, 0, 0]);
}

#[test]
fn geometric_combination() {
    let r = geometric_generic(fp(10), vec![fp(1), fp(2), fp(3)]);
    assert_eq!(r.inner, [321, 0, 0, 0]);
    let r = geometric_generic(fp(10), vec![fp(7)]);
    assert_eq!(r.inner, [7, 0, 0, 0]);
}

#[test]
fn pow_n_squares_log_n_times() {
    assert_eq!(pow_n(fp(3), 8).inner, [6561, 0, 0, 0]);
    assert_eq!(pow_n(fp(3), 1).inner, [3, 0, 0, 0]);
    // 12 is not a power of two: 3 is squared floor(log2(12)) = 3 times.
    assert_eq!(pow_n(fp(3), 12).inner, [6561, 0, 0, 0]);
    let big = pow_n(fp(5), 1 << 10);
    assert_eq!(big.inner, Fr::from(5u64).pow([1024u64]).into_bigint().0);
}

#[test]
fn eq_gate_vanishes_on_valid_rows() {
    let z = fp(0);
    // a == b: eq = 1, inv = 0
    let mut w = [z; 16];
    w[0] = fp(9);
    w[1] = fp(9);
    w[2] = fp(1);
    w[3] = fp(1);
    assert!(eq_generic(w).is_zero());
    // a != b: eq = 0, inv = 1 / (a - b)
    w[1] = fp(4);
    w[3] = fp(0);
    w[4] = fp(5).inverse().unwrap();
    assert!(eq_generic(w).is_zero());
    // a wrong claim does not vanish
    w[3] = fp(1);
    assert!(!eq_generic(w).is_zero());
}

#[test]
fn range_check_of_bits() {
    let z = fp(0);
    let mut w = [z; 16];
    let mut r = [z; 15];
    // acc_prev = 5, bits b0 = 1, b1 = 1 with weights 1, 2: acc_next = 8
    w[0] = fp(5);
    w[1] = fp(1);
    w[2] = fp(1);
    r[0] = fp(1);
    r[1] = fp(2);
    let nw = [fp(8), z, z];
    assert!(range_check_generic(w, nw, r).is_zero());
    let nw = [fp(9), z, z];
    assert_eq!(range_check_generic(w, nw, r).inner, [1, 0, 0, 0]);
}

fn mds() -> [[PastaFE; 3]; 3] {
    [[fp(2), fp(3), fp(5)], [fp(7), fp(11), fp(13)], [fp(17), fp(19), fp(23)]]
}

#[test]
fn poseidon_round_values() {
    let (a, b, c) = poseidon_round(&mds(), fp(1), fp(0), fp(0), fp(1), fp(2), fp(0));
    // 1 + 2*1 + 3*128 = 387; 7*1 + 11*128 = 1415; 17 + 19*128 = 2449
    assert_eq!(a.inner, [387, 0, 0, 0]);
    assert_eq!(b.inner, [1415, 0, 0, 0]);
    assert_eq!(c.inner, [2449, 0, 0, 0]);
}

#[test]
fn poseidon_gate_vanishes_on_a_computed_row() {
    let m = mds();
    let r: [PastaFE; 15] = std::array::from_fn(|i| fp(i as u64 + 3));
    let mut w = [fp(0); 16];
    w[0] = fp(4);
    w[1] = fp(5);
    w[2] = fp(6);
    for k in 0..4 {
        let (a, b, c) = poseidon_round(&m, r[3 * k], r[3 * k + 1], r[3 * k + 2], w[3 * k], w[3 * k + 1], w[3 * k + 2]);
        w[3 * k + 3] = a;
        w[3 * k + 4] = b;
        w[3 * k + 5] = c;
    }
    let (a, b, c) = poseidon_round(&m, r[12], r[13], r[14], w[12], w[13], w[14]);
    assert!(poseidon_constraints_generic(m, &r, &w, &[a, b, c]).is_zero());
    assert!(!poseidon_constraints_generic(m, &r, &w, &[a, b, a]).is_zero());
}

#[test]
fn public_input_polynomial() {
    // n = 4, omega = a 4th root of unity, one public input.
    let omega = Fr::get_root_of_unity(4).unwrap();
    let xi = Fr::from(10u64);
    let xi_n = xi.pow([4u64]);
    let x = Fr::from(6u64);
    let expected = (xi_n - Fr::ONE) * omega / (Fr::from(4u64) * (xi - omega)) * (-x);
    let r = public_input_eval_generic(&[from_fr(x)], fp(4), from_fr(omega), from_fr(xi), from_fr(xi_n));
    assert_eq!(fr(&r), expected);
    let r = public_input_eval_generic(&[], fp(4), from_fr(omega), from_fr(xi), from_fr(xi_n));
    assert!(r.is_zero());
}

#[test]
fn affine_add_gate_on_a_real_sum() {
    let g = ark_vesta::Affine::generator();
    let h = (g + g).into_affine();
    let s = (g + h).into_affine();
    let (xp, yp) = g.xy().unwrap();
    let (xq, yq) = h.xy().unwrap();
    let (xr, yr) = s.xy().unwrap();
    let c = |x: Fr| from_fr(x);
    let mut w = [fp(0); 16];
    w[0] = c(xp);
    w[1] = c(yp);
    w[2] = c(xq);
    w[3] = c(yq);
    w[4] = c(xr);
    w[5] = c(yr);
    w[6] = c((xq - xp).inverse().unwrap());
    w[7] = c(xp.inverse().unwrap());
    w[8] = c(xq.inverse().unwrap());
    w[9] = fp(0);
    w[10] = c((yq - yp) / (xq - xp));
    assert!(affine_add_constraints_generic(w).is_zero());
    w[4] = c(xr + Fr::ONE);
    assert!(!affine_add_constraints_generic(w).is_zero());
}

#[test]
fn affine_mul_gate_of_identity_step() {
    // P = identity (0, 0), bit b = 0, G a point: Q = 2P = identity, R = Q + G = G, S = Q.
    let g = ark_vesta::Affine::generator();
    let (xg, yg) = g.xy().unwrap();
    let c = |x: Fr| from_fr(x);
    let z = fp(0);
    let mut w = [z; 16];
    w[3] = c(xg);
    w[4] = c(yg);
    w[8] = c(xg);
    w[9] = c(yg);
    w[12] = c(xg.inverse().unwrap());
    w[13] = c(xg.inverse().unwrap());
    w[15] = c(yg / xg);
    let nw = [z, z, z];
    let t = fp(8);
    assert!(affine_mul_constraints_generic(w, nw, t).is_zero());
    let nw = [z, z, fp(1)];
    assert!(!affine_mul_constraints_generic(w, nw, t).is_zero());
}

#[test]
fn affine_add_gate_on_doubling_negation_and_identity() {
    let c = |x: Fr| from_fr(x);
    let g = ark_vesta::Affine::generator();
    let (xp, yp) = g.xy().unwrap();
    let inv0 = |x: Fr| x.inverse().unwrap_or(Fr::ZERO);
    let row = |p: (Fr, Fr), q: (Fr, Fr), r: (Fr, Fr), de: Fr, la: Fr| {
        let mut w = [fp(0); 16];
        let vals = [p.0, p.1, q.0, q.1, r.0, r.1, inv0(q.0 - p.0), inv0(p.0), inv0(q.0), de, la];
        for (i, v) in vals.iter().enumerate() {
            w[i] = c(*v);
        }
        w
    };
    // doubling: the tangent slope
    let d = (g + g).into_affine();
    let (xd, yd) = d.xy().unwrap();
    let three = Fr::from(3u64);
    let two = Fr::from(2u64);
    let la = three * xp * xp / (two * yp);
    let w = row((xp, yp), (xp, yp), (xd, yd), inv0(yp + yp), la);
    assert!(affine_add_constraints_generic(w).is_zero());
    // Q = -P: the sum is the identity (0, 0)
    let w = row((xp, yp), (xp, -yp), (Fr::ZERO, Fr::ZERO), Fr::ZERO, la);
    assert!(affine_add_constraints_generic(w).is_zero());
    // P the identity: the sum is Q, with the chord slope from (0, 0)
    let w = row((Fr::ZERO, Fr::ZERO), (xp, yp), (xp, yp), Fr::ZERO, yp / xp);
    assert!(affine_add_constraints_generic(w).is_zero());
    // Q the identity: the sum is P
    let w = row((xp, yp), (Fr::ZERO, Fr::ZERO), (xp, yp), Fr::ZERO, yp / xp);
    assert!(affine_add_constraints_generic(w).is_zero());
}
