use ark_ff::{Field, PrimeField};
use halo::circuit::SlotId;
use halo::field::{PastaFE, PastaFieldId};
use halo::hpoly::{construct_powers, scalar_dot, AccumulatedHPolys, HPoly};
use halo::sigma::build_sigma;
use halo::table::{MultiAssign, Table};

type Fr = ark_pallas::Fr;

fn fp(n: u64) -> PastaFE {
    PastaFE::from_u64(n, Some(PastaFieldId::Fp))
}

fn fr(x: &PastaFE) -> Fr {
    Fr::from_bigint(ark_ff::BigInt(x.inner)).unwrap()
}

#[test]
fn slot_ids_are_one_indexed() {
    let s = SlotId::new(3, 2);
    assert_eq!(s.row(), 3);
    assert_eq!(s.column(), 2);
    assert_eq!(s.row_0_indexed(), 2);
    assert_eq!(s.column_0_indexed(), 1);
    assert_eq!(s.to_usize(8), 2 + 8);
    assert_eq!(SlotId::from_usize(10, 8), s);
    assert_eq!(s.to_scalar(8, PastaFieldId::Fq).inner, [11, 0, 0, 0]);
}

#[test]
fn slot_id_round_trip() {
    for n in [1usize, 4, 8, 16] {
        for u in 0..(n * 8) {
            assert_eq!(SlotId::from_usize(u, n).to_usize(n), u);
        }
    }
}

#[test]
fn sigma_of_two_classes() {
    let rows = 4;
    let a = SlotId::new(1, 1);
    let b = SlotId::new(2, 3);
    let c = SlotId::new(4, 2);
    let d = SlotId::new(3, 1);
    let eqs = vec![vec![a, b, c], vec![d], vec![]];
    let s = build_sigma(&eqs, rows, PastaFieldId::Fp);
    assert_eq!(s.sigma.len(), 32);
    assert_eq!(s.sigma[a.to_usize(rows)], b);
    assert_eq!(s.sigma[b.to_usize(rows)], c);
    assert_eq!(s.sigma[c.to_usize(rows)], a);
    assert_eq!(s.sigma[d.to_usize(rows)], d);
    for j in 0..32 {
        assert_eq!(s.ids.data[j].inner, [j as u64 + 1, 0, 0, 0]);
        assert_eq!(s.sigmas.data[j].inner, [s.sigma[j].to_usize(rows) as u64 + 1, 0, 0, 0]);
    }
}

#[test]
fn table_rows_are_written_in_place() {
    let z = PastaFE::zero(None);
    let mut t = Table::new(3, 2, z);
    t.multi_assign(1, &[fp(5), fp(6), z]);
    assert_eq!(t.get(0, 1).inner, [5, 0, 0, 0]);
    assert_eq!(t.get(1, 1).inner, [6, 0, 0, 0]);
    assert!(t.get(2, 1).is_zero());
    assert!(t.get(0, 0).is_zero());
    let col = t.column(1);
    assert_eq!(col.len(), 2);
    assert_eq!(col[1].inner, [6, 0, 0, 0]);
}

#[test]
fn powers_and_dot_products() {
    let zs = construct_powers(fp(3), 5);
    let expect = [1u64, 3, 9, 27, 81];
    for i in 0..5 {
        assert_eq!(zs[i].inner, [expect[i], 0, 0, 0]);
    }
    assert!(construct_powers(fp(3), 0).is_empty());
    let d = scalar_dot(&[fp(1), fp(2), fp(3)], &[fp(4), fp(5)], PastaFieldId::Fp);
    assert_eq!(d.inner, [14, 0, 0, 0]);
    assert!(scalar_dot(&[], &[fp(4)], PastaFieldId::Fp).is_zero());
}

#[test]
fn h_polynomial_evaluation() {
    // xis = [x0, x1, x2]: h(z) = (1 + x2 z)(1 + x1 z^2)
    let h = HPoly::new(vec![fp(7), fp(2), fp(3)]);
    let v = h.eval(fp(5));
    assert_eq!(v.inner, [(1 + 3 * 5) * (1 + 2 * 25), 0, 0, 0]);
    let big = HPoly::new(vec![fp(1), fp(2), fp(3), fp(4), fp(5)]);
    let z = Fr::from(9u64);
    let mut expected = Fr::ONE;
    let xis = [1u64, 2, 3, 4, 5];
    for i in 0..4 {
        expected *= Fr::ONE + Fr::from(xis[4 - i]) * z.pow([1u64 << i]);
    }
    assert_eq!(fr(&big.eval(fp(9))), expected);
    assert_eq!(HPoly::new(vec![fp(7)]).eval(fp(5)).inner, [1, 0, 0, 0]);
}

#[test]
fn accumulated_h_polynomials() {
    let mut acc = AccumulatedHPolys::with_capacity(2);
    acc.hs.push(HPoly::new(vec![fp(0), fp(2)]));
    acc.hs.push(HPoly::new(vec![fp(0), fp(3)]));
    assert_eq!(acc.get_scalars().len(), 4);
    acc.set_alpha(fp(10));
    assert_eq!(acc.alphas.len(), 2);
    // h0(z) = 1 + 2z, h1(z) = 1 + 3z, at z = 1: 3 + 10 * 4 = 43
    assert_eq!(acc.eval(fp(1)).inner, [43, 0, 0, 0]);
    let s = acc.get_scalars();
    assert_eq!(s.len(), 5);
    assert_eq!(s[1].inner, [2, 0, 0, 0]);
    assert_eq!(s[3].inner, [3, 0, 0, 0]);
    assert_eq!(s[4].inner, [10, 0, 0, 0]);
}

#[test]
fn test_construct_h_with_degree_7() {
    let xis_u = [11u64, 13, 17, 19];
    let xis: Vec<PastaFE> = xis_u.iter().map(|x| fp(*x)).collect();
    let x = |i: usize| Fr::from(xis_u[i]);
    let coeffs = vec![
        Fr::ONE,
        x(3),
        x(2),
        x(2) * x(3),
        x(1),
        x(1) * x(3),
        x(1) * x(2),
        x(1) * x(2) * x(3),
    ];
    let h = HPoly::new(xis);
    let got: Vec<Fr> = h.get_poly(PastaFieldId::Fp).iter().map(fr).collect();
    assert_eq!(got, coeffs);
}

#[test]
fn h_polynomial_coefficients_drop_trailing_zeros() {
    // h(X) = (1 + 0 X)(1 + 5 X^2) = 1 + 5 X^2: the zero top coefficient goes
    let h = HPoly::new(vec![fp(1), fp(5), fp(0)]);
    let c = h.get_poly(PastaFieldId::Fp);
    assert_eq!(c.len(), 3);
    assert_eq!(c[0].inner, [1, 0, 0, 0]);
    assert!(c[1].is_zero());
    assert_eq!(c[2].inner, [5, 0, 0, 0]);
    assert_eq!(HPoly::new(vec![fp(4)]).get_poly(PastaFieldId::Fp).len(), 1);
}

#[test]
fn h_polynomial_coefficients_evaluate_to_eval() {
    let h = HPoly::new(vec![fp(1), fp(2), fp(3), fp(4), fp(5)]);
    let c = h.get_poly(PastaFieldId::Fp);
    assert_eq!(c.len(), 16);
    let z = Fr::from(9u64);
    let mut v = Fr::from(0u64);
    for (k, ck) in c.iter().enumerate() {
        v += fr(ck) * z.pow([k as u64]);
    }
    assert_eq!(v, fr(&h.eval(fp(9))));
}

#[test]
fn accumulated_h_polynomial_coefficients() {
    let mut acc = AccumulatedHPolys::with_capacity(2);
    acc.hs.push(HPoly::new(vec![fp(0), fp(2)]));
    acc.hs.push(HPoly::new(vec![fp(0), fp(3), fp(4)]));
    acc.set_alpha(fp(10));
    // (1 + 2X) + 10 (1 + 4X)(1 + 3X^2) = 11 + 42X + 30X^2 + 120X^3
    let c = acc.get_poly(PastaFieldId::Fp);
    let got: Vec<[u64; 4]> = c.iter().map(|e| e.inner).collect();
    assert_eq!(got, vec![[11, 0, 0, 0], [42, 0, 0, 0], [30, 0, 0, 0], [120, 0, 0, 0]]);
    assert_eq!(fr(&acc.eval(fp(2))), Fr::from(11u64 + 84 + 120 + 960));
    let mut none = AccumulatedHPolys::with_capacity(1);
    none.hs.push(HPoly::new(vec![fp(0), fp(2)]));
    none.alphas = vec![fp(0)];
    assert!(none.get_poly(PastaFieldId::Fp).is_empty());
}
