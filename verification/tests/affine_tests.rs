use ark_ec::{AffineRepr, CurveGroup};
use ark_ff::PrimeField;
use halo::affine::PastaAffine;
use halo::field::{PastaFE, PastaFieldId};

fn pallas_point(p: ark_pallas::Affine) -> PastaAffine {
    let (x, y) = p.xy().unwrap();
    PastaAffine::new(
        PastaFE::new(x.into_bigint().0, Some(PastaFieldId::Fq)),
        PastaFE::new(y.into_bigint().0, Some(PastaFieldId::Fq)),
    )
}

fn vesta_point(p: ark_vesta::Affine) -> PastaAffine {
    let (x, y) = p.xy().unwrap();
    PastaAffine::new(
        PastaFE::new(x.into_bigint().0, Some(PastaFieldId::Fp)),
        PastaFE::new(y.into_bigint().0, Some(PastaFieldId::Fp)),
    )
}

#[test]
fn pallas_double_matches_ark() {
    let g = ark_pallas::Affine::generator();
    let two_g = (g + g).into_affine();
    let r = pallas_point(g).add(pallas_point(g));
    assert_eq!(r.x.inner, pallas_point(two_g).x.inner);
    assert_eq!(r.y.inner, pallas_point(two_g).y.inner);
    assert_eq!(r.fid, Some(PastaFieldId::Fq));
}

#[test]
fn vesta_add_matches_ark() {
    let g = ark_vesta::Affine::generator();
    let h = (g + g + g).into_affine();
    let s = (g + h).into_affine();
    let r = vesta_point(g).add(vesta_point(h));
    assert_eq!(r.x.inner, vesta_point(s).x.inner);
    assert_eq!(r.y.inner, vesta_point(s).y.inner);
}

#[test]
fn identity_and_inverse() {
    let g = pallas_point(ark_pallas::Affine::generator());
    let id = PastaAffine::identity(Some(PastaFieldId::Fq));
    let r = g.add(id);
    assert_eq!(r.x.inner, g.x.inner);
    assert_eq!(r.y.inner, g.y.inner);
    let z = g.add(g.neg());
    assert!(z.x.is_zero() && z.y.is_zero());
}

#[test]
fn curve_membership() {
    let g = pallas_point(ark_pallas::Affine::generator());
    assert!(g.check_on_curve(PastaFieldId::Fq));
    let bad = PastaAffine::new(g.x, PastaFE::from_u64(3, Some(PastaFieldId::Fq)));
    assert!(!bad.check_on_curve(PastaFieldId::Fq));
    assert!(PastaAffine::identity(None).check_on_curve(PastaFieldId::Fp));
}
