use ark_ec::{CurveGroup, PrimeGroup};
use ark_ff::PrimeField;
use ark_serialize::CanonicalSerialize;
use halo::field::{PastaFE, PastaFieldId};
use halo::pp::{rho, rho0, rho1};
use halo::pp::{generator_block, get_generator_hash, sh_generators, WrappedPoint, G_BLOCKS_NO, G_BLOCKS_SIZE, N};
use sha3::{Digest, Sha3_256};

fn hash_scalar_bytes(i: u64) -> Vec<u8> {
    let genesis_string = "To understand recursion, one must first understand recursion".as_bytes();
    let mut hasher = Sha3_256::new();
    hasher.update(i.to_le_bytes());
    hasher.update(genesis_string);
    hasher.finalize().to_vec()
}

fn pallas_expected(i: u64) -> WrappedPoint {
    let s = ark_pallas::Fr::from_le_bytes_mod_order(&hash_scalar_bytes(i));
    let p = (ark_pallas::Projective::generator() * s).into_affine();
    WrappedPoint { x: p.x.0 .0, y: p.y.0 .0 }
}

fn vesta_expected(i: u64) -> WrappedPoint {
    let s = ark_vesta::Fr::from_le_bytes_mod_order(&hash_scalar_bytes(i));
    let p = (ark_vesta::Projective::generator() * s).into_affine();
    WrappedPoint { x: p.x.0 .0, y: p.y.0 .0 }
}

#[test]
fn pallas_generators_match_the_hash_construction() {
    for i in [0u64, 1, 2, 77] {
        let w = get_generator_hash(i, PastaFieldId::Fq);
        let e = pallas_expected(i);
        assert_eq!(w.x, e.x);
        assert_eq!(w.y, e.y);
    }
}

#[test]
fn vesta_generators_match_the_hash_construction() {
    for i in [0u64, 3] {
        let w = get_generator_hash(i, PastaFieldId::Fp);
        let e = vesta_expected(i);
        assert_eq!(w.x, e.x);
        assert_eq!(w.y, e.y);
    }
}

#[test]
fn distinct_indices_give_distinct_generators() {
    let a = get_generator_hash(5, PastaFieldId::Fq);
    let b = get_generator_hash(6, PastaFieldId::Fq);
    assert_ne!(a.x, b.x);
}

#[test]
fn blocks_start_two_after_their_index() {
    let (s, h) = sh_generators(PastaFieldId::Fq);
    assert_eq!(s.x, get_generator_hash(0, PastaFieldId::Fq).x);
    assert_eq!(h.x, get_generator_hash(1, PastaFieldId::Fq).x);
    let block = generator_block(3, 2, PastaFieldId::Fp);
    assert_eq!(block.len(), 2);
    assert_eq!(block[0].x, get_generator_hash(5, PastaFieldId::Fp).x);
    assert_eq!(block[1].y, get_generator_hash(6, PastaFieldId::Fp).y);
}

#[test]
fn parameter_sizes() {
    assert!(N.is_power_of_two());
    assert!(G_BLOCKS_NO.is_power_of_two());
    assert_eq!(G_BLOCKS_SIZE, N / G_BLOCKS_NO);
}

fn rho_expected(domain_sep: &[u8], scalars: &[ark_pallas::Fr]) -> ark_pallas::Fr {
    let mut data = Vec::new();
    for scalar in scalars {
        scalar.serialize_compressed(&mut data).unwrap()
    }
    let mut hasher = Sha3_256::new();
    hasher.update(&data);
    hasher.update(domain_sep);
    let hash_result = hasher.finalize();
    let mut hash_bytes = [0u8; 32];
    hash_bytes.copy_from_slice(hash_result.as_slice());
    ark_pallas::Fr::from_le_bytes_mod_order(&hash_bytes)
}

#[test]
fn fiat_shamir_challenges() {
    let xs = [ark_pallas::Fr::from(3u64), ark_pallas::Fr::from(123456789u64) * ark_pallas::Fr::from(987654321u64)];
    let fes: Vec<PastaFE> = xs.iter().map(|x| PastaFE::new(x.into_bigint().0, Some(PastaFieldId::Fp))).collect();
    assert_eq!(rho0(&fes, &[], PastaFieldId::Fp).inner, rho_expected(&[0], &xs).into_bigint().0);
    assert_eq!(rho1(&fes, &[], PastaFieldId::Fp).inner, rho_expected(&[1], &xs).into_bigint().0);
    assert_eq!(rho(&[7, 8], &[], &[], PastaFieldId::Fp).inner, rho_expected(&[7, 8], &[]).into_bigint().0);
    assert_ne!(rho0(&fes, &[], PastaFieldId::Fp).inner, rho1(&fes, &[], PastaFieldId::Fp).inner);
}
