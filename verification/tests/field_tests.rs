use ark_ff::{BigInt, Field, PrimeField};
use halo::field::{PastaFE, PastaFieldId};

fn fp(n: u64) -> PastaFE {
    PastaFE::from_u64(n, Some(PastaFieldId::Fp))
}

fn fq(n: u64) -> PastaFE {
    PastaFE::from_u64(n, Some(PastaFieldId::Fq))
}

fn fr_limbs(x: ark_pallas::Fr) -> [u64; 4] {
    x.into_bigint().0
}

fn fq_limbs(x: ark_pallas::Fq) -> [u64; 4] {
    x.into_bigint().0
}

#[test]
fn field_ids_swap() {
    assert_eq!(PastaFieldId::Fp.inv(), PastaFieldId::Fq);
    assert_eq!(PastaFieldId::Fq.inv(), PastaFieldId::Fp);
    assert_eq!(PastaFieldId::Fp.inv().inv(), PastaFieldId::Fp);
    assert_eq!(PastaFieldId::Fp.idx(), 0);
    assert_eq!(PastaFieldId::Fq.idx(), 1);
    assert_eq!(PastaFieldId::Fp.name(), "Fp");
    assert_eq!(PastaFieldId::Fq.name(), "Fq");
}

#[test]
fn fp_small_arithmetic() {
    assert_eq!(fp(3).add(fp(5)).inner, [8, 0, 0, 0]);
    assert_eq!(fp(3).mul(fp(5)).inner, [15, 0, 0, 0]);
    assert_eq!(fp(15).div(fp(5)).inner, [3, 0, 0, 0]);
    assert_eq!(fp(3).pow(4).inner, [81, 0, 0, 0]);
    assert_eq!(fp(9).square().inner, [81, 0, 0, 0]);
    assert_eq!(fp(3).sub(fp(5)).inner, fr_limbs(ark_pallas::Fr::from(3u64) - ark_pallas::Fr::from(5u64)));
    assert_eq!(fp(7).neg().inner, fr_limbs(-ark_pallas::Fr::from(7u64)));
}

#[test]
fn fq_small_arithmetic() {
    assert_eq!(fq(3).add(fq(5)).inner, [8, 0, 0, 0]);
    assert_eq!(fq(2).sub(fq(9)).inner, fq_limbs(ark_pallas::Fq::from(2u64) - ark_pallas::Fq::from(9u64)));
    assert_eq!(fq(2).neg().inner, fq_limbs(-ark_pallas::Fq::from(2u64)));
    let inv3 = fq(3).inverse().unwrap();
    assert_eq!(inv3.inner, fq_limbs(ark_pallas::Fq::from(3u64).inverse().unwrap()));
    assert_eq!(inv3.mul(fq(3)).inner, [1, 0, 0, 0]);
}

#[test]
fn the_two_fields_differ() {
    // -1 has different limbs in the two fields.
    assert_ne!(fp(1).neg().inner, fq(1).neg().inner);
    assert_eq!(fp(1).neg().inner, fr_limbs(-ark_pallas::Fr::from(1u64)));
    assert_eq!(fq(1).neg().inner, fq_limbs(-ark_pallas::Fq::from(1u64)));
}

#[test]
fn untagged_operands_take_the_other_field() {
    let one = PastaFE::one(None);
    let r = one.add(fq(4));
    assert_eq!(r.fid, Some(PastaFieldId::Fq));
    assert_eq!(r.inner, [5, 0, 0, 0]);
    let r = fp(4).sub(PastaFE::from_u64(5, None));
    assert_eq!(r.fid, Some(PastaFieldId::Fp));
    assert_eq!(r.inner, fr_limbs(-ark_pallas::Fr::from(1u64)));
}

#[test]
fn inverse_of_zero_is_none() {
    assert!(fp(0).inverse().is_none());
    assert!(fq(0).inverse().is_none());
    let z = fp(0).inv0();
    assert!(z.is_zero());
    let i = fp(2).inv0();
    assert_eq!(i.mul(fp(2)).inner, [1, 0, 0, 0]);
}

#[test]
fn pow_of_large_value() {
    let x = PastaFE::new(fr_limbs(ark_pallas::Fr::from(123456789u64).square()), Some(PastaFieldId::Fp));
    let expected = fr_limbs(ark_pallas::Fr::from(123456789u64).square().pow([5u64]));
    assert_eq!(x.pow(5).inner, expected);
}

#[test]
fn equality_of_elements() {
    assert!(fp(3).eq(&PastaFE::from_u64(3, None)));
    assert!(!fp(3).eq(&fp(4)));
    assert!(!PastaFE::neg_one().eq(&PastaFE::zero(None)));
    assert!(PastaFE::from_bool(true, None).eq(&PastaFE::one(None)));
    assert!(PastaFE::from_bool(false, None).is_zero());
}

#[test]
fn into_bigint_gives_limbs() {
    let x = PastaFE::new([1, 2, 3, 4], None);
    assert_eq!(x.into_bigint(), [1, 2, 3, 4]);
}

#[test]
fn split_and_bits() {
    let (h, l) = halo::field::split_low_bit([0x8000_0000_0000_0001, 3, 5, 7]);
    assert_eq!(l, 1);
    assert_eq!(h, [0x8000_0000_0000_0000 | 0x4000_0000_0000_0000, (3 >> 1) | (5 << 63), (5 >> 1) | (1 << 63), 3]);
    let bits = halo::field::bits_le([0b1011, 0, 0, 1 << 63]);
    assert_eq!(bits.len(), 256);
    assert!(bits[0] && bits[1] && !bits[2] && bits[3] && !bits[4]);
    assert!(bits[255]);
    assert!(!bits[254]);
}

#[test]
fn field_five_is_not_square() {
    let five = ark_pallas::Fq::from(5u64);
    assert!(five.sqrt().is_none(), "5 should not be a square in Fq");

    let five = ark_pallas::Fr::from(5u64);
    assert!(five.sqrt().is_none(), "5 should not be a square in Fq");
}

#[test]
fn adding_zero_keeps_a_large_value() {
    let x = ark_pallas::Fr::new(BigInt([11, 22, 33, 44]));
    assert_eq!(PastaFE::new(fr_limbs(x), Some(PastaFieldId::Fp)).add(fp(0)).inner, fr_limbs(x));
}
