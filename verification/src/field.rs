//! Elements of the two Pasta prime fields, held as four little-endian `u64`
//! limbs of their canonical integer value, together with the identifier of
//! the field they live in. The field arithmetic itself is done by `ark_ff`
//! on `ark_pallas::Fr` (the field called Fp here) and `ark_pallas::Fq`.
use vstd::prelude::*;
use vstd::arithmetic::power::pow;
use crate::modular::lemma_mod_range;

use ark_ff::{BigInt, Field, PrimeField};

verus! {

/// The two Pasta fields. `Fp` is the scalar field of Pallas and the base
/// field of Vesta; `Fq` is the base field of Pallas and the scalar field of
/// Vesta.
#[derive(Clone, Copy, Debug, PartialEq, Eq, Hash, Structural)]
pub enum PastaFieldId {
    Fp,
    Fq,
}

/// The modulus of the Pasta field `Fp` (`ark_pallas::Fr`).
pub open spec fn fp_modulus() -> int {
    28948022309329048855892746252171976963363056481941647379679742748393362948097int
}

/// The modulus of the Pasta field `Fq` (`ark_pallas::Fq`).
pub open spec fn fq_modulus() -> int {
    28948022309329048855892746252171976963363056481941560715954676764349967630337int
}

/// The modulus of the field named by `fid`.
pub open spec fn modulus(fid: PastaFieldId) -> int {
    match fid {
        PastaFieldId::Fp => fp_modulus(),
        PastaFieldId::Fq => fq_modulus(),
    }
}

/// Both moduli lie strictly between `2^64` and `2^255`.
pub proof fn lemma_modulus_bounds(fid: PastaFieldId)
    ensures
        0x1_0000_0000_0000_0000int < modulus(fid),
        modulus(fid) < 0x8000_0000_0000_0000_0000_0000_0000_0000_0000_0000_0000_0000_0000_0000_0000_0000int,
{
}

/// The integer held by four little-endian 64-bit limbs.
pub open spec fn limbs_val(l: [u64; 4]) -> int {
    l[0] as int + l[1] as int * 0x1_0000_0000_0000_0000int
        + l[2] as int * 0x1_0000_0000_0000_0000_0000_0000_0000_0000int
        + l[3] as int * 0x1_0000_0000_0000_0000_0000_0000_0000_0000_0000_0000_0000_0000int
}

pub proof fn lemma_limbs_nonneg(l: [u64; 4])
    ensures
        limbs_val(l) >= 0,
{
}

/// Limbs are below `2^64`, so their value is below `2^256`.
pub proof fn lemma_limbs_bound(l: [u64; 4])
    ensures
        limbs_val(l) < 0x1_0000_0000_0000_0000_0000_0000_0000_0000_0000_0000_0000_0000_0000_0000_0000_0000int,
{
}

proof fn lemma_split_low_limb(a: int, q: int, b: int, p: int)
    requires
        0 <= a < 0x1_0000_0000_0000_0000int,
        0 <= b < 0x1_0000_0000_0000_0000int,
        a + q * 0x1_0000_0000_0000_0000int == b + p * 0x1_0000_0000_0000_0000int,
    ensures
        a == b,
        q == p,
{
    vstd::arithmetic::div_mod::lemma_fundamental_div_mod_converse(
        a + q * 0x1_0000_0000_0000_0000int,
        0x1_0000_0000_0000_0000int,
        q,
        a,
    );
    vstd::arithmetic::div_mod::lemma_fundamental_div_mod_converse(
        b + p * 0x1_0000_0000_0000_0000int,
        0x1_0000_0000_0000_0000int,
        p,
        b,
    );
}

/// Two limb arrays with the same value are the same array.
pub proof fn lemma_limbs_injective(a: [u64; 4], b: [u64; 4])
    requires
        limbs_val(a) == limbs_val(b),
    ensures
        a == b,
{
    let bb = 0x1_0000_0000_0000_0000int;
    let qa2 = a[2] as int + a[3] as int * bb;
    let qb2 = b[2] as int + b[3] as int * bb;
    let qa1 = a[1] as int + qa2 * bb;
    let qb1 = b[1] as int + qb2 * bb;
    assert(limbs_val(a) == a[0] as int + qa1 * bb) by (nonlinear_arith)
        requires
            qa2 == a[2] as int + a[3] as int * bb,
            qa1 == a[1] as int + qa2 * bb,
            bb == 0x1_0000_0000_0000_0000int,
    ;
    assert(limbs_val(b) == b[0] as int + qb1 * bb) by (nonlinear_arith)
        requires
            qb2 == b[2] as int + b[3] as int * bb,
            qb1 == b[1] as int + qb2 * bb,
            bb == 0x1_0000_0000_0000_0000int,
    ;
    lemma_split_low_limb(a[0] as int, qa1, b[0] as int, qb1);
    lemma_split_low_limb(a[1] as int, qa2, b[1] as int, qb2);
    lemma_split_low_limb(a[2] as int, a[3] as int, b[2] as int, b[3] as int);
    assert(a =~= b);
}

impl PastaFieldId {
    /// The other Pasta field.
    pub open spec fn other(self) -> PastaFieldId {
        match self {
            PastaFieldId::Fp => PastaFieldId::Fq,
            PastaFieldId::Fq => PastaFieldId::Fp,
        }
    }

    /// The position of the field in per-field arrays: 0 for `Fp`, 1 for `Fq`.
    pub open spec fn spec_idx(self) -> int {
        match self {
            PastaFieldId::Fp => 0,
            PastaFieldId::Fq => 1,
        }
    }

    /// Returns the other Pasta field.
    pub fn inv(&self) -> (r: Self)
        ensures
            r == self.other(),
    {
        match self {
            PastaFieldId::Fp => PastaFieldId::Fq,
            PastaFieldId::Fq => PastaFieldId::Fp,
        }
    }

    /// The position of the field in per-field arrays.
    pub fn idx(self) -> (r: usize)
        ensures
            r == self.spec_idx(),
    {
        match self {
            PastaFieldId::Fp => 0,
            PastaFieldId::Fq => 1,
        }
    }

    /// The short name of the field: `Fp` or `Fq`.
    pub fn name(self) -> (r: &'static str)
        ensures
            r@ == (match self {
                PastaFieldId::Fp => "Fp"@,
                PastaFieldId::Fq => "Fq"@,
            }),
    {
        match self {
            PastaFieldId::Fp => "Fp",
            PastaFieldId::Fq => "Fq",
        }
    }
}

/// Inverting the field twice gives the field back.
pub proof fn lemma_inv_involutive(fid: PastaFieldId)
    ensures
        fid.other().other() == fid,
        fid.other() != fid,
{
}

/// The multiplicative inverse of `a` modulo `m`: the `w` in `[0, m)` with
/// `a * w == 1` modulo `m`, which is unique for a prime `m`.
pub open spec fn finv(a: int, m: int) -> int {
    choose|w: int| 0 <= w < m && #[trigger] ((a * w) % m) == 1
}

/// The quotient `a / b` modulo `m`: the `r` in `[0, m)` with `r * b == a`
/// modulo `m`, which is unique for a prime `m` and `b` not divisible by `m`.
pub open spec fn fquot(a: int, b: int, m: int) -> int {
    choose|r: int| 0 <= r < m && #[trigger] ((r * b) % m) == a
}


proof fn lemma_halve_limb(a: u64, b: u64)
    ensures
        ((a >> 1u64) | ((b & 1u64) << 63u64)) as int == (a / 2) as int + (b % 2) as int * 0x8000_0000_0000_0000int,
        a as int == 2 * (a / 2) as int + (a % 2) as int,
{
    assert(((a >> 1u64) | ((b & 1u64) << 63u64)) == (a / 2) + (b % 2) * 0x8000_0000_0000_0000u64) by (bit_vector);
}

/// The value of four limbs halved (rounded down), and its lowest bit.
pub fn split_low_bit(l: [u64; 4]) -> (r: ([u64; 4], u64))
    ensures
        limbs_val(r.0) == limbs_val(l) / 2,
        r.1 as int == limbs_val(l) % 2,
        r.1 <= 1,
{
    let a0 = l[0];
    let a1 = l[1];
    let a2 = l[2];
    let a3 = l[3];
    let h0 = (a0 >> 1u64) | ((a1 & 1u64) << 63u64);
    let h1 = (a1 >> 1u64) | ((a2 & 1u64) << 63u64);
    let h2 = (a2 >> 1u64) | ((a3 & 1u64) << 63u64);
    let h3 = a3 >> 1u64;
    let bit = a0 & 1u64;
    proof {
        lemma_halve_limb(a0, a1);
        lemma_halve_limb(a1, a2);
        lemma_halve_limb(a2, a3);
        lemma_halve_limb(a3, 0);
        assert(h3 == a3 / 2) by (bit_vector)
            requires
                h3 == a3 >> 1u64,
        ;
        assert(bit == a0 % 2) by (bit_vector)
            requires
                bit == a0 & 1u64,
        ;
        let h = [h0, h1, h2, h3];
        assert(limbs_val(l) == 2 * limbs_val(h) + bit as int);
        vstd::arithmetic::div_mod::lemma_fundamental_div_mod_converse(limbs_val(l), 2, limbs_val(h), bit as int);
    }
    ([h0, h1, h2, h3], bit)
}


/// `2^(k+1) == 2^k * 2`, and powers of two are positive.
pub proof fn lemma_pow2_step(k: nat)
    ensures
        pow(2, k + 1) == pow(2, k) * 2,
        pow(2, k) > 0,
{
    reveal(pow);
    vstd::arithmetic::power::lemma_pow_positive(2, k);
    assert(pow(2, (k + 1) as nat) == 2 * pow(2, k));
}

/// The 256 bits of the value of four limbs, least significant first:
/// bit `k` is set exactly when `(value / 2^k) mod 2 == 1`.
pub fn bits_le(l: [u64; 4]) -> (bits: Vec<bool>)
    ensures
        bits@.len() == 256,
        forall|k: int| 0 <= k < 256 ==> #[trigger] bits@[k] == ((limbs_val(l) / pow(2, k as nat)) % 2 == 1),
{
    let mut bits: Vec<bool> = Vec::new();
    let mut rest = l;
    let mut k: usize = 0;
    proof {
        lemma_limbs_nonneg(l);
        reveal(pow);
        assert(pow(2, 0) == 1);
    }
    while k < 256
        invariant
            k <= 256,
            bits@.len() == k,
            limbs_val(l) >= 0,
            limbs_val(rest) == limbs_val(l) / pow(2, k as nat),
            forall|j: int| 0 <= j < k ==> #[trigger] bits@[j] == ((limbs_val(l) / pow(2, j as nat)) % 2 == 1),
        decreases 256 - k,
    {
        let (next, bit) = split_low_bit(rest);
        proof {
            lemma_pow2_step(k as nat);
            vstd::arithmetic::div_mod::lemma_div_denominator(limbs_val(l), pow(2, k as nat), 2);
        }
        bits.push(bit == 1);
        rest = next;
        k = k + 1;
    }
    bits
}

// -------------------- ark_ff field operations --------------------

/// `ark_pallas::Fr` addition: the canonical sum modulo the Fp modulus.
#[verifier::external_body]
fn fp_add_limbs(a: [u64; 4], b: [u64; 4]) -> (r: [u64; 4])
    requires
        limbs_val(a) < fp_modulus(),
        limbs_val(b) < fp_modulus(),
    ensures
        limbs_val(r) == (limbs_val(a) + limbs_val(b)) % fp_modulus(),
{
    (ark_pallas::Fr::from(BigInt(a)) + ark_pallas::Fr::from(BigInt(b))).into_bigint().0
}

/// `ark_pallas::Fq` addition: the canonical sum modulo the Fq modulus.
#[verifier::external_body]
fn fq_add_limbs(a: [u64; 4], b: [u64; 4]) -> (r: [u64; 4])
    requires
        limbs_val(a) < fq_modulus(),
        limbs_val(b) < fq_modulus(),
    ensures
        limbs_val(r) == (limbs_val(a) + limbs_val(b)) % fq_modulus(),
{
    (ark_pallas::Fq::from(BigInt(a)) + ark_pallas::Fq::from(BigInt(b))).into_bigint().0
}

/// `ark_pallas::Fr` subtraction: the canonical difference modulo the Fp modulus.
#[verifier::external_body]
fn fp_sub_limbs(a: [u64; 4], b: [u64; 4]) -> (r: [u64; 4])
    requires
        limbs_val(a) < fp_modulus(),
        limbs_val(b) < fp_modulus(),
    ensures
        limbs_val(r) == (limbs_val(a) - limbs_val(b)) % fp_modulus(),
{
    (ark_pallas::Fr::from(BigInt(a)) - ark_pallas::Fr::from(BigInt(b))).into_bigint().0
}

/// `ark_pallas::Fq` subtraction: the canonical difference modulo the Fq modulus.
#[verifier::external_body]
fn fq_sub_limbs(a: [u64; 4], b: [u64; 4]) -> (r: [u64; 4])
    requires
        limbs_val(a) < fq_modulus(),
        limbs_val(b) < fq_modulus(),
    ensures
        limbs_val(r) == (limbs_val(a) - limbs_val(b)) % fq_modulus(),
{
    (ark_pallas::Fq::from(BigInt(a)) - ark_pallas::Fq::from(BigInt(b))).into_bigint().0
}

/// `ark_pallas::Fr` multiplication: the canonical product modulo the Fp modulus.
#[verifier::external_body]
fn fp_mul_limbs(a: [u64; 4], b: [u64; 4]) -> (r: [u64; 4])
    requires
        limbs_val(a) < fp_modulus(),
        limbs_val(b) < fp_modulus(),
    ensures
        limbs_val(r) == (limbs_val(a) * limbs_val(b)) % fp_modulus(),
{
    (ark_pallas::Fr::from(BigInt(a)) * ark_pallas::Fr::from(BigInt(b))).into_bigint().0
}

/// `ark_pallas::Fq` multiplication: the canonical product modulo the Fq modulus.
#[verifier::external_body]
fn fq_mul_limbs(a: [u64; 4], b: [u64; 4]) -> (r: [u64; 4])
    requires
        limbs_val(a) < fq_modulus(),
        limbs_val(b) < fq_modulus(),
    ensures
        limbs_val(r) == (limbs_val(a) * limbs_val(b)) % fq_modulus(),
{
    (ark_pallas::Fq::from(BigInt(a)) * ark_pallas::Fq::from(BigInt(b))).into_bigint().0
}

/// `ark_pallas::Fr` division: for a nonzero divisor `b`, the unique canonical
/// `r` with `r * b == a` modulo the Fp modulus.
#[verifier::external_body]
fn fp_div_limbs(a: [u64; 4], b: [u64; 4]) -> (r: [u64; 4])
    requires
        limbs_val(a) < fp_modulus(),
        0 < limbs_val(b) < fp_modulus(),
    ensures
        limbs_val(r) < fp_modulus(),
        (limbs_val(r) * limbs_val(b)) % fp_modulus() == limbs_val(a),
        limbs_val(r) == fquot(limbs_val(a), limbs_val(b), fp_modulus()),
{
    (ark_pallas::Fr::from(BigInt(a)) / ark_pallas::Fr::from(BigInt(b))).into_bigint().0
}

/// `ark_pallas::Fq` division: for a nonzero divisor `b`, the unique canonical
/// `r` with `r * b == a` modulo the Fq modulus.
#[verifier::external_body]
fn fq_div_limbs(a: [u64; 4], b: [u64; 4]) -> (r: [u64; 4])
    requires
        limbs_val(a) < fq_modulus(),
        0 < limbs_val(b) < fq_modulus(),
    ensures
        limbs_val(r) < fq_modulus(),
        (limbs_val(r) * limbs_val(b)) % fq_modulus() == limbs_val(a),
        limbs_val(r) == fquot(limbs_val(a), limbs_val(b), fq_modulus()),
{
    (ark_pallas::Fq::from(BigInt(a)) / ark_pallas::Fq::from(BigInt(b))).into_bigint().0
}

/// `ark_pallas::Fr` negation: the canonical additive inverse modulo the Fp modulus.
#[verifier::external_body]
fn fp_neg_limbs(a: [u64; 4]) -> (r: [u64; 4])
    requires
        limbs_val(a) < fp_modulus(),
    ensures
        limbs_val(r) == (0 - limbs_val(a)) % fp_modulus(),
{
    (-ark_pallas::Fr::new(BigInt(a))).into_bigint().0
}

/// `ark_pallas::Fq` negation: the canonical additive inverse modulo the Fq modulus.
#[verifier::external_body]
fn fq_neg_limbs(a: [u64; 4]) -> (r: [u64; 4])
    requires
        limbs_val(a) < fq_modulus(),
    ensures
        limbs_val(r) == (0 - limbs_val(a)) % fq_modulus(),
{
    (-ark_pallas::Fq::new(BigInt(a))).into_bigint().0
}

/// `ark_pallas::Fr::pow` with a single-limb exponent: `a^e` modulo the Fp modulus.
#[verifier::external_body]
fn fp_pow_limbs(a: [u64; 4], e: u64) -> (r: [u64; 4])
    requires
        limbs_val(a) < fp_modulus(),
    ensures
        limbs_val(r) == pow(limbs_val(a), e as nat) % fp_modulus(),
{
    ark_pallas::Fr::new(BigInt(a)).pow([e]).into_bigint().0
}

/// `ark_pallas::Fq::pow` with a single-limb exponent: `a^e` modulo the Fq modulus.
#[verifier::external_body]
fn fq_pow_limbs(a: [u64; 4], e: u64) -> (r: [u64; 4])
    requires
        limbs_val(a) < fq_modulus(),
    ensures
        limbs_val(r) == pow(limbs_val(a), e as nat) % fq_modulus(),
{
    ark_pallas::Fq::new(BigInt(a)).pow([e]).into_bigint().0
}

/// `ark_pallas::Fr::square`: `a * a` modulo the Fp modulus.
#[verifier::external_body]
fn fp_square_limbs(a: [u64; 4]) -> (r: [u64; 4])
    requires
        limbs_val(a) < fp_modulus(),
    ensures
        limbs_val(r) == (limbs_val(a) * limbs_val(a)) % fp_modulus(),
{
    ark_pallas::Fr::new(BigInt(a)).square().into_bigint().0
}

/// `ark_pallas::Fq::square`: `a * a` modulo the Fq modulus.
#[verifier::external_body]
fn fq_square_limbs(a: [u64; 4]) -> (r: [u64; 4])
    requires
        limbs_val(a) < fq_modulus(),
    ensures
        limbs_val(r) == (limbs_val(a) * limbs_val(a)) % fq_modulus(),
{
    ark_pallas::Fq::new(BigInt(a)).square().into_bigint().0
}

/// `ark_pallas::Fr::inverse`: `None` exactly for zero, otherwise the canonical
/// multiplicative inverse modulo the (prime) Fp modulus.
#[verifier::external_body]
fn fp_inverse_limbs(a: [u64; 4]) -> (r: Option<[u64; 4]>)
    requires
        limbs_val(a) < fp_modulus(),
    ensures
        r is None <==> limbs_val(a) == 0,
        r matches Some(x) ==> limbs_val(x) < fp_modulus() && (limbs_val(a) * limbs_val(x))
            % fp_modulus() == 1 && limbs_val(x) == finv(limbs_val(a), fp_modulus()),
{
    match ark_pallas::Fr::new(BigInt(a)).inverse() {
        Some(x) => Some(x.into_bigint().0),
        None => None,
    }
}

/// `ark_pallas::Fq::inverse`: `None` exactly for zero, otherwise the canonical
/// multiplicative inverse modulo the (prime) Fq modulus.
#[verifier::external_body]
fn fq_inverse_limbs(a: [u64; 4]) -> (r: Option<[u64; 4]>)
    requires
        limbs_val(a) < fq_modulus(),
    ensures
        r is None <==> limbs_val(a) == 0,
        r matches Some(x) ==> limbs_val(x) < fq_modulus() && (limbs_val(a) * limbs_val(x))
            % fq_modulus() == 1 && limbs_val(x) == finv(limbs_val(a), fq_modulus()),
{
    match ark_pallas::Fq::new(BigInt(a)).inverse() {
        Some(x) => Some(x.into_bigint().0),
        None => None,
    }
}

// -------------------- PastaFE --------------------

/// The field of a binary operation on two elements: `Fp` if either operand
/// is tagged `Fp`, otherwise `Fq` if either is tagged `Fq`, otherwise none.
pub open spec fn op_fid(a: Option<PastaFieldId>, b: Option<PastaFieldId>) -> Option<PastaFieldId> {
    if a == Some(PastaFieldId::Fp) || b == Some(PastaFieldId::Fp) {
        Some(PastaFieldId::Fp)
    } else if a is Some || b is Some {
        Some(PastaFieldId::Fq)
    } else {
        None
    }
}

fn resolve_fid(a: Option<PastaFieldId>, b: Option<PastaFieldId>) -> (r: Option<PastaFieldId>)
    ensures
        r == op_fid(a, b),
{
    match (a, b) {
        (Some(PastaFieldId::Fp), _) | (_, Some(PastaFieldId::Fp)) => Some(PastaFieldId::Fp),
        (Some(PastaFieldId::Fq), _) | (_, Some(PastaFieldId::Fq)) => Some(PastaFieldId::Fq),
        (None, None) => None,
    }
}

/// A field element of one of the two Pasta fields (or of no field yet, for
/// small constants), held by the limbs of its integer value. The special
/// value built by `neg_one` stands for -1 in whichever field it meets.
#[derive(Clone, Copy)]
pub struct PastaFE {
    pub inner: [u64; 4],
    pub is_neg_one: bool,
    pub fid: Option<PastaFieldId>,
}

impl PastaFE {
    /// The untagged zero.
    pub open spec fn zero_spec() -> PastaFE {
        PastaFE { inner: [0u64, 0u64, 0u64, 0u64], is_neg_one: false, fid: None }
    }

    /// The untagged one.
    pub open spec fn one_spec() -> PastaFE {
        PastaFE { inner: [1u64, 0u64, 0u64, 0u64], is_neg_one: false, fid: None }
    }

    /// The integer held by the limbs.
    pub open spec fn v(self) -> int {
        limbs_val(self.inner)
    }

    /// The element can take part in arithmetic of field `f`: it is not the
    /// -1 marker and its value is canonical for `f`.
    pub open spec fn fits(self, f: PastaFieldId) -> bool {
        !self.is_neg_one && 0 <= self.v() < modulus(f)
    }

    /// The element is a canonical, tagged element of field `f`.
    pub open spec fn in_field(self, f: PastaFieldId) -> bool {
        self.fid == Some(f) && self.fits(f)
    }

    /// Both elements can be combined by a binary operation.
    pub open spec fn operable(self, other: PastaFE) -> bool {
        &&& op_fid(self.fid, other.fid) is Some
        &&& self.fits(op_fid(self.fid, other.fid).unwrap())
        &&& other.fits(op_fid(self.fid, other.fid).unwrap())
    }

    /// The field in which a binary operation on the two elements takes place.
    pub open spec fn op_field(self, other: PastaFE) -> PastaFieldId {
        op_fid(self.fid, other.fid).unwrap()
    }

    /// A unary operation is possible on the element.
    pub open spec fn unary_ok(self) -> bool {
        self.fid is Some && self.fits(self.fid.unwrap())
    }

    fn from_limbs(inner: [u64; 4], fid: PastaFieldId) -> (r: Self)
        ensures
            r.inner == inner,
            !r.is_neg_one,
            r.fid == Some(fid),
    {
        PastaFE { inner, is_neg_one: false, fid: Some(fid) }
    }

    /// An element with the given limbs and field tag.
    pub fn new(inner: [u64; 4], fid: Option<PastaFieldId>) -> (r: Self)
        ensures
            r.inner == inner,
            !r.is_neg_one,
            r.fid == fid,
    {
        PastaFE { inner, is_neg_one: false, fid }
    }

    /// Whether all limbs are zero.
    pub fn is_zero(&self) -> (r: bool)
        ensures
            r == (self.v() == 0),
    {
        self.inner[0] == 0 && self.inner[1] == 0 && self.inner[2] == 0 && self.inner[3] == 0
    }

    /// The untagged marker for -1.
    pub fn neg_one() -> (r: Self)
        ensures
            r.is_neg_one,
            r.v() == 0,
            r.fid is None,
    {
        PastaFE { inner: [0, 0, 0, 0], is_neg_one: true, fid: None }
    }

    /// The element with integer value `x`.
    pub fn from_u64(x: u64, fid: Option<PastaFieldId>) -> (r: Self)
        ensures
            r.v() == x as int,
            r.inner == [x, 0u64, 0u64, 0u64],
            !r.is_neg_one,
            r.fid == fid,
    {
        Self::new([x, 0, 0, 0], fid)
    }

    /// One for `true`, zero for `false`.
    pub fn from_bool(b: bool, fid: Option<PastaFieldId>) -> (r: Self)
        ensures
            r.v() == (if b { 1int } else { 0int }),
            !r.is_neg_one,
            r.fid == fid,
    {
        if b {
            Self::new([1, 0, 0, 0], fid)
        } else {
            Self::new([0, 0, 0, 0], fid)
        }
    }

    /// The limbs of the element; the -1 marker has no limbs of its own.
    pub fn into_bigint(&self) -> (r: [u64; 4])
        requires
            !self.is_neg_one,
        ensures
            r == self.inner,
    {
        self.inner
    }

    /// Zero, tagged with `fid`.
    pub fn zero(fid: Option<PastaFieldId>) -> (r: Self)
        ensures
            r.inner == [0u64, 0u64, 0u64, 0u64],
            r.v() == 0,
            !r.is_neg_one,
            r.fid == fid,
    {
        Self::new([0, 0, 0, 0], fid)
    }

    /// One, tagged with `fid`.
    pub fn one(fid: Option<PastaFieldId>) -> (r: Self)
        ensures
            r.inner == [1u64, 0u64, 0u64, 0u64],
            r.v() == 1,
            !r.is_neg_one,
            r.fid == fid,
    {
        Self::new([1, 0, 0, 0], fid)
    }

    /// `self` to the power `i`, in the element's own field.
    pub fn pow(&self, i: usize) -> (r: Self)
        requires
            self.unary_ok(),
        ensures
            r.in_field(self.fid.unwrap()),
            r.v() == pow(self.v(), i as nat) % modulus(self.fid.unwrap()),
    {
        let e: u64 = i as u64;
        match self.fid {
            Some(PastaFieldId::Fp) => {
                let l = fp_pow_limbs(self.inner, e);
                proof { lemma_mod_range(pow(self.v(), i as nat), fp_modulus()); }
                Self::from_limbs(l, PastaFieldId::Fp)
            },
            Some(PastaFieldId::Fq) => {
                let l = fq_pow_limbs(self.inner, e);
                proof { lemma_mod_range(pow(self.v(), i as nat), fq_modulus()); }
                Self::from_limbs(l, PastaFieldId::Fq)
            },
            None => {
                proof { assert(false); }
                *self
            },
        }
    }
    /// `self * self`, in the element's own field.
    pub fn square(&self) -> (r: Self)
        requires
            self.unary_ok(),
        ensures
            r.in_field(self.fid.unwrap()),
            r.v() == (self.v() * self.v()) % modulus(self.fid.unwrap()),
    {
        match self.fid {
            Some(PastaFieldId::Fp) => {
                let l = fp_square_limbs(self.inner);
                proof { lemma_mod_range(self.v() * self.v(), fp_modulus()); }
                Self::from_limbs(l, PastaFieldId::Fp)
            },
            Some(PastaFieldId::Fq) => {
                let l = fq_square_limbs(self.inner);
                proof { lemma_mod_range(self.v() * self.v(), fq_modulus()); }
                Self::from_limbs(l, PastaFieldId::Fq)
            },
            None => {
                proof { assert(false); }
                *self
            },
        }
    }

    /// The multiplicative inverse in the element's own field, `None` for zero.
    pub fn inverse(&self) -> (r: Option<Self>)
        requires
            self.unary_ok(),
        ensures
            r is None <==> self.v() == 0,
            r matches Some(x) ==> x.in_field(self.fid.unwrap()) && (self.v() * x.v()) % modulus(
                self.fid.unwrap(),
            ) == 1 && x.v() == finv(self.v(), modulus(self.fid.unwrap())),
    {
        match self.fid {
            Some(PastaFieldId::Fp) => match fp_inverse_limbs(self.inner) {
                Some(l) => Some(Self::from_limbs(l, PastaFieldId::Fp)),
                None => None,
            },
            Some(PastaFieldId::Fq) => match fq_inverse_limbs(self.inner) {
                Some(l) => Some(Self::from_limbs(l, PastaFieldId::Fq)),
                None => None,
            },
            None => {
                proof { assert(false); }
                None
            },
        }
    }

    /// The inverse, with zero mapped to itself.
    pub fn inv0(&self) -> (r: Self)
        requires
            self.unary_ok(),
        ensures
            self.v() == 0 ==> r == *self,
            self.v() != 0 ==> r.in_field(self.fid.unwrap()) && (self.v() * r.v()) % modulus(
                self.fid.unwrap(),
            ) == 1 && r.v() == finv(self.v(), modulus(self.fid.unwrap())),
    {
        if self.is_zero() {
            *self
        } else {
            match self.inverse() {
                Some(x) => x,
                None => {
                    proof { assert(false); }
                    *self
                },
            }
        }
    }

    /// Equality of limbs and of the -1 marker. Comparing elements tagged
    /// with two different fields is refused.
    pub fn eq(&self, other: &Self) -> (r: bool)
        requires
            !(self.fid is Some && other.fid is Some && self.fid != other.fid),
        ensures
            r == (self.inner == other.inner && self.is_neg_one == other.is_neg_one),
    {
        let same = self.inner[0] == other.inner[0] && self.inner[1] == other.inner[1]
            && self.inner[2] == other.inner[2] && self.inner[3] == other.inner[3];
        proof {
            if same {
                assert(self.inner =~= other.inner);
            }
        }
        same && self.is_neg_one == other.is_neg_one
    }

    /// The additive inverse, in the element's own field.
    pub fn neg(self) -> (r: Self)
        requires
            self.unary_ok(),
        ensures
            r.in_field(self.fid.unwrap()),
            r.v() == (0 - self.v()) % modulus(self.fid.unwrap()),
    {
        match self.fid {
            Some(PastaFieldId::Fp) => {
                let l = fp_neg_limbs(self.inner);
                proof { lemma_mod_range(0 - self.v(), fp_modulus()); }
                Self::from_limbs(l, PastaFieldId::Fp)
            },
            Some(PastaFieldId::Fq) => {
                let l = fq_neg_limbs(self.inner);
                proof { lemma_mod_range(0 - self.v(), fq_modulus()); }
                Self::from_limbs(l, PastaFieldId::Fq)
            },
            None => {
                proof { assert(false); }
                self
            },
        }
    }

    /// The sum, in the field given by `op_fid` of the two tags.
    pub fn add(self, other: Self) -> (r: Self)
        requires
            self.operable(other),
        ensures
            r.in_field(self.op_field(other)),
            r.v() == (self.v() + other.v()) % modulus(self.op_field(other)),
    {
        match resolve_fid(self.fid, other.fid) {
            Some(PastaFieldId::Fp) => {
                let l = fp_add_limbs(self.inner, other.inner);
                proof { lemma_mod_range(self.v() + other.v(), fp_modulus()); }
                Self::from_limbs(l, PastaFieldId::Fp)
            },
            Some(PastaFieldId::Fq) => {
                let l = fq_add_limbs(self.inner, other.inner);
                proof { lemma_mod_range(self.v() + other.v(), fq_modulus()); }
                Self::from_limbs(l, PastaFieldId::Fq)
            },
            None => {
                proof { assert(false); }
                self
            },
        }
    }

    /// The difference, in the field given by `op_fid` of the two tags.
    pub fn sub(self, other: Self) -> (r: Self)
        requires
            self.operable(other),
        ensures
            r.in_field(self.op_field(other)),
            r.v() == (self.v() - other.v()) % modulus(self.op_field(other)),
    {
        match resolve_fid(self.fid, other.fid) {
            Some(PastaFieldId::Fp) => {
                let l = fp_sub_limbs(self.inner, other.inner);
                proof { lemma_mod_range(self.v() - other.v(), fp_modulus()); }
                Self::from_limbs(l, PastaFieldId::Fp)
            },
            Some(PastaFieldId::Fq) => {
                let l = fq_sub_limbs(self.inner, other.inner);
                proof { lemma_mod_range(self.v() - other.v(), fq_modulus()); }
                Self::from_limbs(l, PastaFieldId::Fq)
            },
            None => {
                proof { assert(false); }
                self
            },
        }
    }

    /// The product, in the field given by `op_fid` of the two tags.
    pub fn mul(self, other: Self) -> (r: Self)
        requires
            self.operable(other),
        ensures
            r.in_field(self.op_field(other)),
            r.v() == (self.v() * other.v()) % modulus(self.op_field(other)),
    {
        match resolve_fid(self.fid, other.fid) {
            Some(PastaFieldId::Fp) => {
                let l = fp_mul_limbs(self.inner, other.inner);
                proof { lemma_mod_range(self.v() * other.v(), fp_modulus()); }
                Self::from_limbs(l, PastaFieldId::Fp)
            },
            Some(PastaFieldId::Fq) => {
                let l = fq_mul_limbs(self.inner, other.inner);
                proof { lemma_mod_range(self.v() * other.v(), fq_modulus()); }
                Self::from_limbs(l, PastaFieldId::Fq)
            },
            None => {
                proof { assert(false); }
                self
            },
        }
    }

    /// The quotient by a nonzero element, in the field given by `op_fid`.
    pub fn div(self, other: Self) -> (r: Self)
        requires
            self.operable(other),
            other.v() != 0,
        ensures
            r.in_field(self.op_field(other)),
            (r.v() * other.v()) % modulus(self.op_field(other)) == self.v(),
            r.v() == fquot(self.v(), other.v(), modulus(self.op_field(other))),
    {
        match resolve_fid(self.fid, other.fid) {
            Some(PastaFieldId::Fp) => {
                let l = fp_div_limbs(self.inner, other.inner);
                Self::from_limbs(l, PastaFieldId::Fp)
            },
            Some(PastaFieldId::Fq) => {
                let l = fq_div_limbs(self.inner, other.inner);
                Self::from_limbs(l, PastaFieldId::Fq)
            },
            None => {
                proof { assert(false); }
                self
            },
        }
    }
}

} // verus!
