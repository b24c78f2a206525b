//! The public parameters of the polynomial commitment scheme: generators
//! of a Pasta curve derived by hashing an index together with a fixed
//! string, so that nobody knows their discrete logarithms.
use vstd::prelude::*;
use crate::field::{PastaFE, PastaFieldId, limbs_val, fp_modulus, fq_modulus, modulus, lemma_limbs_injective};
use crate::affine::PastaAffine;
use crate::constraints::all_in_field;
use crate::affine::{valid_point, limb_point, curve_mul};

use ark_ec::{AffineRepr, CurveGroup, PrimeGroup};
use ark_ff::{BigInt, PrimeField};
use ark_serialize::CanonicalSerialize;
use sha3::{Digest, Sha3_256};

verus! {

/// The number of generators of the commitment key.
pub const N: usize = 1048576;
/// The number of blocks the generators are stored in.
pub const G_BLOCKS_NO: usize = 64;
/// The number of generators in a block.
pub const G_BLOCKS_SIZE: usize = 16384;

/// A curve point as the Montgomery-form limbs of its coordinates, as it is
/// stored; the identity is `(0, 0)`.
#[derive(Clone, Copy, Debug)]
pub struct WrappedPoint {
    pub x: [u64; 4],
    pub y: [u64; 4],
}

/// The bytes of the string every generator hash starts from.
pub open spec fn genesis_spec() -> Seq<u8> {
    seq![84u8, 111u8, 32u8, 117u8, 110u8, 100u8, 101u8, 114u8, 115u8, 116u8, 97u8, 110u8, 100u8, 32u8, 114u8, 101u8, 99u8, 117u8, 114u8, 115u8, 105u8, 111u8, 110u8, 44u8, 32u8, 111u8, 110u8, 101u8, 32u8, 109u8, 117u8, 115u8, 116u8, 32u8, 102u8, 105u8, 114u8, 115u8, 116u8, 32u8, 117u8, 110u8, 100u8, 101u8, 114u8, 115u8, 116u8, 97u8, 110u8, 100u8, 32u8, 114u8, 101u8, 99u8, 117u8, 114u8, 115u8, 105u8, 111u8, 110u8]
}

/// `"To understand recursion, one must first understand recursion"`.
fn genesis_bytes() -> (r: Vec<u8>)
    ensures
        r@ == genesis_spec(),
{
    let r: Vec<u8> = vec![84, 111, 32, 117, 110, 100, 101, 114, 115, 116, 97, 110, 100, 32, 114, 101, 99, 117, 114, 115, 105, 111, 110, 44, 32, 111, 110, 101, 32, 109, 117, 115, 116, 32, 102, 105, 114, 115, 116, 32, 117, 110, 100, 101, 114, 115, 116, 97, 110, 100, 32, 114, 101, 99, 117, 114, 115, 105, 111, 110];
    assert(r@ =~= genesis_spec());
    r
}

/// The `n` low bytes of `x`, least significant first.
pub open spec fn le_bytes(x: int, n: nat) -> Seq<u8>
    decreases n,
{
    if n == 0 {
        Seq::<u8>::empty()
    } else {
        seq![(x % 256) as u8] + le_bytes(x / 256, (n - 1) as nat)
    }
}

/// The integer whose little-endian bytes are `b`.
pub open spec fn le_value(b: Seq<u8>) -> int
    decreases b.len(),
{
    if b.len() == 0 {
        0
    } else {
        b[0] + 256 * le_value(b.drop_first())
    }
}

/// The SHA3-256 digest of a byte string.
pub uninterp spec fn sha3_256_of(data: Seq<u8>) -> Seq<u8>;

/// `sha3::Sha3_256::digest`: the SHA3-256 digest of `data`.
#[verifier::external_body]
fn sha3_256(data: &[u8]) -> (r: [u8; 32])
    ensures
        r@ == sha3_256_of(data@),
{
    Sha3_256::digest(data).into()
}

/// `ark_ff::PrimeField::from_le_bytes_mod_order` on `ark_pallas::Fr`: the
/// little-endian integer of the bytes, reduced modulo the Fp modulus.
#[verifier::external_body]
fn fp_from_le_bytes_mod_order(b: [u8; 32]) -> (r: [u64; 4])
    ensures
        limbs_val(r) == le_value(b@) % fp_modulus(),
{
    ark_pallas::Fr::from_le_bytes_mod_order(&b).into_bigint().0
}

/// `ark_ff::PrimeField::from_le_bytes_mod_order` on `ark_pallas::Fq`: the
/// little-endian integer of the bytes, reduced modulo the Fq modulus.
#[verifier::external_body]
fn fq_from_le_bytes_mod_order(b: [u8; 32]) -> (r: [u64; 4])
    ensures
        limbs_val(r) == le_value(b@) % fq_modulus(),
{
    ark_pallas::Fq::from_le_bytes_mod_order(&b).into_bigint().0
}

/// `2^256`, the Montgomery radix of four-limb field elements.
pub open spec fn radix() -> int {
    0x1_0000_0000_0000_0000_0000_0000_0000_0000_0000_0000_0000_0000_0000_0000_0000_0000int
}

/// The Montgomery form of an `ark_pallas::Fq` element, as `ark_ff` stores
/// it: the value times `2^256`, modulo the Fq modulus.
#[verifier::external_body]
fn fq_montgomery(l: [u64; 4]) -> (r: [u64; 4])
    requires
        limbs_val(l) < fq_modulus(),
    ensures
        limbs_val(r) == (limbs_val(l) * radix()) % fq_modulus(),
{
    ark_pallas::Fq::new(BigInt(l)).0 .0
}

/// The Montgomery form of an `ark_pallas::Fr` element, as `ark_ff` stores
/// it: the value times `2^256`, modulo the Fp modulus.
#[verifier::external_body]
fn fp_montgomery(l: [u64; 4]) -> (r: [u64; 4])
    requires
        limbs_val(l) < fp_modulus(),
    ensures
        limbs_val(r) == (limbs_val(l) * radix()) % fp_modulus(),
{
    ark_pallas::Fr::new(BigInt(l)).0 .0
}

/// The generator `(-1, 2)` of the curve whose coordinates lie in `base`:
/// Pallas for `Fq`, Vesta for `Fp`.
pub open spec fn generator_of(base: PastaFieldId) -> Option<(int, int)> {
    Some((modulus(base) - 1, 2))
}

/// `ark_pallas::Projective::generator() * k`, normalised to affine
/// coordinates: the point `[k] G` for the generator `G = (-1, 2)` of Pallas
/// (`G_GENERATOR_X`, `G_GENERATOR_Y` of ark-pallas), the identity as
/// `None`; it is a point of the curve.
#[verifier::external_body]
fn pallas_times_generator(k: [u64; 4]) -> (r: Option<([u64; 4], [u64; 4])>)
    requires
        limbs_val(k) < fp_modulus(),
    ensures
        limb_point(r) == curve_mul(limbs_val(k) as nat, generator_of(PastaFieldId::Fq), fq_modulus()),
        valid_point(limb_point(r), fq_modulus()),
{
    let p = (ark_pallas::Projective::generator() * ark_pallas::Fr::new(BigInt(k))).into_affine();
    match p.xy() {
        Some((x, y)) => Some((x.into_bigint().0, y.into_bigint().0)),
        None => None,
    }
}

/// `ark_vesta::Projective::generator() * k`, normalised to affine
/// coordinates: the point `[k] G` for the generator `G = (-1, 2)` of Vesta
/// (`G_GENERATOR_X`, `G_GENERATOR_Y` of ark-vesta), the identity as `None`;
/// it is a point of the curve.
#[verifier::external_body]
fn vesta_times_generator(k: [u64; 4]) -> (r: Option<([u64; 4], [u64; 4])>)
    requires
        limbs_val(k) < fq_modulus(),
    ensures
        limb_point(r) == curve_mul(limbs_val(k) as nat, generator_of(PastaFieldId::Fp), fp_modulus()),
        valid_point(limb_point(r), fp_modulus()),
{
    let p = (ark_vesta::Projective::generator() * ark_vesta::Fr::new(BigInt(k))).into_affine();
    match p.xy() {
        Some((x, y)) => Some((x.into_bigint().0, y.into_bigint().0)),
        None => None,
    }
}

/// The canonical limbs of the integer `v` (for `0 <= v < 2^256`).
pub open spec fn limbs_of(v: int) -> [u64; 4] {
    choose|l: [u64; 4]| limbs_val(l) == v
}

/// The stored form of a point with canonical coordinates modulo `m`.
pub open spec fn wrapped(p: Option<(int, int)>, m: int) -> WrappedPoint {
    match p {
        Some((x, y)) => WrappedPoint {
            x: limbs_of((x * radix()) % m),
            y: limbs_of((y * radix()) % m),
        },
        None => WrappedPoint { x: [0u64, 0u64, 0u64, 0u64], y: [0u64, 0u64, 0u64, 0u64] },
    }
}

/// The `i`-th generator of the curve whose coordinates lie in `base`: the
/// generator of the curve times the hash of `i` (eight little-endian bytes)
/// followed by the fixed string, read as a scalar.
pub open spec fn generator_hash(i: u64, base: PastaFieldId) -> WrappedPoint {
    let h = le_value(sha3_256_of(le_bytes(i as int, 8) + genesis_spec()));
    match base {
        PastaFieldId::Fq => wrapped(
            curve_mul((h % fp_modulus()) as nat, generator_of(PastaFieldId::Fq), fq_modulus()),
            fq_modulus(),
        ),
        PastaFieldId::Fp => wrapped(
            curve_mul((h % fq_modulus()) as nat, generator_of(PastaFieldId::Fp), fp_modulus()),
            fp_modulus(),
        ),
    }
}

/// The eight little-endian bytes of `x`.
fn u64_le_bytes(x: u64) -> (r: Vec<u8>)
    ensures
        r@ == le_bytes(x as int, 8),
{
    let mut r: Vec<u8> = Vec::new();
    let mut rest = x;
    let mut k: usize = 0;
    while k < 8
        invariant
            k <= 8,
            r@ + le_bytes(rest as int, (8 - k) as nat) == le_bytes(x as int, 8),
        decreases 8 - k,
    {
        let ghost before = r@;
        let b = (rest % 256) as u8;
        r.push(b);
        proof {
            assert(le_bytes(rest as int, (8 - k) as nat) == seq![b] + le_bytes(rest as int / 256, (8 - k - 1) as nat));
            assert(r@ == before + seq![b]);
            assert(before + (seq![b] + le_bytes(rest as int / 256, (8 - k - 1) as nat)) == r@ + le_bytes(rest as int / 256, (8 - k - 1) as nat));
        }
        rest = rest / 256;
        k = k + 1;
    }
    proof {
        assert(le_bytes(rest as int, 0) == Seq::<u8>::empty());
        assert(r@ + Seq::<u8>::empty() == r@);
    }
    r
}

/// The stored form of a point given by canonical limbs in field `base`.
fn wrap_point(p: Option<([u64; 4], [u64; 4])>, base: PastaFieldId) -> (r: WrappedPoint)
    requires
        valid_point(limb_point(p), crate::field::modulus(base)),
    ensures
        r == wrapped(limb_point(p), crate::field::modulus(base)),
{
    match p {
        Some((x, y)) => {
            let (mx, my) = match base {
                PastaFieldId::Fq => (fq_montgomery(x), fq_montgomery(y)),
                PastaFieldId::Fp => (fp_montgomery(x), fp_montgomery(y)),
            };
            proof {
                let m = crate::field::modulus(base);
                let vx = (limbs_val(x) * radix()) % m;
                let vy = (limbs_val(y) * radix()) % m;
                let cx = limbs_of(vx);
                let cy = limbs_of(vy);
                assert(limbs_val(mx) == vx);
                assert(limbs_val(cx) == vx);
                lemma_limbs_injective(mx, cx);
                assert(limbs_val(my) == vy);
                assert(limbs_val(cy) == vy);
                lemma_limbs_injective(my, cy);
            }
            WrappedPoint { x: mx, y: my }
        },
        None => WrappedPoint { x: [0, 0, 0, 0], y: [0, 0, 0, 0] },
    }
}

/// The `i`-th generator of the curve whose coordinates lie in `base` (Fq
/// for Pallas, Fp for Vesta), in stored form.
pub fn get_generator_hash(i: u64, base: PastaFieldId) -> (r: WrappedPoint)
    ensures
        r == generator_hash(i, base),
{
    let mut data = u64_le_bytes(i);
    let g = genesis_bytes();
    let ghost d0 = data@;
    let mut k: usize = 0;
    while k < g.len()
        invariant
            k <= g@.len(),
            g@ == genesis_spec(),
            data@ == d0 + g@.subrange(0, k as int),
        decreases g@.len() - k,
    {
        data.push(g[k]);
        proof {
            assert(g@.subrange(0, k + 1) == g@.subrange(0, k as int).push(g@[k as int]));
        }
        k = k + 1;
    }
    proof {
        assert(g@.subrange(0, g@.len() as int) == g@);
    }
    let hash = sha3_256(data.as_slice());
    let ghost h = le_value(hash@);
    match base {
        PastaFieldId::Fq => {
            let s = fp_from_le_bytes_mod_order(hash);
            proof {
                crate::field::lemma_modulus_bounds(PastaFieldId::Fp);
                assert(limbs_val(s) == h % fp_modulus());
            }
            let p = pallas_times_generator(s);
            wrap_point(p, PastaFieldId::Fq)
        },
        PastaFieldId::Fp => {
            let s = fq_from_le_bytes_mod_order(hash);
            proof {
                crate::field::lemma_modulus_bounds(PastaFieldId::Fq);
                assert(limbs_val(s) == h % fq_modulus());
            }
            let p = vesta_times_generator(s);
            wrap_point(p, PastaFieldId::Fp)
        },
    }
}

/// The two extra generators `S` and `H` of the commitment key: the
/// generators of index 0 and 1.
pub fn sh_generators(base: PastaFieldId) -> (r: (WrappedPoint, WrappedPoint))
    ensures
        r.0 == generator_hash(0, base),
        r.1 == generator_hash(1, base),
{
    (get_generator_hash(0, base), get_generator_hash(1, base))
}

/// The generators of block `block` of the commitment key: those of index
/// `block + k + 2` for `k < size`.
pub fn generator_block(block: u64, size: usize, base: PastaFieldId) -> (r: Vec<WrappedPoint>)
    requires
        block + size + 2 <= u64::MAX,
    ensures
        r@.len() == size,
        forall|k: int| 0 <= k < size ==> #[trigger] r@[k] == generator_hash((block + k + 2) as u64, base),
{
    let mut r: Vec<WrappedPoint> = Vec::new();
    let mut k: usize = 0;
    while k < size
        invariant
            k <= size,
            block + size + 2 <= u64::MAX,
            r@.len() == k,
            forall|j: int| 0 <= j < k ==> #[trigger] r@[j] == generator_hash((block + j + 2) as u64, base),
        decreases size - k,
    {
        let idx: u64 = block + k as u64 + 2;
        r.push(get_generator_hash(idx, base));
        k = k + 1;
    }
    r
}


/// `ark_serialize::CanonicalSerialize::serialize_compressed` on an
/// `ark_pallas::Fr` element: the 32 little-endian bytes of its canonical
/// value.
#[verifier::external_body]
fn fp_serialize_compressed(l: [u64; 4]) -> (r: Vec<u8>)
    requires
        limbs_val(l) < fp_modulus(),
    ensures
        r@ == le_bytes(limbs_val(l), 32),
{
    let mut v = Vec::new();
    ark_pallas::Fr::new(BigInt(l)).serialize_compressed(&mut v).unwrap();
    v
}

/// `ark_serialize::CanonicalSerialize::serialize_compressed` on an
/// `ark_pallas::Fq` element: the 32 little-endian bytes of its canonical
/// value.
#[verifier::external_body]
fn fq_serialize_compressed(l: [u64; 4]) -> (r: Vec<u8>)
    requires
        limbs_val(l) < fq_modulus(),
    ensures
        r@ == le_bytes(limbs_val(l), 32),
{
    let mut v = Vec::new();
    ark_pallas::Fq::new(BigInt(l)).serialize_compressed(&mut v).unwrap();
    v
}

/// The serialisation of the first `k` scalars, one after the other.
pub open spec fn serialized(scalars: Seq<PastaFE>, k: int) -> Seq<u8>
    decreases k,
{
    if k <= 0 {
        Seq::<u8>::empty()
    } else {
        serialized(scalars, k - 1) + le_bytes(scalars[k - 1].v(), 32)
    }
}

/// The Fiat-Shamir challenge: the hash of the serialised scalars followed
/// by the domain separator, as an element of field `f`.
pub open spec fn rho_spec(domain_sep: Seq<u8>, scalars: Seq<PastaFE>, f: PastaFieldId) -> int {
    le_value(sha3_256_of(serialized(scalars, scalars.len() as int) + domain_sep)) % modulus(f)
}

/// A Fiat-Shamir challenge in field `f` from the scalars of a transcript
/// and a domain separator. The points are part of the signature only: they
/// are not hashed.
pub fn rho(domain_sep: &[u8], scalars: &[PastaFE], points: &[PastaAffine], f: PastaFieldId) -> (r: PastaFE)
    requires
        all_in_field(scalars@, f),
    ensures
        r.in_field(f),
        r.v() == rho_spec(domain_sep@, scalars@, f),
{
    let mut data: Vec<u8> = Vec::new();
    let mut i: usize = 0;
    while i < scalars.len()
        invariant
            i <= scalars@.len(),
            all_in_field(scalars@, f),
            data@ == serialized(scalars@, i as int),
        decreases scalars@.len() - i,
    {
        let x = scalars[i];
        proof {
            assert(scalars@[i as int].in_field(f));
        }
        let bytes = match f {
            PastaFieldId::Fp => fp_serialize_compressed(x.inner),
            PastaFieldId::Fq => fq_serialize_compressed(x.inner),
        };
        let ghost before = data@;
        let mut j: usize = 0;
        while j < bytes.len()
            invariant
                j <= bytes@.len(),
                data@ == before + bytes@.subrange(0, j as int),
            decreases bytes@.len() - j,
        {
            data.push(bytes[j]);
            proof {
                assert(bytes@.subrange(0, j + 1) == bytes@.subrange(0, j as int).push(bytes@[j as int]));
            }
            j = j + 1;
        }
        proof {
            assert(bytes@.subrange(0, bytes@.len() as int) == bytes@);
        }
        i = i + 1;
    }
    let ghost ser = data@;
    let mut j: usize = 0;
    while j < domain_sep.len()
        invariant
            j <= domain_sep@.len(),
            data@ == ser + domain_sep@.subrange(0, j as int),
        decreases domain_sep@.len() - j,
    {
        data.push(domain_sep[j]);
        proof {
            assert(domain_sep@.subrange(0, j + 1) == domain_sep@.subrange(0, j as int).push(domain_sep@[j as int]));
        }
        j = j + 1;
    }
    proof {
        assert(domain_sep@.subrange(0, domain_sep@.len() as int) == domain_sep@);
    }
    let hash = sha3_256(data.as_slice());
    let l = match f {
        PastaFieldId::Fp => fp_from_le_bytes_mod_order(hash),
        PastaFieldId::Fq => fq_from_le_bytes_mod_order(hash),
    };
    proof {
        crate::field::lemma_modulus_bounds(f);
        vstd::arithmetic::div_mod::lemma_mod_bound(le_value(hash@), modulus(f));
    }
    PastaFE::new(l, Some(f))
}

/// The challenge with domain separator `[0]`.
pub fn rho0(scalars: &[PastaFE], points: &[PastaAffine], f: PastaFieldId) -> (r: PastaFE)
    requires
        all_in_field(scalars@, f),
    ensures
        r.in_field(f),
        r.v() == rho_spec(seq![0u8], scalars@, f),
{
    let sep: [u8; 1] = [0];
    proof { assert(sep@ == seq![0u8]); }
    rho(sep.as_slice(), scalars, points, f)
}

/// The challenge with domain separator `[1]`.
pub fn rho1(scalars: &[PastaFE], points: &[PastaAffine], f: PastaFieldId) -> (r: PastaFE)
    requires
        all_in_field(scalars@, f),
    ensures
        r.in_field(f),
        r.v() == rho_spec(seq![1u8], scalars@, f),
{
    let sep: [u8; 1] = [1];
    proof { assert(sep@ == seq![1u8]); }
    rho(sep.as_slice(), scalars, points, f)
}

} // verus!
