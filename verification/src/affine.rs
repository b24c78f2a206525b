//! Affine points of the Pasta curves `y^2 = x^3 + 5`, with coordinates held
//! as `PastaFE`s. The point at infinity is written `(0, 0)`; no point of
//! either curve has `x = 0`. Points with coordinates in `Fp` are Vesta
//! points and points with coordinates in `Fq` are Pallas points; their sum
//! is computed by `ark_ec`.
use vstd::prelude::*;
use crate::field::{finv, PastaFE, PastaFieldId, limbs_val, modulus, fp_modulus, fq_modulus, op_fid};

use ark_ec::{AffineRepr, CurveGroup};
use ark_ff::{BigInt, PrimeField};

verus! {

/// `a / b` modulo `m`.
pub open spec fn fdiv(a: int, b: int, m: int) -> int {
    (a * finv(b, m)) % m
}

/// `(x, y)` lies on `y^2 = x^3 + 5` modulo `m`.
pub open spec fn on_curve(x: int, y: int, m: int) -> bool {
    (y * y) % m == (x * x * x + 5) % m
}

/// An affine point or the point at infinity (`None`), with canonical
/// coordinates on the curve modulo `m`.
pub open spec fn valid_point(p: Option<(int, int)>, m: int) -> bool {
    match p {
        None => true,
        Some((x, y)) => 0 <= x < m && 0 <= y < m && on_curve(x, y, m),
    }
}

/// The chord-and-tangent sum of two points of `y^2 = x^3 + 5` modulo `m`.
pub open spec fn curve_add(p: Option<(int, int)>, q: Option<(int, int)>, m: int) -> Option<(int, int)> {
    match (p, q) {
        (None, _) => q,
        (_, None) => p,
        (Some((x1, y1)), Some((x2, y2))) => {
            if x1 == x2 && (y1 + y2) % m == 0 {
                None
            } else {
                let l = if x1 == x2 {
                    fdiv(3 * x1 * x1, 2 * y1, m)
                } else {
                    fdiv(y2 - y1, x2 - x1, m)
                };
                let x3 = (l * l - x1 - x2) % m;
                let y3 = (l * (x1 - x3) - y1) % m;
                Some((x3, y3))
            }
        },
    }
}

/// `[k] g` on `y^2 = x^3 + 5` modulo `m`: `g` added `k` times to the
/// identity.
pub open spec fn curve_mul(k: nat, g: Option<(int, int)>, m: int) -> Option<(int, int)>
    decreases k,
{
    if k == 0 {
        None
    } else {
        curve_add(curve_mul((k - 1) as nat, g, m), g, m)
    }
}

/// The integer coordinates of a pair of limb arrays.
pub open spec fn limb_point(p: Option<([u64; 4], [u64; 4])>) -> Option<(int, int)> {
    match p {
        None => None,
        Some((x, y)) => Some((limbs_val(x), limbs_val(y))),
    }
}

/// The sum of two Vesta points (`ark_vesta::Affine`, coordinates in Fp),
/// computed in projective form and normalised back to affine form.
#[verifier::external_body]
fn vesta_add_points(p: Option<([u64; 4], [u64; 4])>, q: Option<([u64; 4], [u64; 4])>) -> (r: Option<
    ([u64; 4], [u64; 4]),
>)
    requires
        valid_point(limb_point(p), fp_modulus()),
        valid_point(limb_point(q), fp_modulus()),
    ensures
        limb_point(r) == curve_add(limb_point(p), limb_point(q), fp_modulus()),
        valid_point(limb_point(r), fp_modulus()),
{
    let a = match p {
        Some((x, y)) => ark_vesta::Affine::new(ark_vesta::Fq::new(BigInt(x)), ark_vesta::Fq::new(BigInt(y))),
        None => ark_vesta::Affine::identity(),
    };
    let b = match q {
        Some((x, y)) => ark_vesta::Affine::new(ark_vesta::Fq::new(BigInt(x)), ark_vesta::Fq::new(BigInt(y))),
        None => ark_vesta::Affine::identity(),
    };
    match (a + b).into_affine().xy() {
        Some((x, y)) => Some((x.into_bigint().0, y.into_bigint().0)),
        None => None,
    }
}

/// The sum of two Pallas points (`ark_pallas::Affine`, coordinates in Fq),
/// computed in projective form and normalised back to affine form.
#[verifier::external_body]
fn pallas_add_points(p: Option<([u64; 4], [u64; 4])>, q: Option<([u64; 4], [u64; 4])>) -> (r: Option<
    ([u64; 4], [u64; 4]),
>)
    requires
        valid_point(limb_point(p), fq_modulus()),
        valid_point(limb_point(q), fq_modulus()),
    ensures
        limb_point(r) == curve_add(limb_point(p), limb_point(q), fq_modulus()),
        valid_point(limb_point(r), fq_modulus()),
{
    let a = match p {
        Some((x, y)) => ark_pallas::Affine::new(ark_pallas::Fq::new(BigInt(x)), ark_pallas::Fq::new(BigInt(y))),
        None => ark_pallas::Affine::identity(),
    };
    let b = match q {
        Some((x, y)) => ark_pallas::Affine::new(ark_pallas::Fq::new(BigInt(x)), ark_pallas::Fq::new(BigInt(y))),
        None => ark_pallas::Affine::identity(),
    };
    match (a + b).into_affine().xy() {
        Some((x, y)) => Some((x.into_bigint().0, y.into_bigint().0)),
        None => None,
    }
}

/// The field tag of a point built from coordinates tagged `a` and `b`.
pub open spec fn merge_fid(a: Option<PastaFieldId>, b: Option<PastaFieldId>) -> Option<PastaFieldId> {
    if a is Some {
        a
    } else {
        b
    }
}

/// An affine point with `PastaFE` coordinates; `(0, 0)` is the identity.
#[derive(Clone, Copy)]
pub struct PastaAffine {
    pub x: PastaFE,
    pub y: PastaFE,
    pub fid: Option<PastaFieldId>,
}

impl PastaAffine {
    /// The point as an optional pair of integers: `None` when `x` is zero.
    pub open spec fn point(self) -> Option<(int, int)> {
        if self.x.v() == 0 && !self.x.is_neg_one {
            None
        } else {
            Some((self.x.v(), self.y.v()))
        }
    }

    /// The point can be handed to curve arithmetic in field `f`.
    pub open spec fn usable_in(self, f: PastaFieldId) -> bool {
        &&& self.x.fits(f)
        &&& self.y.fits(f)
        &&& valid_point(self.point(), modulus(f))
    }

    /// A point from two coordinates; coordinates tagged with two different
    /// fields are refused.
    pub fn new(x: PastaFE, y: PastaFE) -> (r: Self)
        requires
            !(x.fid is Some && y.fid is Some && x.fid != y.fid),
        ensures
            r.x == x,
            r.y == y,
            r.fid == merge_fid(x.fid, y.fid),
    {
        let fid = match (x.fid, y.fid) {
            (Some(x_fid), _) => Some(x_fid),
            (None, Some(y_fid)) => Some(y_fid),
            (None, None) => None,
        };
        Self { x, y, fid }
    }

    /// The identity `(0, 0)` tagged with `fid`.
    pub fn identity(fid: Option<PastaFieldId>) -> (r: Self)
        ensures
            r.x.v() == 0 && r.y.v() == 0,
            !r.x.is_neg_one && !r.y.is_neg_one,
            r.x.fid == fid && r.y.fid == fid,
            r.fid == fid,
            r.point() is None,
    {
        Self::new(PastaFE::zero(fid), PastaFE::zero(fid))
    }

    /// The point with its `y` coordinate negated.
    pub fn neg(self) -> (r: Self)
        requires
            self.y.unary_ok(),
            !(self.x.fid is Some && self.x.fid != self.y.fid),
        ensures
            r.x == self.x,
            r.y.in_field(self.y.fid.unwrap()),
            r.y.v() == (0 - self.y.v()) % modulus(self.y.fid.unwrap()),
            r.fid == merge_fid(self.x.fid, self.y.fid),
    {
        Self::new(self.x, self.y.neg())
    }

    fn limbs_point(&self) -> (r: Option<([u64; 4], [u64; 4])>)
        requires
            !self.x.is_neg_one,
        ensures
            limb_point(r) == self.point(),
    {
        if self.x.is_zero() {
            None
        } else {
            Some((self.x.inner, self.y.inner))
        }
    }

    fn from_limbs_point(r: Option<([u64; 4], [u64; 4])>, fid: PastaFieldId) -> (s: Self)
        requires
            valid_point(limb_point(r), modulus(fid)),
        ensures
            s.usable_in(fid),
            s.fid == Some(fid),
            s.x.in_field(fid),
            s.y.in_field(fid),
            limb_point(r) matches Some((x, y)) ==> s.x.v() == x && s.y.v() == y,
            r is None ==> s.x.v() == 0 && s.y.v() == 0,
    {
        proof { crate::field::lemma_modulus_bounds(fid); }
        match r {
            Some((x, y)) => Self::new(PastaFE::new(x, Some(fid)), PastaFE::new(y, Some(fid))),
            None => Self::identity(Some(fid)),
        }
    }

    /// The sum of two points, on Vesta when the field is `Fp` and on Pallas
    /// when it is `Fq` (the field chosen as for `PastaFE` operations).
    pub fn add(self, other: Self) -> (r: Self)
        requires
            op_fid(self.fid, other.fid) is Some,
            self.usable_in(op_fid(self.fid, other.fid).unwrap()),
            other.usable_in(op_fid(self.fid, other.fid).unwrap()),
        ensures
            ({
                let f = op_fid(self.fid, other.fid).unwrap();
                let s = curve_add(self.point(), other.point(), modulus(f));
                &&& r.fid == Some(f)
                &&& r.x.in_field(f)
                &&& r.y.in_field(f)
                &&& s matches Some((x, y)) ==> r.x.v() == x && r.y.v() == y
                &&& s is None ==> r.x.v() == 0 && r.y.v() == 0
                &&& r.usable_in(f)
            }),
    {
        let p = self.limbs_point();
        let q = other.limbs_point();
        if self.fid == Some(PastaFieldId::Fp) || other.fid == Some(PastaFieldId::Fp) {
            let r = vesta_add_points(p, q);
            Self::from_limbs_point(r, PastaFieldId::Fp)
        } else {
            let r = pallas_add_points(p, q);
            Self::from_limbs_point(r, PastaFieldId::Fq)
        }
    }
}


impl PastaAffine {
    /// Whether the point lies on the curve of field `f`; the identity does.
    pub fn check_on_curve(&self, f: PastaFieldId) -> (b: bool)
        requires
            self.x.fits(f),
            self.y.fits(f),
        ensures
            b == valid_point(self.point(), modulus(f)),
    {
        if self.x.is_zero() {
            return true;
        }
        let ghost m = modulus(f);
        let ghost (x, y) = (self.x.v(), self.y.v());
        let xf = PastaFE::new(self.x.inner, Some(f));
        let yf = PastaFE::new(self.y.inner, Some(f));
        let lhs = yf.mul(yf);
        let x3 = xf.mul(xf).mul(xf);
        let rhs = x3.add(PastaFE::from_u64(5, Some(f)));
        let b = lhs.eq(&rhs);
        proof {
            crate::field::lemma_modulus_bounds(f);
            crate::modular::lemma_mul_cong(x * x, x, m);
            crate::modular::lemma_reduced(x, m);
            crate::modular::lemma_reduced(5, m);
            crate::modular::lemma_add_cong(x * x * x, 5, m);
            crate::modular::lemma_mod_idem(x * x * x, m);
            if lhs.v() == rhs.v() {
                crate::field::lemma_limbs_injective(lhs.inner, rhs.inner);
            }
        }
        b
    }
}

} // verus!
