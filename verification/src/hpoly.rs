//! Scalar helpers of the accumulation scheme: powers, inner products, and
//! the succinctly evaluable polynomial `h(X)` of the inner-product argument
//! together with random linear combinations of several of them.
use vstd::prelude::*;
use vstd::arithmetic::power::pow;
use vstd::arithmetic::power2::pow2;
use crate::field::{PastaFE, PastaFieldId, modulus};
use crate::constraints::{Cf, all_in_field, vals};
use crate::modular::lemma_reduced;

verus! {

/// The powers `1, z, z^2, .., z^(n-1)` of `z`, in the field of `z`.
pub fn construct_powers(z: PastaFE, n: usize) -> (zs: Vec<PastaFE>)
    requires
        z.unary_ok(),
    ensures
        zs@.len() == n,
        forall|i: int| 0 <= i < n ==> (#[trigger] zs@[i]).in_field(z.fid.unwrap()) && zs@[i].v() == pow(z.v(), i as nat)
            % modulus(z.fid.unwrap()),
{
    let ghost f = z.fid.unwrap();
    let ghost m = modulus(f);
    let fe = match z.fid {
        Some(fe) => fe,
        None => PastaFieldId::Fp,
    };
    let mut zs: Vec<PastaFE> = Vec::with_capacity(n);
    let mut current = PastaFE::one(Some(fe));
    let mut i: usize = 0;
    proof {
        crate::field::lemma_modulus_bounds(f);
        vstd::arithmetic::power::lemma_pow0(z.v());
        lemma_reduced(1, m);
    }
    while i < n
        invariant
            i <= n,
            m == modulus(f),
            m > 0,
            z.in_field(f),
            zs@.len() == i,
            current.in_field(f),
            current.v() == pow(z.v(), i as nat) % m,
            forall|k: int| 0 <= k < i ==> (#[trigger] zs@[k]).in_field(f) && zs@[k].v() == pow(z.v(), k as nat) % m,
        decreases n - i,
    {
        zs.push(current);
        proof {
            let p = pow(z.v(), i as nat);
            vstd::arithmetic::power::lemma_pow_adds(z.v(), i as nat, 1);
            vstd::arithmetic::power::lemma_pow1(z.v());
            lemma_reduced(z.v(), m);
            crate::modular::lemma_mul_cong(p, z.v(), m);
        }
        current = current.mul(z);
        i = i + 1;
    }
    zs
}

/// `sum_{i < k} xs[i] * ys[i]`.
pub open spec fn dot(xs: Seq<int>, ys: Seq<int>, k: int) -> int
    decreases k,
{
    if k <= 0 {
        0
    } else {
        dot(xs, ys, k - 1) + xs[k - 1] * ys[k - 1]
    }
}

/// The inner product of two vectors of elements of `fid`, over the pairs
/// both have.
pub fn scalar_dot(xs: &[PastaFE], ys: &[PastaFE], fid: PastaFieldId) -> (r: PastaFE)
    requires
        all_in_field(xs@, fid),
        all_in_field(ys@, fid),
    ensures
        r.in_field(fid),
        r.v() == dot(
            vals(xs@),
            vals(ys@),
            if xs@.len() < ys@.len() { xs@.len() as int } else { ys@.len() as int },
        ) % modulus(fid),
{
    let n = if xs.len() < ys.len() { xs.len() } else { ys.len() };
    let ghost m = modulus(fid);
    proof {
        crate::field::lemma_modulus_bounds(fid);
        lemma_reduced(0, m);
    }
    let mut acc = Cf::with(PastaFE::zero(Some(fid)), Ghost(0int), Ghost(fid));
    let mut i: usize = 0;
    while i < n
        invariant
            i <= n,
            n <= xs@.len() && n <= ys@.len(),
            all_in_field(xs@, fid),
            all_in_field(ys@, fid),
            acc.ok(fid),
            acc.g@ == dot(vals(xs@), vals(ys@), i as int),
        decreases n - i,
    {
        proof {
            assert(xs@[i as int].in_field(fid) && ys@[i as int].in_field(fid));
        }
        let x = Cf::lift(xs[i], Ghost(fid));
        let y = Cf::lift(ys[i], Ghost(fid));
        acc = acc.add(&x.mul(&y, Ghost(fid)), Ghost(fid));
        i = i + 1;
    }
    acc.e
}

/// The `i`-th factor `1 + xi_(lg_n - i) * z^(2^i)` of `h(z)`, where
/// `lg_n = xis.len() - 1`.
pub open spec fn h_factor(xis: Seq<int>, z: int, i: int) -> int {
    1 + xis[xis.len() - 1 - i] * pow(z, pow2(i as nat))
}

/// The product of the first `k` factors of `h(z)`.
pub open spec fn h_product(xis: Seq<int>, z: int, k: int) -> int
    decreases k,
{
    if k <= 0 {
        1
    } else {
        h_product(xis, z, k - 1) * h_factor(xis, z, k - 1)
    }
}

/// The coefficient of `X^k` in the product of the first `j` factors of
/// `h(X)`: the product of `xi_(lg_n - i)` over the bits `i < j` set in `k`
/// (`0 <= k < 2^j`).
pub open spec fn h_coeff(xis: Seq<int>, j: nat, k: int) -> int
    decreases j,
{
    if j == 0 {
        1
    } else if k < pow2((j - 1) as nat) {
        h_coeff(xis, (j - 1) as nat, k)
    } else {
        h_coeff(xis, (j - 1) as nat, k - pow2((j - 1) as nat)) * xis[xis.len() - 1 - (j - 1)]
    }
}

/// `v` without its trailing zero coefficients, the form in which a
/// polynomial's coefficients are kept (the zero polynomial has none).
pub fn trim_zeros(v: Vec<PastaFE>) -> (r: Vec<PastaFE>)
    ensures
        r@.len() <= v@.len(),
        r@ == v@.subrange(0, r@.len() as int),
        r@.len() == 0 || r@[r@.len() - 1].v() != 0,
        forall|k: int| r@.len() <= k < v@.len() ==> (#[trigger] v@[k]).v() == 0,
{
    let mut r = v;
    while r.len() > 0 && r[r.len() - 1].is_zero()
        invariant
            r@.len() <= v@.len(),
            r@ == v@.subrange(0, r@.len() as int),
            forall|k: int| r@.len() <= k < v@.len() ==> (#[trigger] v@[k]).v() == 0,
        decreases r@.len(),
    {
        r.pop();
    }
    r
}

proof fn lemma_h_coeff_zero(xis: Seq<int>, j: nat)
    ensures
        h_coeff(xis, j, 0) == 1,
    decreases j,
{
    if j > 0 {
        vstd::arithmetic::power2::lemma_pow2_pos((j - 1) as nat);
        lemma_h_coeff_zero(xis, (j - 1) as nat);
    }
}

/// `sum_{k < n} h_coeff(xis, j, k) * z^k`.
pub open spec fn coeff_eval(xis: Seq<int>, j: nat, z: int, n: int) -> int
    decreases n,
{
    if n <= 0 {
        0
    } else {
        coeff_eval(xis, j, z, n - 1) + h_coeff(xis, j, n - 1) * pow(z, (n - 1) as nat)
    }
}

proof fn lemma_coeff_eval_low(xis: Seq<int>, j: nat, z: int, n: int)
    requires
        j > 0,
        0 <= n <= pow2((j - 1) as nat),
    ensures
        coeff_eval(xis, j, z, n) == coeff_eval(xis, (j - 1) as nat, z, n),
    decreases n,
{
    if n > 0 {
        lemma_coeff_eval_low(xis, j, z, n - 1);
    }
}

proof fn lemma_coeff_eval_high(xis: Seq<int>, j: nat, z: int, n: int)
    requires
        j > 0,
        pow2((j - 1) as nat) <= n <= 2 * pow2((j - 1) as nat),
    ensures
        coeff_eval(xis, j, z, n) == coeff_eval(xis, (j - 1) as nat, z, pow2((j - 1) as nat) as int)
            + xis[xis.len() - 1 - (j - 1)] * pow(z, pow2((j - 1) as nat)) * coeff_eval(
            xis,
            (j - 1) as nat,
            z,
            n - pow2((j - 1) as nat),
        ),
    decreases n,
{
    let b = pow2((j - 1) as nat);
    let xi = xis[xis.len() - 1 - (j - 1)];
    let zb = pow(z, b);
    if n == b {
        lemma_coeff_eval_low(xis, j, z, n);
        assert(coeff_eval(xis, (j - 1) as nat, z, 0) == 0);
        assert(xi * zb * 0 == 0) by (nonlinear_arith);
    } else {
        lemma_coeff_eval_high(xis, j, z, n - 1);
        let c = h_coeff(xis, (j - 1) as nat, n - 1 - b);
        let t = n - 1 - b;
        assert(h_coeff(xis, j, n - 1) == c * xi);
        vstd::arithmetic::power::lemma_pow_adds(z, b, t as nat);
        assert(pow(z, (n - 1) as nat) == zb * pow(z, t as nat));
        let rest = coeff_eval(xis, (j - 1) as nat, z, t);
        assert(coeff_eval(xis, (j - 1) as nat, z, t + 1) == rest + c * pow(z, t as nat));
        assert(xi * zb * rest + c * xi * (zb * pow(z, t as nat)) == xi * zb * (rest + c * pow(z, t as nat)))
            by (nonlinear_arith);
    }
}

/// The coefficients that `HPoly::get_poly` returns are those of the
/// polynomial whose value `HPoly::eval` computes: evaluated at any `z`,
/// they give the product of the first `j` factors of `h(z)`.
pub proof fn lemma_h_coeffs_evaluate(xis: Seq<int>, z: int, j: nat)
    ensures
        coeff_eval(xis, j, z, pow2(j) as int) == h_product(xis, z, j as int),
    decreases j,
{
    if j == 0 {
        vstd::arithmetic::power2::lemma2_to64();
        vstd::arithmetic::power::lemma_pow0(z);
        assert(coeff_eval(xis, 0, z, 0) == 0);
        assert(coeff_eval(xis, 0, z, 1) == h_coeff(xis, 0, 0) * pow(z, 0));
    } else {
        let b = pow2((j - 1) as nat);
        vstd::arithmetic::power2::lemma_pow2_unfold(j);
        vstd::arithmetic::power2::lemma_pow2_pos((j - 1) as nat);
        lemma_h_coeffs_evaluate(xis, z, (j - 1) as nat);
        lemma_coeff_eval_high(xis, j, z, 2 * b as int);
        let s = coeff_eval(xis, (j - 1) as nat, z, b as int);
        let xz = xis[xis.len() - 1 - (j - 1)] * pow(z, b);
        assert(h_factor(xis, z, j - 1) == 1 + xz);
        assert(s + xz * s == s * (1 + xz)) by (nonlinear_arith);
    }
}

/// The polynomial `h(X) = prod_{i < lg_n} (1 + xi_(lg_n - i) X^(2^i))` of
/// the inner-product argument, given by its challenges `xi_0 .. xi_lg_n`.
#[derive(Clone)]
pub struct HPoly {
    pub xis: Vec<PastaFE>,
}

impl HPoly {
    /// The challenges are elements of field `f`, and there is at least one.
    pub open spec fn wf(&self, f: PastaFieldId) -> bool {
        self.xis@.len() >= 1 && all_in_field(self.xis@, f)
    }

    /// The polynomial with challenges `xis`.
    pub fn new(xis: Vec<PastaFE>) -> (h: Self)
        ensures
            h.xis == xis,
    {
        HPoly { xis }
    }

    /// `h(z)`, computed in `O(lg n)` field operations.
    pub fn eval(&self, z: PastaFE) -> (r: PastaFE)
        requires
            z.fid is Some,
            z.in_field(z.fid.unwrap()),
            self.wf(z.fid.unwrap()),
        ensures
            r.in_field(z.fid.unwrap()),
            r.v() == h_product(vals(self.xis@), z.v(), self.xis@.len() - 1) % modulus(z.fid.unwrap()),
    {
        let ghost f = z.fid.unwrap();
        let ghost m = modulus(f);
        let ghost xv = vals(self.xis@);
        let ghost zv = z.v();
        let fe = match z.fid {
            Some(fe) => fe,
            None => PastaFieldId::Fp,
        };
        let lg_n = self.xis.len() - 1;
        proof {
            crate::field::lemma_modulus_bounds(f);
            lemma_reduced(1, m);
            vstd::arithmetic::power2::lemma2_to64();
            vstd::arithmetic::power::lemma_pow1(zv);
            lemma_reduced(zv, m);
        }
        let one = Cf::lift(PastaFE::one(Some(fe)), Ghost(f));
        let mut v = Cf::with(PastaFE::one(Some(fe)), Ghost(1int), Ghost(f));
        let mut z_i = Cf::with(z, Ghost(pow(zv, pow2(0))), Ghost(f));
        let mut i: usize = 0;
        while i < lg_n
            invariant
                i <= lg_n,
                lg_n == self.xis@.len() - 1,
                f == fe,
                m == modulus(f),
                xv == vals(self.xis@),
                all_in_field(self.xis@, f),
                one.ok(f) && one.g@ == 1,
                v.ok(f),
                v.g@ == h_product(xv, zv, i as int),
                z_i.ok(f),
                z_i.g@ == pow(zv, pow2(i as nat)),
            decreases lg_n - i,
        {
            proof {
                assert(self.xis@[(lg_n - i) as int].in_field(f));
                assert(xv[(lg_n - i) as int] == self.xis@[(lg_n - i) as int].v());
            }
            let xi = Cf::lift(self.xis[lg_n - i], Ghost(f));
            let factor = one.add(&xi.mul(&z_i, Ghost(f)), Ghost(f));
            v = v.mul(&factor, Ghost(f));
            let ghost p = pow(zv, pow2(i as nat));
            proof {
                vstd::arithmetic::power2::lemma_pow2_unfold((i + 1) as nat);
                vstd::arithmetic::power::lemma_pow_adds(zv, pow2(i as nat), pow2(i as nat));
                assert(pow2((i + 1) as nat) == pow2(i as nat) + pow2(i as nat));
            }
            z_i = z_i.mul(&z_i, Ghost(f));
            i = i + 1;
        }
        v.e
    }

    /// The coefficients of `h(X)` in field `f`, lowest degree first, up to
    /// the last one that is not zero (at most `2^lg_n` of them).
    pub fn get_poly(&self, f: PastaFieldId) -> (r: Vec<PastaFE>)
        requires
            self.wf(f),
            pow2((self.xis@.len() - 1) as nat) <= usize::MAX,
        ensures
            1 <= r@.len() <= pow2((self.xis@.len() - 1) as nat),
            r@[r@.len() - 1].v() != 0,
            forall|k: int| 0 <= k < r@.len() ==> (#[trigger] r@[k]).in_field(f)
                && r@[k].v() == h_coeff(vals(self.xis@), (self.xis@.len() - 1) as nat, k) % modulus(f),
            forall|k: int| r@.len() <= k < pow2((self.xis@.len() - 1) as nat) ==>
                #[trigger] h_coeff(vals(self.xis@), (self.xis@.len() - 1) as nat, k) % modulus(f) == 0,
    {
        let ghost m = modulus(f);
        let ghost xv = vals(self.xis@);
        let lg_n = self.xis.len() - 1;
        proof {
            crate::field::lemma_modulus_bounds(f);
            lemma_reduced(1, m);
            vstd::arithmetic::power2::lemma2_to64();
        }
        let mut coeffs: Vec<PastaFE> = Vec::new();
        coeffs.push(PastaFE::one(Some(f)));
        let mut i: usize = 0;
        while i < lg_n
            invariant
                i <= lg_n,
                lg_n == self.xis@.len() - 1,
                m == modulus(f),
                m > 1,
                xv == vals(self.xis@),
                all_in_field(self.xis@, f),
                pow2(lg_n as nat) <= usize::MAX,
                coeffs@.len() == pow2(i as nat),
                forall|k: int| 0 <= k < coeffs@.len() ==> (#[trigger] coeffs@[k]).in_field(f)
                    && coeffs@[k].v() == h_coeff(xv, i as nat, k) % m,
            decreases lg_n - i,
        {
            proof {
                assert(self.xis@[(lg_n - i) as int].in_field(f));
                vstd::arithmetic::power2::lemma_pow2_unfold((i + 1) as nat);
                if i + 1 < lg_n {
                    vstd::arithmetic::power2::lemma_pow2_strictly_increases((i + 1) as nat, lg_n as nat);
                }
                assert forall|t: int| 0 <= t < coeffs@.len() implies (#[trigger] coeffs@[t]).in_field(f)
                    && coeffs@[t].v() == h_coeff(xv, (i + 1) as nat, t) % m by {
                    assert(h_coeff(xv, (i + 1) as nat, t) == h_coeff(xv, i as nat, t));
                }
            }
            let xi = self.xis[lg_n - i];
            let half = coeffs.len();
            let mut k: usize = 0;
            while k < half
                invariant
                    k <= half,
                    half == pow2(i as nat),
                    half + half <= usize::MAX,
                    i < lg_n,
                    lg_n == self.xis@.len() - 1,
                    m == modulus(f),
                    m > 1,
                    xv == vals(self.xis@),
                    xi == self.xis@[(lg_n - i) as int],
                    xi.in_field(f),
                    coeffs@.len() == half + k,
                    forall|t: int| 0 <= t < half + k ==> (#[trigger] coeffs@[t]).in_field(f)
                        && coeffs@[t].v() == h_coeff(xv, (i + 1) as nat, t) % m,
                decreases half - k,
            {
                let c = coeffs[k];
                let p = c.mul(xi);
                proof {
                    let prev = h_coeff(xv, i as nat, k as int);
                    assert(h_coeff(xv, (i + 1) as nat, k as int) == prev);
                    assert(h_coeff(xv, (i + 1) as nat, half + k) == prev * xv[(lg_n - i) as int]);
                    assert(xv[(lg_n - i) as int] == xi.v());
                    lemma_reduced(xi.v(), m);
                    crate::modular::lemma_mul_cong(prev, xi.v(), m);
                }
                coeffs.push(p);
                k = k + 1;
            }
            i = i + 1;
        }
        let ghost full = coeffs@;
        proof {
            vstd::arithmetic::power2::lemma_pow2_pos(lg_n as nat);
            lemma_h_coeff_zero(xv, lg_n as nat);
            assert(full[0].v() == h_coeff(xv, lg_n as nat, 0) % m);
            assert(full[0].v() == 1);
        }
        let r = trim_zeros(coeffs);
        proof {
            if r@.len() == 0 {
                assert(full[0].v() == 0);
            }
            assert forall|k: int| 0 <= k < r@.len() implies (#[trigger] r@[k]).in_field(f)
                && r@[k].v() == h_coeff(xv, lg_n as nat, k) % m by {
                assert(r@[k] == full[k]);
            }
            assert forall|k: int| r@.len() <= k < pow2(lg_n as nat) implies
                #[trigger] h_coeff(xv, lg_n as nat, k) % m == 0 by {
                assert(full[k].v() == 0);
            }
        }
        r
    }
}

/// `sum_{i < k} h_i(z) * alphas[i]`.
pub open spec fn acc_sum(hs: Seq<HPoly>, alphas: Seq<int>, z: int, k: int) -> int
    decreases k,
{
    if k <= 0 {
        0
    } else {
        acc_sum(hs, alphas, z, k - 1) + h_product(vals(hs[k - 1].xis@), z, hs[k - 1].xis@.len() - 1)
            * alphas[k - 1]
    }
}

/// `sum_{i < k} alpha^i h_i(z)`, over the integers.
pub open spec fn alpha_sum(hs: Seq<HPoly>, alpha: int, z: int, k: int) -> int
    decreases k,
{
    if k <= 0 {
        0
    } else {
        alpha_sum(hs, alpha, z, k - 1) + pow(alpha, (k - 1) as nat) * h_product(
            vals(hs[k - 1].xis@),
            z,
            hs[k - 1].xis@.len() - 1,
        )
    }
}

/// Once the coefficients are the powers of `alpha`, as `set_alpha` makes
/// them, the combination that `eval` computes is `sum_i alpha^i h_i(z)`
/// modulo the field's modulus.
pub proof fn lemma_accumulated_eval(hs: Seq<HPoly>, alphas: Seq<PastaFE>, alpha: int, z: int, m: int, k: int)
    requires
        m > 0,
        0 <= k <= hs.len(),
        k <= alphas.len(),
        forall|i: int| 0 <= i < k ==> (#[trigger] alphas[i]).v() == pow(alpha, i as nat) % m,
    ensures
        acc_sum(hs, vals(alphas), z, k) % m == alpha_sum(hs, alpha, z, k) % m,
    decreases k,
{
    if k > 0 {
        lemma_accumulated_eval(hs, alphas, alpha, z, m, k - 1);
        let a = acc_sum(hs, vals(alphas), z, k - 1);
        let b = alpha_sum(hs, alpha, z, k - 1);
        let h = h_product(vals(hs[k - 1].xis@), z, hs[k - 1].xis@.len() - 1);
        let p = pow(alpha, (k - 1) as nat);
        assert(vals(alphas)[k - 1] == p % m);
        crate::modular::lemma_add_cong(a, h * (p % m), m);
        crate::modular::lemma_add_cong(b, p * h, m);
        crate::modular::lemma_mul_cong(h, p % m, m);
        crate::modular::lemma_mul_cong(h, p, m);
        crate::modular::lemma_mod_idem(p, m);
        assert(p * h == h * p) by (nonlinear_arith);
        assert(acc_sum(hs, vals(alphas), z, k) == a + h * (p % m));
        assert(alpha_sum(hs, alpha, z, k) == b + p * h);
    }
}

/// Coefficient `k` of `h(X)`, zero above its degree.
pub open spec fn hpoly_coeff(h: HPoly, k: int) -> int {
    let lg = (h.xis@.len() - 1) as nat;
    if 0 <= k < pow2(lg) {
        h_coeff(vals(h.xis@), lg, k)
    } else {
        0
    }
}

/// Coefficient `k` of `sum_{i < n} alphas[i] * h_i(X)`.
pub open spec fn acc_coeff(hs: Seq<HPoly>, alphas: Seq<int>, k: int, n: int) -> int
    decreases n,
{
    if n <= 0 {
        0
    } else {
        acc_coeff(hs, alphas, k, n - 1) + alphas[n - 1] * hpoly_coeff(hs[n - 1], k)
    }
}

/// A random linear combination `sum_i alpha^i h_i(X)` of h-polynomials.
#[derive(Clone)]
pub struct AccumulatedHPolys {
    pub hs: Vec<HPoly>,
    pub alpha: Option<PastaFE>,
    pub alphas: Vec<PastaFE>,
    /// How many polynomials the combination was made for; `set_alpha`
    /// computes that many powers.
    pub capacity: usize,
}

impl AccumulatedHPolys {
    /// An empty combination for `capacity` polynomials, with no challenge yet.
    pub fn with_capacity(capacity: usize) -> (a: Self)
        ensures
            a.hs@.len() == 0,
            a.alpha is None,
            a.alphas@.len() == 0,
            a.capacity == capacity,
    {
        AccumulatedHPolys { hs: Vec::with_capacity(capacity), alpha: None, alphas: Vec::with_capacity(capacity), capacity }
    }

    /// Sets the challenge `alpha` and its powers `1, alpha, .., alpha^(capacity-1)`.
    pub fn set_alpha(&mut self, alpha: PastaFE)
        requires
            alpha.unary_ok(),
        ensures
            final(self).alpha == Some(alpha),
            final(self).hs == old(self).hs,
            final(self).capacity == old(self).capacity,
            final(self).alphas@.len() == old(self).capacity,
            forall|i: int| 0 <= i < old(self).capacity ==> (#[trigger] final(self).alphas@[i]).in_field(alpha.fid.unwrap())
                && final(self).alphas@[i].v() == pow(alpha.v(), i as nat) % modulus(alpha.fid.unwrap()),
    {
        self.alphas = construct_powers(alpha, self.capacity);
        self.alpha = Some(alpha);
    }

    /// `sum_i h_i(z) * alphas[i]`, in the field of `z`.
    pub fn eval(&self, z: PastaFE) -> (r: PastaFE)
        requires
            z.fid is Some,
            z.in_field(z.fid.unwrap()),
            self.alphas@.len() >= self.hs@.len(),
            all_in_field(self.alphas@, z.fid.unwrap()),
            forall|i: int| 0 <= i < self.hs@.len() ==> (#[trigger] self.hs@[i]).wf(z.fid.unwrap()),
        ensures
            r.in_field(z.fid.unwrap()),
            r.v() == acc_sum(self.hs@, vals(self.alphas@), z.v(), self.hs@.len() as int) % modulus(z.fid.unwrap()),
    {
        let ghost f = z.fid.unwrap();
        let fe = match z.fid {
            Some(fe) => fe,
            None => PastaFieldId::Fp,
        };
        proof {
            crate::field::lemma_modulus_bounds(f);
            lemma_reduced(0, modulus(f));
        }
        let mut v = Cf::with(PastaFE::zero(Some(fe)), Ghost(0int), Ghost(f));
        let mut i: usize = 0;
        while i < self.hs.len()
            invariant
                i <= self.hs@.len(),
                f == fe,
                z.in_field(f),
                self.alphas@.len() >= self.hs@.len(),
                all_in_field(self.alphas@, f),
                forall|j: int| 0 <= j < self.hs@.len() ==> (#[trigger] self.hs@[j]).wf(f),
                v.ok(f),
                v.g@ == acc_sum(self.hs@, vals(self.alphas@), z.v(), i as int),
            decreases self.hs@.len() - i,
        {
            proof {
                assert(self.hs@[i as int].wf(f));
                assert(self.alphas@[i as int].in_field(f));
            }
            let h = &self.hs[i];
            let hv = h.eval(z);
            let hz = Cf::with(hv, Ghost(h_product(vals(h.xis@), z.v(), h.xis@.len() - 1)), Ghost(f));
            let a = Cf::lift(self.alphas[i], Ghost(f));
            v = v.add(&hz.mul(&a, Ghost(f)), Ghost(f));
            i = i + 1;
        }
        v.e
    }

    /// The coefficients of `sum_i alphas[i] * h_i(X)` in field `f`, lowest
    /// degree first, up to the last one that is not zero.
    pub fn get_poly(&self, f: PastaFieldId) -> (r: Vec<PastaFE>)
        requires
            self.alphas@.len() >= self.hs@.len(),
            all_in_field(self.alphas@, f),
            forall|i: int| 0 <= i < self.hs@.len() ==> (#[trigger] self.hs@[i]).wf(f)
                && pow2((self.hs@[i].xis@.len() - 1) as nat) <= usize::MAX,
        ensures
            r@.len() == 0 || r@[r@.len() - 1].v() != 0,
            forall|k: int| 0 <= k < r@.len() ==> (#[trigger] r@[k]).in_field(f)
                && r@[k].v() == acc_coeff(self.hs@, vals(self.alphas@), k, self.hs@.len() as int) % modulus(f),
            forall|k: int| k >= r@.len() ==> #[trigger] acc_coeff(self.hs@, vals(self.alphas@), k, self.hs@.len() as int)
                % modulus(f) == 0,
    {
        let ghost m = modulus(f);
        let ghost av = vals(self.alphas@);
        let ghost hs = self.hs@;
        let ghost nh = self.hs@.len() as int;
        proof {
            crate::field::lemma_modulus_bounds(f);
            lemma_reduced(0, m);
        }
        let mut acc: Vec<PastaFE> = Vec::new();
        let mut i: usize = 0;
        while i < self.hs.len()
            invariant
                i <= self.hs@.len(),
                hs == self.hs@,
                nh == hs.len(),
                av == vals(self.alphas@),
                m == modulus(f),
                m > 1,
                self.alphas@.len() >= self.hs@.len(),
                all_in_field(self.alphas@, f),
                forall|t: int| 0 <= t < self.hs@.len() ==> (#[trigger] self.hs@[t]).wf(f)
                    && pow2((self.hs@[t].xis@.len() - 1) as nat) <= usize::MAX,
                forall|t: int| 0 <= t < acc@.len() ==> (#[trigger] acc@[t]).in_field(f)
                    && acc@[t].v() == acc_coeff(hs, av, t, i as int) % m,
                forall|t: int| t >= acc@.len() ==> #[trigger] acc_coeff(hs, av, t, i as int) % m == 0,
            decreases self.hs@.len() - i,
        {
            proof {
                assert(self.hs@[i as int].wf(f));
                assert(self.alphas@[i as int].in_field(f));
            }
            let c = self.hs[i].get_poly(f);
            let a = self.alphas[i];
            let ghost h = hs[i as int];
            let ghost lg = (h.xis@.len() - 1) as nat;
            while acc.len() < c.len()
                invariant
                    forall|t: int| 0 <= t < acc@.len() ==> (#[trigger] acc@[t]).in_field(f)
                        && acc@[t].v() == acc_coeff(hs, av, t, i as int) % m,
                    forall|t: int| t >= acc@.len() ==> #[trigger] acc_coeff(hs, av, t, i as int) % m == 0,
                decreases c@.len() - acc@.len(),
            {
                proof {
                    assert(acc_coeff(hs, av, acc@.len() as int, i as int) % m == 0);
                }
                acc.push(PastaFE::zero(Some(f)));
            }
            let len = acc.len();
            let ghost before = acc@;
            let mut k: usize = 0;
            while k < c.len()
                invariant
                    k <= c@.len(),
                    c@.len() <= len,
                    h == hs[i as int],
                    i < nh,
                    nh == hs.len(),
                    lg == (h.xis@.len() - 1) as nat,
                    a == self.alphas@[i as int],
                    a.in_field(f),
                    self.alphas@.len() >= self.hs@.len(),
                    hs == self.hs@,
                    av == vals(self.alphas@),
                    m == modulus(f),
                    m > 1,
                    forall|t: int| 0 <= t < c@.len() ==> (#[trigger] c@[t]).in_field(f)
                        && c@[t].v() == h_coeff(vals(h.xis@), lg, t) % m,
                    c@.len() <= pow2(lg),
                    acc@.len() == len,
                    before.len() == len,
                    forall|t: int| 0 <= t < len ==> (#[trigger] before[t]).in_field(f)
                        && before[t].v() == acc_coeff(hs, av, t, i as int) % m,
                    forall|t: int| 0 <= t < k ==> (#[trigger] acc@[t]).in_field(f)
                        && acc@[t].v() == acc_coeff(hs, av, t, i + 1) % m,
                    forall|t: int| k <= t < len ==> #[trigger] acc@[t] == before[t],
                decreases c@.len() - k,
            {
                let ghost x = acc_coeff(hs, av, k as int, i as int);
                let ghost hc = h_coeff(vals(h.xis@), lg, k as int);
                let p = a.mul(c[k]);
                let s = acc[k].add(p);
                proof {
                    assert(acc@[k as int] == before[k as int]);
                    assert(hpoly_coeff(h, k as int) == hc);
                    assert(av[i as int] == a.v());
                    assert(acc_coeff(hs, av, k as int, i + 1) == x + a.v() * hc);
                    lemma_reduced(a.v(), m);
                    crate::modular::lemma_mul_cong(a.v(), hc, m);
                    crate::modular::lemma_mod_idem(x, m);
                    crate::modular::lemma_mod_idem(a.v() * hc, m);
                    crate::modular::lemma_add_cong(x, a.v() * hc, m);
                }
                acc.set(k, s);
                k = k + 1;
            }
            proof {
                assert forall|t: int| t >= c@.len() implies (#[trigger] acc_coeff(hs, av, t, i + 1)) % m
                    == acc_coeff(hs, av, t, i as int) % m by {
                    let x = acc_coeff(hs, av, t, i as int);
                    assert(av[i as int] == a.v());
                    let hc = hpoly_coeff(h, t);
                    assert(hc % m == 0);
                    assert(acc_coeff(hs, av, t, i + 1) == x + a.v() * hc);
                    crate::modular::lemma_mul_cong(a.v(), hc, m);
                    lemma_reduced(0, m);
                    assert((a.v() % m) * 0 == 0) by (nonlinear_arith);
                    crate::modular::lemma_add_cong(x, a.v() * hc, m);
                    crate::modular::lemma_mod_idem(x, m);
                    crate::modular::lemma_add_cong(x, 0, m);
                }
                assert forall|t: int| 0 <= t < len implies (#[trigger] acc@[t]).in_field(f)
                    && acc@[t].v() == acc_coeff(hs, av, t, i + 1) % m by {
                    if t >= c@.len() {
                        assert(acc@[t] == before[t]);
                        assert(acc_coeff(hs, av, t, i + 1) % m == acc_coeff(hs, av, t, i as int) % m);
                    }
                }
                assert forall|t: int| t >= acc@.len() implies #[trigger] acc_coeff(hs, av, t, i + 1) % m == 0 by {
                    assert(acc_coeff(hs, av, t, i + 1) % m == acc_coeff(hs, av, t, i as int) % m);
                }
            }
            i = i + 1;
        }
        let ghost full = acc@;
        let r = trim_zeros(acc);
        proof {
            assert forall|k: int| 0 <= k < r@.len() implies (#[trigger] r@[k]).in_field(f)
                && r@[k].v() == acc_coeff(hs, av, k, nh) % m by {
                assert(r@[k] == full[k]);
            }
            assert forall|k: int| k >= r@.len() implies #[trigger] acc_coeff(hs, av, k, nh) % m == 0 by {
                if k < full.len() {
                    assert(full[k].v() == 0);
                }
            }
        }
        r
    }

    /// All challenges of all the polynomials in order, then `alpha` if set.
    pub fn get_scalars(&self) -> (r: Vec<PastaFE>)
        ensures
            r@ == self.hs@.map_values(|h: HPoly| h.xis@).flatten() + match self.alpha {
                Some(a) => seq![a],
                None => Seq::<PastaFE>::empty(),
            },
    {
        let mut out: Vec<PastaFE> = Vec::new();
        let mut i: usize = 0;
        while i < self.hs.len()
            invariant
                i <= self.hs@.len(),
                out@ == self.hs@.subrange(0, i as int).map_values(|h: HPoly| h.xis@).flatten(),
            decreases self.hs@.len() - i,
        {
            let xs = &self.hs[i].xis;
            let ghost before = out@;
            let mut j: usize = 0;
            while j < xs.len()
                invariant
                    j <= xs@.len(),
                    out@ == before + xs@.subrange(0, j as int),
                decreases xs@.len() - j,
            {
                out.push(xs[j]);
                proof {
                    assert(xs@.subrange(0, j + 1) == xs@.subrange(0, j as int).push(xs@[j as int]));
                }
                j = j + 1;
            }
            proof {
                assert(xs@.subrange(0, xs@.len() as int) == xs@);
                let s0 = self.hs@.subrange(0, i as int);
                let s1 = self.hs@.subrange(0, i + 1);
                assert(s1 == s0.push(self.hs@[i as int]));
                assert(s1.map_values(|h: HPoly| h.xis@) == s0.map_values(|h: HPoly| h.xis@).push(xs@));
                s0.map_values(|h: HPoly| h.xis@).lemma_flatten_push(xs@);
            }
            i = i + 1;
        }
        proof {
            assert(self.hs@.subrange(0, self.hs@.len() as int) == self.hs@);
        }
        match self.alpha {
            Some(a) => {
                let ghost before = out@;
                out.push(a);
                proof { assert(out@ == before + seq![a]); }
            },
            None => {
                proof { assert(out@ == out@ + Seq::<PastaFE>::empty()); }
            },
        }
        out
    }
}

} // verus!
