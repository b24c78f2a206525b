//! The PLONK gate constraints of the circuit, evaluated at a single point:
//! the value of each custom-gate polynomial at given wire values, and the
//! helpers with which the verifier recombines evaluations.
use vstd::prelude::*;
use vstd::arithmetic::power::{pow, lemma_pow0, lemma_pow1, lemma_pow_adds};
use vstd::arithmetic::power2::{pow2, lemma_pow2_unfold};
use crate::field::{PastaFE, PastaFieldId, modulus, fquot};
use crate::modular::{lemma_add_cong, lemma_sub_cong, lemma_mul_cong, lemma_reduced};

verus! {

/// How many split polynomials make up the quotient polynomial `t`.
pub const T_POLYS: usize = 16;
/// How many witness polynomials the PLONK trace has.
pub const W_POLYS: usize = 16;
/// How many round-coefficient polynomials the PLONK trace has.
pub const R_POLYS: usize = 15;
/// How many selector polynomials the PLONK trace has.
pub const Q_POLYS: usize = 9;
/// How many copy-constraint polynomials the PLONK trace has.
pub const S_POLYS: usize = 8;

/// Every element of `s` is a canonical element of field `f`.
pub open spec fn all_in_field(s: Seq<PastaFE>, f: PastaFieldId) -> bool {
    forall|i: int| 0 <= i < s.len() ==> #[trigger] s[i].in_field(f)
}

/// The integer values of a sequence of field elements.
pub open spec fn vals(s: Seq<PastaFE>) -> Seq<int> {
    s.map_values(|e: PastaFE| e.v())
}

/// `sum_{i < n} x^i * s[i]`.
pub open spec fn weighted_sum(s: Seq<int>, x: int, n: int) -> int
    decreases n,
{
    if n <= 0 {
        0
    } else {
        weighted_sum(s, x, n - 1) + pow(x, (n - 1) as nat) * s[n - 1]
    }
}

proof fn lemma_pow_step(x: int, i: nat)
    ensures
        pow(x, i + 1) == pow(x, i) * x,
{
    reveal(pow);
    assert(pow(x, (i + 1) as nat) == x * pow(x, i));
    vstd::arithmetic::mul::lemma_mul_is_commutative(x, pow(x, i));
}

/// `sum_i x^i * s[i]` over the elements of `s`, in the field of `x`; the
/// loop behind both `t_reconstruct_generic` and `geometric_generic`.
fn weighted(s: &[PastaFE], x: PastaFE) -> (r: PastaFE)
    requires
        s.len() >= 1,
        x.fid is Some,
        x.in_field(x.fid.unwrap()),
        all_in_field(s@, x.fid.unwrap()),
    ensures
        r.in_field(x.fid.unwrap()),
        r.v() == weighted_sum(vals(s@), x.v(), s.len() as int) % modulus(x.fid.unwrap()),
{
    let ghost f = x.fid.unwrap();
    let ghost m = modulus(f);
    let ghost sv = vals(s@);
    proof {
        crate::field::lemma_modulus_bounds(f);
        lemma_pow0(x.v());
        lemma_pow1(x.v());
        assert(s@[0].in_field(f));
        lemma_reduced(s@[0].v(), m);
        lemma_reduced(x.v(), m);
        assert(sv[0] == s@[0].v());
        reveal_with_fuel(weighted_sum, 2);
        assert(weighted_sum(sv, x.v(), 1) == s@[0].v());
    }
    let mut result = s[0];
    let mut acc = x;
    let mut i: usize = 1;
    while i < s.len()
        invariant
            1 <= i <= s.len(),
            m == modulus(f),
            m > 0,
            sv == vals(s@),
            x.in_field(f),
            all_in_field(s@, f),
            result.in_field(f),
            acc.in_field(f),
            result.v() == weighted_sum(sv, x.v(), i as int) % m,
            acc.v() == pow(x.v(), i as nat) % m,
        decreases s.len() - i,
    {
        let t = s[i];
        let ghost w = weighted_sum(sv, x.v(), i as int);
        let ghost p = pow(x.v(), i as nat);
        proof {
            assert(s@[i as int].in_field(f));
            lemma_reduced(t.v(), m);
            lemma_reduced(x.v(), m);
            lemma_pow_step(x.v(), i as nat);
            assert(sv[i as int] == t.v());
            lemma_mul_cong(p, t.v(), m);
            lemma_add_cong(w, p * t.v(), m);
            lemma_mul_cong(p, x.v(), m);
        }
        result = result.add(acc.mul(t));
        acc = acc.mul(x);
        i = i + 1;
    }
    result
}

/// The quotient polynomial recombined from its split parts at a challenge:
/// `sum_i ts[i] * challenge_pow_n^i`.
pub fn t_reconstruct_generic(ts: [PastaFE; 16], challenge_pow_n: PastaFE) -> (r: PastaFE)
    requires
        challenge_pow_n.fid is Some,
        challenge_pow_n.in_field(challenge_pow_n.fid.unwrap()),
        all_in_field(ts@, challenge_pow_n.fid.unwrap()),
    ensures
        r.in_field(challenge_pow_n.fid.unwrap()),
        r.v() == weighted_sum(vals(ts@), challenge_pow_n.v(), 16) % modulus(challenge_pow_n.fid.unwrap()),
{
    weighted(ts.as_slice(), challenge_pow_n)
}

/// The geometric combination `sum_i vec[i] * x^i` of a nonempty vector.
pub fn geometric_generic(x: PastaFE, vec: Vec<PastaFE>) -> (r: PastaFE)
    requires
        vec.len() >= 1,
        x.fid is Some,
        x.in_field(x.fid.unwrap()),
        all_in_field(vec@, x.fid.unwrap()),
    ensures
        r.in_field(x.fid.unwrap()),
        r.v() == weighted_sum(vals(vec@), x.v(), vec.len() as int) % modulus(x.fid.unwrap()),
{
    weighted(vec.as_slice(), x)
}

/// `floor(log2(n))` for a positive `n` (and 0 for `n < 2`).
pub open spec fn ilog2(n: nat) -> nat
    decreases n,
{
    if n < 2 {
        0
    } else {
        1 + ilog2(n / 2)
    }
}

/// `floor(log2(2^k)) == k`: on a power of two, `pow_n` computes `x^n`.
pub proof fn lemma_ilog2_pow2(k: nat)
    ensures
        ilog2(pow2(k)) == k,
    decreases k,
{
    vstd::arithmetic::power2::lemma2_to64();
    if k > 0 {
        vstd::arithmetic::power2::lemma_pow2_unfold(k);
        vstd::arithmetic::power2::lemma_pow2_pos((k - 1) as nat);
        lemma_ilog2_pow2((k - 1) as nat);
        assert(pow2(k) / 2 == pow2((k - 1) as nat));
    }
}

/// `x` raised to the largest power of two not above `n`: `x` is squared
/// `floor(log2(n))` times. For the power-of-two domain sizes it is used
/// with, that is `x^n`.
pub fn pow_n(x: PastaFE, n: usize) -> (r: PastaFE)
    requires
        n >= 1,
        x.unary_ok(),
    ensures
        r.in_field(x.fid.unwrap()),
        r.v() == pow(x.v(), pow2(ilog2(n as nat))) % modulus(x.fid.unwrap()),
{
    let ghost f = x.fid.unwrap();
    let ghost m = modulus(f);
    let ghost x0 = x.v();
    let mut acc = PastaFE::new(x.inner, x.fid);
    let mut i: usize = n;
    let ghost mut k: nat = 0;
    proof {
        crate::field::lemma_modulus_bounds(f);
        lemma_pow1(x0);
        vstd::arithmetic::power2::lemma2_to64();
        lemma_reduced(x0, m);
    }
    while i >= 2
        invariant
            1 <= i <= n,
            m == modulus(f),
            m > 0,
            acc.in_field(f),
            acc.v() == pow(x0, pow2(k)) % m,
            ilog2(n as nat) == k + ilog2(i as nat),
        decreases i,
    {
        let ghost p = pow(x0, pow2(k));
        proof {
            lemma_mul_cong(p, p, m);
            lemma_pow_adds(x0, pow2(k), pow2(k));
            lemma_pow2_unfold(k + 1);
            assert(pow2((k + 1) as nat) == pow2(k) + pow2(k));
        }
        acc = acc.mul(acc);
        i = i / 2;
        proof {
            k = k + 1;
        }
    }
    acc
}

/// `omega^(j+1)`, reduced modulo `m`: the point at which the `j`-th public
/// input sits.
pub open spec fn pi_point(omega: int, j: int, m: int) -> int {
    pow(omega, (j + 1) as nat) % m
}

/// The `j`-th Lagrange basis value `(xi^n - 1) * w_j / (n * (xi - w_j))`
/// with `w_j = omega^(j+1)`, computed modulo `m`.
pub open spec fn pi_lagrange(n: int, omega: int, xi: int, xi_n: int, j: int, m: int) -> int {
    fquot(
        ((xi_n - 1) * pi_point(omega, j, m)) % m,
        (n * (xi - pi_point(omega, j, m))) % m,
        m,
    )
}

/// `sum_{j < k} L_j(xi) * (-pis[j])` modulo `m`, the public-input
/// polynomial evaluated at `xi`.
pub open spec fn pi_eval(pis: Seq<int>, n: int, omega: int, xi: int, xi_n: int, m: int, k: int) -> int
    decreases k,
{
    if k <= 0 {
        0
    } else {
        (pi_eval(pis, n, omega, xi, xi_n, m, k - 1) + (pi_lagrange(n, omega, xi, xi_n, k - 1, m)
            * ((0 - pis[k - 1]) % m)) % m) % m
    }
}

/// No Lagrange denominator `n * (xi - omega^(j+1))` vanishes for the first
/// `k` public inputs.
pub open spec fn pi_denominators_nonzero(n: int, omega: int, xi: int, m: int, k: int) -> bool {
    forall|j: int| 0 <= j < k ==> #[trigger] ((n * (xi - pi_point(omega, j, m))) % m) != 0
}

/// The public-input polynomial evaluated at `xi`: `sum_j L_j(xi) * (-pis[j])`
/// where `L_j(xi) = (xi^n - 1) * omega^(j+1) / (n * (xi - omega^(j+1)))`.
pub fn public_input_eval_generic(
    public_inputs: &[PastaFE],
    n: PastaFE,
    omega: PastaFE,
    xi: PastaFE,
    xi_n: PastaFE,
) -> (r: PastaFE)
    requires
        n.fid is Some,
        n.in_field(n.fid.unwrap()),
        omega.in_field(n.fid.unwrap()),
        xi.in_field(n.fid.unwrap()),
        xi_n.in_field(n.fid.unwrap()),
        all_in_field(public_inputs@, n.fid.unwrap()),
        pi_denominators_nonzero(n.v(), omega.v(), xi.v(), modulus(n.fid.unwrap()), public_inputs@.len() as int),
    ensures
        r.in_field(n.fid.unwrap()),
        r.v() == pi_eval(
            vals(public_inputs@),
            n.v(),
            omega.v(),
            xi.v(),
            xi_n.v(),
            modulus(n.fid.unwrap()),
            public_inputs@.len() as int,
        ),
{
    let ghost f = n.fid.unwrap();
    let ghost m = modulus(f);
    let ghost pv = vals(public_inputs@);
    let fe = match n.fid {
        Some(fe) => fe,
        None => PastaFieldId::Fp,
    };
    let one = PastaFE::one(Some(fe));
    let mut omega_j = omega;
    let mut acc = PastaFE::zero(Some(fe));
    let mut j: usize = 0;
    proof {
        crate::field::lemma_modulus_bounds(f);
        lemma_pow1(omega.v());
        lemma_reduced(omega.v(), m);
        lemma_reduced(1, m);
        lemma_reduced(0, m);
    }
    while j < public_inputs.len()
        invariant
            j <= public_inputs@.len(),
            f == fe,
            m == modulus(f),
            m > 0,
            pv == vals(public_inputs@),
            one.in_field(f) && one.v() == 1,
            n.in_field(f) && omega.in_field(f) && xi.in_field(f) && xi_n.in_field(f),
            all_in_field(public_inputs@, f),
            pi_denominators_nonzero(n.v(), omega.v(), xi.v(), m, public_inputs@.len() as int),
            omega_j.in_field(f),
            omega_j.v() == pi_point(omega.v(), j as int, m),
            acc.in_field(f),
            acc.v() == pi_eval(pv, n.v(), omega.v(), xi.v(), xi_n.v(), m, j as int),
        decreases public_inputs@.len() - j,
    {
        let x = public_inputs[j];
        let ghost ow = omega_j.v();
        proof {
            assert(public_inputs@[j as int].in_field(f));
            assert(pv[j as int] == x.v());
            lemma_reduced(xi_n.v(), m);
            lemma_reduced(ow, m);
            lemma_reduced(n.v(), m);
            lemma_reduced(xi.v(), m);
            lemma_sub_cong(xi_n.v(), 1, m);
            lemma_mul_cong(xi_n.v() - 1, ow, m);
            lemma_sub_cong(xi.v(), ow, m);
            lemma_mul_cong(n.v(), xi.v() - ow, m);
            assert(((n.v() * (xi.v() - pi_point(omega.v(), j as int, m))) % m) != 0);
        }
        let num = xi_n.sub(one).mul(omega_j);
        let den = n.mul(xi.sub(omega_j));
        let l_j = num.div(den);
        let neg_x = x.neg();
        let term = l_j.mul(neg_x);
        acc = acc.add(term);
        proof {
            lemma_reduced(acc.v(), m);
            lemma_pow_step(omega.v(), (j + 1) as nat);
            lemma_mul_cong(pow(omega.v(), (j + 1) as nat), omega.v(), m);
            lemma_reduced(omega.v(), m);
            crate::modular::lemma_mod_idem(pow(omega.v(), (j + 1) as nat) * omega.v(), m);
        }
        omega_j = omega_j.mul(omega);
        j = j + 1;
    }
    acc
}

// -------------------- Field elements with their integer meaning --------------------

/// A field element together with an integer it is congruent to; used to
/// follow long chains of field operations back to one integer formula.
pub(crate) struct Cf {
    pub(crate) e: PastaFE,
    pub(crate) g: Ghost<int>,
}

impl Cf {
    pub(crate) open spec fn ok(self, f: PastaFieldId) -> bool {
        self.e.in_field(f) && self.e.v() == self.g@ % modulus(f)
    }

    /// An element together with an integer it is known to be congruent to.
    pub(crate) fn with(e: PastaFE, Ghost(g): Ghost<int>, Ghost(f): Ghost<PastaFieldId>) -> (r: Cf)
        requires
            e.in_field(f),
            e.v() == g % modulus(f),
        ensures
            r.ok(f),
            r.g@ == g,
            r.e == e,
    {
        Cf { e, g: Ghost(g) }
    }

    pub(crate) fn lift(e: PastaFE, Ghost(f): Ghost<PastaFieldId>) -> (r: Cf)
        requires
            e.in_field(f),
        ensures
            r.ok(f),
            r.g@ == e.v(),
            r.e == e,
    {
        proof { crate::field::lemma_modulus_bounds(f); lemma_reduced(e.v(), modulus(f)); }
        Cf { e, g: Ghost(e.v()) }
    }

    pub(crate) fn add(&self, o: &Cf, Ghost(f): Ghost<PastaFieldId>) -> (r: Cf)
        requires
            self.ok(f),
            o.ok(f),
        ensures
            r.ok(f),
            r.g@ == self.g@ + o.g@,
    {
        proof { crate::field::lemma_modulus_bounds(f); lemma_add_cong(self.g@, o.g@, modulus(f)); }
        Cf { e: self.e.add(o.e), g: Ghost(self.g@ + o.g@) }
    }

    pub(crate) fn sub(&self, o: &Cf, Ghost(f): Ghost<PastaFieldId>) -> (r: Cf)
        requires
            self.ok(f),
            o.ok(f),
        ensures
            r.ok(f),
            r.g@ == self.g@ - o.g@,
    {
        proof { crate::field::lemma_modulus_bounds(f); lemma_sub_cong(self.g@, o.g@, modulus(f)); }
        Cf { e: self.e.sub(o.e), g: Ghost(self.g@ - o.g@) }
    }

    pub(crate) fn mul(&self, o: &Cf, Ghost(f): Ghost<PastaFieldId>) -> (r: Cf)
        requires
            self.ok(f),
            o.ok(f),
        ensures
            r.ok(f),
            r.g@ == self.g@ * o.g@,
    {
        proof { crate::field::lemma_modulus_bounds(f); lemma_mul_cong(self.g@, o.g@, modulus(f)); }
        Cf { e: self.e.mul(o.e), g: Ghost(self.g@ * o.g@) }
    }
}

// -------------------- Gate constraints --------------------

/// The equality gate: `(a - b) * eq + (a - b) * inv + eq - one`, which
/// vanishes when `eq` is one exactly for `a == b` and `inv` inverts `a - b`.
pub open spec fn eq_constraint(a: int, b: int, one: int, eq: int, inv: int) -> int {
    (a - b) * eq + ((a - b) * inv + eq - one)
}

/// The equality-gate constraint at the wire values `w`.
pub fn eq_generic(w: [PastaFE; 16]) -> (r: PastaFE)
    requires
        w[0].fid is Some,
        all_in_field(w@, w[0].fid.unwrap()),
    ensures
        r.in_field(w[0].fid.unwrap()),
        r.v() == eq_constraint(w[0].v(), w[1].v(), w[2].v(), w[3].v(), w[4].v()) % modulus(
            w[0].fid.unwrap(),
        ),
{
    let ghost f = w[0].fid.unwrap();
    proof {
        assert(w@[0].in_field(f) && w@[1].in_field(f) && w@[2].in_field(f) && w@[3].in_field(f) && w@[4].in_field(f));
    }
    let a = Cf::lift(w[0], Ghost(f));
    let b = Cf::lift(w[1], Ghost(f));
    let one = Cf::lift(w[2], Ghost(f));
    let eq = Cf::lift(w[3], Ghost(f));
    let inv = Cf::lift(w[4], Ghost(f));
    let a_b = a.sub(&b, Ghost(f));
    let result = a_b.mul(&eq, Ghost(f));
    let t = a_b.mul(&inv, Ghost(f)).add(&eq, Ghost(f)).sub(&one, Ghost(f));
    let result = result.add(&t, Ghost(f));
    result.e
}


/// `sum_{i < k} bits[i+1] * r[i]`.
pub open spec fn bit_weights(w: Seq<int>, r: Seq<int>, k: int) -> int
    decreases k,
{
    if k <= 0 {
        0
    } else {
        bit_weights(w, r, k - 1) + w[k] * r[k - 1]
    }
}

/// The range-check gate: `acc_next - acc_prev - sum_i b_i * r_i`, with
/// `acc_prev = w[0]`, the bits `b_i = w[i+1]` and `acc_next = nw[0]`.
pub open spec fn range_check_constraint(w: Seq<int>, nw0: int, r: Seq<int>) -> int {
    nw0 - w[0] - bit_weights(w, r, 15)
}

/// The range-check gate constraint at the wire values `w`, the next row's
/// first wire `nw[0]` and the round coefficients `r`.
pub fn range_check_generic(w: [PastaFE; 16], nw: [PastaFE; 3], r: [PastaFE; 15]) -> (res: PastaFE)
    requires
        w[0].fid is Some,
        all_in_field(w@, w[0].fid.unwrap()),
        all_in_field(nw@, w[0].fid.unwrap()),
        all_in_field(r@, w[0].fid.unwrap()),
    ensures
        res.in_field(w[0].fid.unwrap()),
        res.v() == range_check_constraint(vals(w@), nw[0].v(), vals(r@)) % modulus(w[0].fid.unwrap()),
{
    let ghost f = w[0].fid.unwrap();
    let ghost wv = vals(w@);
    let ghost rv = vals(r@);
    proof {
        assert(nw@[0].in_field(f));
        assert(w@[0].in_field(f));
    }
    let acc_next = Cf::lift(nw[0], Ghost(f));
    let acc_prev = Cf::lift(w[0], Ghost(f));
    let mut result = acc_next.sub(&acc_prev, Ghost(f));
    let mut i: usize = 0;
    while i < 15
        invariant
            i <= 15,
            wv == vals(w@),
            rv == vals(r@),
            all_in_field(w@, f),
            all_in_field(r@, f),
            result.ok(f),
            result.g@ == nw[0].v() - w[0].v() - bit_weights(wv, rv, i as int),
        decreases 15 - i,
    {
        proof {
            assert(w@[i + 1].in_field(f));
            assert(r@[i as int].in_field(f));
            assert(wv[i + 1] == w@[i + 1].v());
            assert(rv[i as int] == r@[i as int].v());
        }
        let b = Cf::lift(w[i + 1], Ghost(f));
        let ri = Cf::lift(r[i], Ghost(f));
        result = result.sub(&b.mul(&ri, Ghost(f)), Ghost(f));
        i = i + 1;
    }
    proof {
        assert(wv[0] == w@[0].v());
    }
    result.e
}

/// The Poseidon S-box `x^7`, written as the product that is evaluated.
pub open spec fn sbox7(x: int) -> int {
    x * x * x * x * x * x * x
}

/// `m[i][j]` of a 3x3 matrix of field elements, as an integer.
pub open spec fn mat(mds: [[PastaFE; 3]; 3], i: int, j: int) -> int {
    mds[i][j].v()
}

/// One Poseidon round as a gate: `(w3, w4, w5)` must equal the round
/// constants plus the MDS matrix applied to the S-boxed `(w0, w1, w2)`; the
/// three differences are summed.
pub open spec fn poseidon_round_constraint(
    mds: [[PastaFE; 3]; 3],
    w0: int, w1: int, w2: int, w3: int, w4: int, w5: int,
    r0: int, r1: int, r2: int,
) -> int {
    w3 - (r0 + sbox7(w0) * mat(mds, 0, 0) + sbox7(w1) * mat(mds, 0, 1) + sbox7(w2) * mat(mds, 0, 2))
        + w4 - (r1 + sbox7(w0) * mat(mds, 1, 0) + sbox7(w1) * mat(mds, 1, 1) + sbox7(w2) * mat(mds, 1, 2))
        + w5 - (r2 + sbox7(w0) * mat(mds, 2, 0) + sbox7(w1) * mat(mds, 2, 1) + sbox7(w2) * mat(mds, 2, 2))
}

/// The Poseidon gate: five rounds chained through the wires of the row and
/// the first three wires of the next row.
pub open spec fn poseidon_constraint(mds: [[PastaFE; 3]; 3], r: Seq<int>, w: Seq<int>, nw: Seq<int>) -> int {
    poseidon_round_constraint(mds, w[0], w[1], w[2], w[3], w[4], w[5], r[0], r[1], r[2])
        + poseidon_round_constraint(mds, w[3], w[4], w[5], w[6], w[7], w[8], r[3], r[4], r[5])
        + poseidon_round_constraint(mds, w[6], w[7], w[8], w[9], w[10], w[11], r[6], r[7], r[8])
        + poseidon_round_constraint(mds, w[9], w[10], w[11], w[12], w[13], w[14], r[9], r[10], r[11])
        + poseidon_round_constraint(mds, w[12], w[13], w[14], nw[0], nw[1], nw[2], r[12], r[13], r[14])
}

/// All nine entries of the matrix are elements of field `f`.
pub open spec fn mat_in_field(mds: [[PastaFE; 3]; 3], f: PastaFieldId) -> bool {
    forall|i: int, j: int| 0 <= i < 3 && 0 <= j < 3 ==> #[trigger] mds[i][j].in_field(f)
}

fn sbox_cf(x: &Cf, Ghost(f): Ghost<PastaFieldId>) -> (r: Cf)
    requires
        x.ok(f),
    ensures
        r.ok(f),
        r.g@ == sbox7(x.g@),
{
    let x2 = x.mul(x, Ghost(f));
    let x3 = x2.mul(x, Ghost(f));
    let x4 = x3.mul(x, Ghost(f));
    let x5 = x4.mul(x, Ghost(f));
    let x6 = x5.mul(x, Ghost(f));
    x6.mul(x, Ghost(f))
}

fn mds_row(
    mds: &[[PastaFE; 3]; 3],
    i: usize,
    rc: &Cf,
    s0: &Cf,
    s1: &Cf,
    s2: &Cf,
    Ghost(f): Ghost<PastaFieldId>,
) -> (r: Cf)
    requires
        i < 3,
        mat_in_field(*mds, f),
        rc.ok(f),
        s0.ok(f),
        s1.ok(f),
        s2.ok(f),
    ensures
        r.ok(f),
        r.g@ == rc.g@ + s0.g@ * mat(*mds, i as int, 0) + s1.g@ * mat(*mds, i as int, 1) + s2.g@ * mat(
            *mds,
            i as int,
            2,
        ),
{
    proof {
        assert(mds[i as int][0].in_field(f));
        assert(mds[i as int][1].in_field(f));
        assert(mds[i as int][2].in_field(f));
    }
    let m0 = Cf::lift(mds[i][0], Ghost(f));
    let m1 = Cf::lift(mds[i][1], Ghost(f));
    let m2 = Cf::lift(mds[i][2], Ghost(f));
    rc.add(&s0.mul(&m0, Ghost(f)), Ghost(f)).add(&s1.mul(&m1, Ghost(f)), Ghost(f)).add(
        &s2.mul(&m2, Ghost(f)),
        Ghost(f),
    )
}

fn poseidon_round_cf(
    mds: &[[PastaFE; 3]; 3],
    w: [PastaFE; 6],
    r: [PastaFE; 3],
    Ghost(f): Ghost<PastaFieldId>,
) -> (res: Cf)
    requires
        mat_in_field(*mds, f),
        all_in_field(w@, f),
        all_in_field(r@, f),
    ensures
        res.ok(f),
        res.g@ == poseidon_round_constraint(
            *mds,
            w[0].v(), w[1].v(), w[2].v(), w[3].v(), w[4].v(), w[5].v(),
            r[0].v(), r[1].v(), r[2].v(),
        ),
{
    proof {
        assert(w@[0].in_field(f) && w@[1].in_field(f) && w@[2].in_field(f));
        assert(w@[3].in_field(f) && w@[4].in_field(f) && w@[5].in_field(f));
        assert(r@[0].in_field(f) && r@[1].in_field(f) && r@[2].in_field(f));
    }
    let w0 = Cf::lift(w[0], Ghost(f));
    let w1 = Cf::lift(w[1], Ghost(f));
    let w2 = Cf::lift(w[2], Ghost(f));
    let w3 = Cf::lift(w[3], Ghost(f));
    let w4 = Cf::lift(w[4], Ghost(f));
    let w5 = Cf::lift(w[5], Ghost(f));
    let r0 = Cf::lift(r[0], Ghost(f));
    let r1 = Cf::lift(r[1], Ghost(f));
    let r2 = Cf::lift(r[2], Ghost(f));
    let s0 = sbox_cf(&w0, Ghost(f));
    let s1 = sbox_cf(&w1, Ghost(f));
    let s2 = sbox_cf(&w2, Ghost(f));
    let a = mds_row(mds, 0, &r0, &s0, &s1, &s2, Ghost(f));
    let b = mds_row(mds, 1, &r1, &s0, &s1, &s2, Ghost(f));
    let c = mds_row(mds, 2, &r2, &s0, &s1, &s2, Ghost(f));
    w3.sub(&a, Ghost(f)).add(&w4, Ghost(f)).sub(&b, Ghost(f)).add(&w5, Ghost(f)).sub(&c, Ghost(f))
}

/// The Poseidon gate constraint at the MDS matrix `M`, the round constants
/// `r`, the wire values `w` and the next row's first three wires `nw`.
pub fn poseidon_constraints_generic(
    M: [[PastaFE; 3]; 3],
    r: &[PastaFE; 15],
    w: &[PastaFE; 16],
    nw: &[PastaFE; 3],
) -> (res: PastaFE)
    requires
        w[0].fid is Some,
        mat_in_field(M, w[0].fid.unwrap()),
        all_in_field(r@, w[0].fid.unwrap()),
        all_in_field(w@, w[0].fid.unwrap()),
        all_in_field(nw@, w[0].fid.unwrap()),
    ensures
        res.in_field(w[0].fid.unwrap()),
        res.v() == poseidon_constraint(M, vals(r@), vals(w@), vals(nw@)) % modulus(w[0].fid.unwrap()),
{
    let ghost f = w[0].fid.unwrap();
    proof {
        assert forall|i: int| 0 <= i < 16 implies #[trigger] vals(w@)[i] == w@[i].v() && w@[i].in_field(f) by {}
        assert forall|i: int| 0 <= i < 15 implies #[trigger] vals(r@)[i] == r@[i].v() && r@[i].in_field(f) by {}
        assert forall|i: int| 0 <= i < 3 implies #[trigger] vals(nw@)[i] == nw@[i].v() && nw@[i].in_field(f) by {}
    }
    let round_1 = poseidon_round_cf(&M, [w[0], w[1], w[2], w[3], w[4], w[5]], [r[0], r[1], r[2]], Ghost(f));
    let round_2 = poseidon_round_cf(&M, [w[3], w[4], w[5], w[6], w[7], w[8]], [r[3], r[4], r[5]], Ghost(f));
    let round_3 = poseidon_round_cf(&M, [w[6], w[7], w[8], w[9], w[10], w[11]], [r[6], r[7], r[8]], Ghost(f));
    let round_4 = poseidon_round_cf(&M, [w[9], w[10], w[11], w[12], w[13], w[14]], [r[9], r[10], r[11]], Ghost(f));
    let round_5 = poseidon_round_cf(&M, [w[12], w[13], w[14], nw[0], nw[1], nw[2]], [r[12], r[13], r[14]], Ghost(f));
    let res = round_1.add(&round_2, Ghost(f)).add(&round_3, Ghost(f)).add(&round_4, Ghost(f)).add(&round_5, Ghost(f));
    res.e
}


/// The complete affine addition gate `R = P + Q` (Hisil-style incomplete
/// cases handled by the helper values `alpha, beta, gamma, delta` and the
/// slope `lambda`), over the wires
/// `[xp, yp, xq, yq, xr, yr, alpha, beta, gamma, delta, lambda, ..]`.
pub open spec fn affine_add_constraint(w: Seq<int>) -> int {
    let (xp, yp, xq, yq, xr, yr) = (w[0], w[1], w[2], w[3], w[4], w[5]);
    let (al, be, ga, de, la) = (w[6], w[7], w[8], w[9], w[10]);
    (xq - xp) * ((xq - xp) * la - (yq - yp))
        + (1 - (xq - xp) * al) * ((yp + yp) * la - (xp * xp + xp * xp + xp * xp))
        + xp * xq * (xq - xp) * (la * la - xp - xq - xr)
        + xp * xq * (xq - xp) * (la * (xp - xr) - yp - yr)
        + xp * xq * (yq + yp) * (la * la - xp - xq - xr)
        + xp * xq * (yq + yp) * (la * (xp - xr) - yp - yr)
        + (1 - xp * be) * (xr - xq)
        + (1 - xp * be) * (yr - yq)
        + (1 - xq * ga) * (xr - xp)
        + (1 - xq * ga) * (yr - yp)
        + (1 - (xq - xp) * al - (yq + yp) * de) * xr
        + (1 - (xq - xp) * al - (yq + yp) * de) * yr
}

/// `a * b` and `b * a` are multiples of `m` when `a` is.
proof fn lemma_zero_factor(a: int, b: int, m: int)
    requires
        m > 0,
        a % m == 0,
    ensures
        (a * b) % m == 0,
        (b * a) % m == 0,
{
    vstd::arithmetic::div_mod::lemma_mul_mod_noop_left(a, b, m);
    assert((a % m) * b == 0);
    lemma_reduced(0, m);
    assert(a * b == b * a) by (nonlinear_arith);
}

/// The sum of two multiples of `m` is one.
proof fn lemma_zero_sum(a: int, b: int, m: int)
    requires
        m > 0,
        a % m == 0,
        b % m == 0,
    ensures
        (a + b) % m == 0,
{
    lemma_add_cong(a, b, m);
    lemma_reduced(0, m);
}

/// `a` and `b` differ by a multiple of `m` when their residues agree.
proof fn lemma_zero_diff(a: int, b: int, m: int)
    requires
        m > 0,
        a % m == b % m,
    ensures
        (a - b) % m == 0,
{
    lemma_sub_cong(a, b, m);
    lemma_reduced(0, m);
}

/// The values of a complete affine addition `R = P + Q`, the identity
/// written `(0, 0)`, over the wires
/// `[xp, yp, xq, yq, xr, yr, alpha, beta, gamma, delta, lambda]`: residues
/// modulo `m`, where a zero abscissa stands for the identity and an
/// ordinate is zero only there; `alpha`, `beta` and `gamma` invert
/// `xq - xp`, `xp` and `xq` where these are not zero, `delta` inverts
/// `yq + yp` when the abscissae agree and is zero when they do not, and
/// `lambda` is the slope of the chord, or of the tangent when the abscissae
/// agree; and `R` is the chord-and-tangent sum.
pub open spec fn affine_add_witness(w: Seq<int>, m: int) -> bool {
    let (xp, yp, xq, yq, xr, yr) = (w[0], w[1], w[2], w[3], w[4], w[5]);
    let (al, be, ga, de, la) = (w[6], w[7], w[8], w[9], w[10]);
    &&& forall|i: int| 0 <= i < 11 ==> 0 <= #[trigger] w[i] < m
    &&& xp == 0 <==> yp == 0
    &&& xq == 0 <==> yq == 0
    &&& xq != xp ==> (al * (xq - xp)) % m == 1 && (la * (xq - xp)) % m == (yq - yp) % m && de == 0
    &&& xp != 0 ==> (be * xp) % m == 1
    &&& xq != 0 ==> (ga * xq) % m == 1
    &&& xq == xp && (yq + yp) % m != 0 ==> (de * (yq + yp)) % m == 1
    &&& xq == xp && xp != 0 ==> (la * (yp + yp)) % m == (xp * xp + xp * xp + xp * xp) % m
    &&& xp == 0 ==> xr == xq && yr == yq
    &&& xp != 0 && xq == 0 ==> xr == xp && yr == yp
    &&& xp != 0 && xq != 0 && xq == xp && (yq + yp) % m == 0 ==> xr == 0 && yr == 0
    &&& xp != 0 && xq != 0 && !(xq == xp && (yq + yp) % m == 0) ==> {
        &&& xr == (la * la - xp - xq) % m
        &&& yr == (la * (xp - xr) - yp) % m
    }
}

/// The affine-addition constraint vanishes on the values of a complete
/// affine addition: for `P != Q`, for `P == Q`, for `Q == -P` and for either
/// point the identity.
#[verifier::rlimit(60)]
pub proof fn lemma_affine_add_constraint_vanishes(w: Seq<int>, m: int)
    requires
        m > 1,
        w.len() >= 11,
        affine_add_witness(w, m),
    ensures
        affine_add_constraint(w) % m == 0,
{
    let (xp, yp, xq, yq, xr, yr) = (w[0], w[1], w[2], w[3], w[4], w[5]);
    let (al, be, ga, de, la) = (w[6], w[7], w[8], w[9], w[10]);
    assert(0 <= w[0] < m && 0 <= w[1] < m && 0 <= w[2] < m && 0 <= w[3] < m);
    assert(0 <= w[4] < m && 0 <= w[5] < m);
    let dx = xq - xp;
    let dy = yq - yp;
    let sy = yq + yp;
    let p = xp * xq;
    let a1 = dx * la - dy;
    let a2 = 1 - dx * al;
    let b2 = (yp + yp) * la - (xp * xp + xp * xp + xp * xp);
    let c = la * la - xp - xq - xr;
    let d = la * (xp - xr) - yp - yr;
    let e7 = 1 - xp * be;
    let e9 = 1 - xq * ga;
    let f = 1 - dx * al - sy * de;
    let t1 = dx * a1;
    let t2 = a2 * b2;
    let t3 = p * dx * c;
    let t4 = p * dx * d;
    let t5 = p * sy * c;
    let t6 = p * sy * d;
    let t7 = e7 * (xr - xq);
    let t8 = e7 * (yr - yq);
    let t9 = e9 * (xr - xp);
    let t10 = e9 * (yr - yp);
    let t11 = f * xr;
    let t12 = f * yr;
    assert(affine_add_constraint(w) == t1 + t2 + t3 + t4 + t5 + t6 + t7 + t8 + t9 + t10 + t11 + t12);
    lemma_reduced(0, m);
    // The factors that the inverses and the slope make vanish.
    if dx != 0 {
        assert(dx * al == al * dx && dx * la == la * dx) by (nonlinear_arith);
        lemma_reduced(1, m);
        lemma_zero_diff(1, dx * al, m);
        lemma_zero_diff(dx * la, dy, m);
        lemma_zero_factor(a1, dx, m);
        lemma_zero_factor(a2, b2, m);
    } else {
        assert(t1 == 0 && t3 == 0 && t4 == 0) by (nonlinear_arith)
            requires
                dx == 0,
                t1 == dx * a1,
                t3 == p * dx * c,
                t4 == p * dx * d,
        ;
        assert(a2 == 1);
    }
    if xp != 0 {
        assert(xp * be == be * xp) by (nonlinear_arith);
        lemma_reduced(1, m);
        lemma_zero_diff(1, xp * be, m);
        lemma_zero_factor(e7, xr - xq, m);
        lemma_zero_factor(e7, yr - yq, m);
    }
    if xq != 0 {
        assert(xq * ga == ga * xq) by (nonlinear_arith);
        lemma_reduced(1, m);
        lemma_zero_diff(1, xq * ga, m);
        lemma_zero_factor(e9, xr - xp, m);
        lemma_zero_factor(e9, yr - yp, m);
    }
    if xp == 0 || xq == 0 {
        assert(p == 0 && t3 == 0 && t4 == 0 && t5 == 0 && t6 == 0) by (nonlinear_arith)
            requires
                xp == 0 || xq == 0,
                p == xp * xq,
                t3 == p * dx * c,
                t4 == p * dx * d,
                t5 == p * sy * c,
                t6 == p * sy * d,
        ;
    }
    if xp == 0 {
        assert(t7 == 0 && t8 == 0) by (nonlinear_arith)
            requires
                t7 == e7 * (xr - xq),
                t8 == e7 * (yr - yq),
                xr == xq,
                yr == yq,
        ;
        if dx != 0 {
            assert(f == a2);
            lemma_zero_factor(a2, xr, m);
            lemma_zero_factor(a2, yr, m);
        } else {
            assert(t2 == 0 && t9 == 0 && t10 == 0 && t11 == 0 && t12 == 0) by (nonlinear_arith)
                requires
                    t2 == a2 * b2,
                    b2 == (yp + yp) * la - (xp * xp + xp * xp + xp * xp),
                    xp == 0,
                    yp == 0,
                    xr == 0,
                    yr == 0,
                    t9 == e9 * (xr - xp),
                    t10 == e9 * (yr - yp),
                    t11 == f * xr,
                    t12 == f * yr,
            ;
        }
    } else if xq == 0 {
        assert(t9 == 0 && t10 == 0) by (nonlinear_arith)
            requires
                t9 == e9 * (xr - xp),
                t10 == e9 * (yr - yp),
                xr == xp,
                yr == yp,
        ;
        assert(f == a2);
        lemma_zero_factor(a2, xr, m);
        lemma_zero_factor(a2, yr, m);
    } else {
        if dx == 0 {
            assert(la * (yp + yp) == (yp + yp) * la) by (nonlinear_arith);
            lemma_zero_diff((yp + yp) * la, xp * xp + xp * xp + xp * xp, m);
            lemma_zero_factor(b2, a2, m);
        }
        if dx == 0 && sy % m == 0 {
            lemma_zero_factor(sy, p, m);
            lemma_zero_factor(p * sy, c, m);
            lemma_zero_factor(p * sy, d, m);
            assert(t11 == 0 && t12 == 0) by (nonlinear_arith)
                requires
                    t11 == f * xr,
                    t12 == f * yr,
                    xr == 0,
                    yr == 0,
            ;
        } else {
            vstd::arithmetic::div_mod::lemma_fundamental_div_mod(la * la - xp - xq, m);
            vstd::arithmetic::div_mod::lemma_fundamental_div_mod(la * (xp - xr) - yp, m);
            vstd::arithmetic::div_mod::lemma_mod_multiples_basic((la * la - xp - xq) / m, m);
            vstd::arithmetic::div_mod::lemma_mod_multiples_basic((la * (xp - xr) - yp) / m, m);
            assert(c == ((la * la - xp - xq) / m) * m) by (nonlinear_arith)
                requires
                    c == la * la - xp - xq - xr,
                    xr == (la * la - xp - xq) % m,
                    la * la - xp - xq == m * ((la * la - xp - xq) / m) + (la * la - xp - xq) % m,
            ;
            assert(d == ((la * (xp - xr) - yp) / m) * m) by (nonlinear_arith)
                requires
                    d == la * (xp - xr) - yp - yr,
                    yr == (la * (xp - xr) - yp) % m,
                    la * (xp - xr) - yp == m * ((la * (xp - xr) - yp) / m) + (la * (xp - xr) - yp) % m,
            ;
            lemma_zero_factor(c, p * dx, m);
            lemma_zero_factor(d, p * dx, m);
            lemma_zero_factor(c, p * sy, m);
            lemma_zero_factor(d, p * sy, m);
            if dx != 0 {
                assert(f == a2);
                lemma_zero_factor(a2, xr, m);
                lemma_zero_factor(a2, yr, m);
            } else {
                assert(sy * de == de * sy) by (nonlinear_arith);
                lemma_reduced(1, m);
                lemma_zero_diff(1, sy * de, m);
                assert(f == 1 - sy * de);
                lemma_zero_factor(f, xr, m);
                lemma_zero_factor(f, yr, m);
            }
        }
    }
    lemma_zero_sum(t1, t2, m);
    lemma_zero_sum(t1 + t2, t3, m);
    lemma_zero_sum(t1 + t2 + t3, t4, m);
    lemma_zero_sum(t1 + t2 + t3 + t4, t5, m);
    lemma_zero_sum(t1 + t2 + t3 + t4 + t5, t6, m);
    lemma_zero_sum(t1 + t2 + t3 + t4 + t5 + t6, t7, m);
    lemma_zero_sum(t1 + t2 + t3 + t4 + t5 + t6 + t7, t8, m);
    lemma_zero_sum(t1 + t2 + t3 + t4 + t5 + t6 + t7 + t8, t9, m);
    lemma_zero_sum(t1 + t2 + t3 + t4 + t5 + t6 + t7 + t8 + t9, t10, m);
    lemma_zero_sum(t1 + t2 + t3 + t4 + t5 + t6 + t7 + t8 + t9 + t10, t11, m);
    lemma_zero_sum(t1 + t2 + t3 + t4 + t5 + t6 + t7 + t8 + t9 + t10 + t11, t12, m);
}

/// The affine-addition gate constraint at the wire values `w`.
pub fn affine_add_constraints_generic(w: [PastaFE; 16]) -> (res: PastaFE)
    requires
        w[0].fid is Some,
        all_in_field(w@, w[0].fid.unwrap()),
    ensures
        res.in_field(w[0].fid.unwrap()),
        res.v() == affine_add_constraint(vals(w@)) % modulus(w[0].fid.unwrap()),
{
    let ghost f = w[0].fid.unwrap();
    let fe = match w[0].fid {
        Some(fe) => fe,
        None => PastaFieldId::Fp,
    };
    proof {
        assert forall|i: int| 0 <= i < 16 implies #[trigger] vals(w@)[i] == w@[i].v() && w@[i].in_field(f) by {}
        crate::field::lemma_modulus_bounds(f);
    }
    let one = Cf::lift(PastaFE::one(Some(fe)), Ghost(f));
    let xp = Cf::lift(w[0], Ghost(f));
    let yp = Cf::lift(w[1], Ghost(f));
    let xq = Cf::lift(w[2], Ghost(f));
    let yq = Cf::lift(w[3], Ghost(f));
    let xr = Cf::lift(w[4], Ghost(f));
    let yr = Cf::lift(w[5], Ghost(f));
    let al = Cf::lift(w[6], Ghost(f));
    let be = Cf::lift(w[7], Ghost(f));
    let ga = Cf::lift(w[8], Ghost(f));
    let de = Cf::lift(w[9], Ghost(f));
    let la = Cf::lift(w[10], Ghost(f));

    let xq_xp = xq.sub(&xp, Ghost(f));
    let yq_yp = yq.sub(&yp, Ghost(f));
    let mut result = xq_xp.mul(&xq_xp.mul(&la, Ghost(f)).sub(&yq_yp, Ghost(f)), Ghost(f));

    let yp2 = yp.add(&yp, Ghost(f));
    let xpxp = xp.mul(&xp, Ghost(f));
    let xpxp3 = xpxp.add(&xpxp, Ghost(f)).add(&xpxp, Ghost(f));
    let t = one.sub(&xq_xp.mul(&al, Ghost(f)), Ghost(f)).mul(
        &yp2.mul(&la, Ghost(f)).sub(&xpxp3, Ghost(f)),
        Ghost(f),
    );
    result = result.add(&t, Ghost(f));

    let xpxq = xp.mul(&xq, Ghost(f));
    let xpxq_xqxp = xpxq.mul(&xq.sub(&xp, Ghost(f)), Ghost(f));
    let lala = la.mul(&la, Ghost(f));
    let lala_rest = lala.sub(&xp, Ghost(f)).sub(&xq, Ghost(f)).sub(&xr, Ghost(f));
    result = result.add(&xpxq_xqxp.mul(&lala_rest, Ghost(f)), Ghost(f));

    let la_rest = la.mul(&xp.sub(&xr, Ghost(f)), Ghost(f)).sub(&yp, Ghost(f)).sub(&yr, Ghost(f));
    result = result.add(&xpxq_xqxp.mul(&la_rest, Ghost(f)), Ghost(f));

    let xpxq_yqyp = xpxq.mul(&yq.add(&yp, Ghost(f)), Ghost(f));
    result = result.add(&xpxq_yqyp.mul(&lala_rest, Ghost(f)), Ghost(f));
    result = result.add(&xpxq_yqyp.mul(&la_rest, Ghost(f)), Ghost(f));

    let one_xpbe = one.sub(&xp.mul(&be, Ghost(f)), Ghost(f));
    result = result.add(&one_xpbe.mul(&xr.sub(&xq, Ghost(f)), Ghost(f)), Ghost(f));
    result = result.add(&one_xpbe.mul(&yr.sub(&yq, Ghost(f)), Ghost(f)), Ghost(f));

    let one_xqga = one.sub(&xq.mul(&ga, Ghost(f)), Ghost(f));
    result = result.add(&one_xqga.mul(&xr.sub(&xp, Ghost(f)), Ghost(f)), Ghost(f));
    result = result.add(&one_xqga.mul(&yr.sub(&yp, Ghost(f)), Ghost(f)), Ghost(f));

    let sel = one.sub(&xq.sub(&xp, Ghost(f)).mul(&al, Ghost(f)), Ghost(f)).sub(
        &yq.add(&yp, Ghost(f)).mul(&de, Ghost(f)),
        Ghost(f),
    );
    result = result.add(&sel.mul(&xr, Ghost(f)), Ghost(f));
    result = result.add(&sel.mul(&yr, Ghost(f)), Ghost(f));
    result.e
}

/// One step of the double-and-add scalar multiplication gate, over the
/// wires `[xp, yp, a, xg, yg, b, xq, yq, xr, yr, beta_q, lambda_q, alpha_r,
/// gamma_r, delta_r, lambda_r]` and the next row's `[xs, ys, a_next]`:
/// `Q = 2P`, `R = Q + G`, `b` is a bit, `S = b ? R : Q` and
/// `a_next = a + b * 2^i`.
pub open spec fn affine_mul_constraint(w: Seq<int>, nw: Seq<int>, two_pow_i: int) -> int {
    let (xp, yp, a, xg, yg, b, xq, yq) = (w[0], w[1], w[2], w[3], w[4], w[5], w[6], w[7]);
    let (xr, yr, bq, lq, ar, gr, dr, lr) = (w[8], w[9], w[10], w[11], w[12], w[13], w[14], w[15]);
    (1 - xp * bq) * xq
        + (1 - xp * bq) * yq
        + ((yp + yp) * lq - (xp * xp + xp * xp + xp * xp))
        + (lq * lq - (xp + xp) - xq)
        + (lq * (xp - xq) - yp - yq)
        + (xg - xq) * ((xg - xq) * lr - (yg - yq))
        + (1 - (xg - xq) * ar) * ((yq + yq) * lr - (xq * xq + xq * xq + xq * xq))
        + xq * xg * (xg - xq) * (lr * lr - xq - xg - xr)
        + xq * xg * (xg - xq) * (lr * (xq - xr) - yq - yr)
        + xq * xg * (yg + yq) * (lr * lr - xq - xg - xr)
        + xq * xg * (yg + yq) * (lr * (xq - xr) - yq - yr)
        + (1 - xp * bq) * (xr - xg)
        + (1 - xp * bq) * (yr - yg)
        + (1 - xg * gr) * (xr - xq)
        + (1 - xg * gr) * (yr - yq)
        + (1 - (xg - xq) * ar - (yg + yq) * dr) * xr
        + (1 - (xg - xq) * ar - (yg + yq) * dr) * yr
        + b * (b - 1)
        + (nw[0] - (b * xr + (1 - b) * xq))
        + (nw[1] - (b * yr + (1 - b) * yq))
        + nw[2] - (a + b * two_pow_i)
}

fn affine_mul_doubling_part(w: &[PastaFE; 16], one: &Cf, Ghost(f): Ghost<PastaFieldId>) -> (res: Cf)
    requires
        all_in_field(w@, f),
        one.ok(f),
        one.g@ == 1,
    ensures
        res.ok(f),
        res.g@ == ({
            let (xp, yp, xq, yq, bq, lq) = (w[0].v(), w[1].v(), w[6].v(), w[7].v(), w[10].v(), w[11].v());
            (1 - xp * bq) * xq + (1 - xp * bq) * yq + ((yp + yp) * lq - (xp * xp + xp * xp + xp * xp))
                + (lq * lq - (xp + xp) - xq) + (lq * (xp - xq) - yp - yq)
        }),
{
    proof {
        assert(w@[0].in_field(f) && w@[1].in_field(f) && w@[6].in_field(f));
        assert(w@[7].in_field(f) && w@[10].in_field(f) && w@[11].in_field(f));
    }
    let xp = Cf::lift(w[0], Ghost(f));
    let yp = Cf::lift(w[1], Ghost(f));
    let xq = Cf::lift(w[6], Ghost(f));
    let yq = Cf::lift(w[7], Ghost(f));
    let bq = Cf::lift(w[10], Ghost(f));
    let lq = Cf::lift(w[11], Ghost(f));

    let xpxp = xp.mul(&xp, Ghost(f));
    let xp2 = xp.add(&xp, Ghost(f));
    let lala = lq.mul(&lq, Ghost(f));
    let xpxp3 = xpxp.add(&xpxp, Ghost(f)).add(&xpxp, Ghost(f));
    let yp2 = yp.add(&yp, Ghost(f));

    let one_xpbq = one.sub(&xp.mul(&bq, Ghost(f)), Ghost(f));
    let mut result = one_xpbq.mul(&xq, Ghost(f));
    result = result.add(&one_xpbq.mul(&yq, Ghost(f)), Ghost(f));
    result = result.add(&yp2.mul(&lq, Ghost(f)).sub(&xpxp3, Ghost(f)), Ghost(f));
    result = result.add(&lala.sub(&xp2, Ghost(f)).sub(&xq, Ghost(f)), Ghost(f));
    result = result.add(
        &lq.mul(&xp.sub(&xq, Ghost(f)), Ghost(f)).sub(&yp, Ghost(f)).sub(&yq, Ghost(f)),
        Ghost(f),
    );
    result
}

fn affine_mul_addition_part(w: &[PastaFE; 16], one: &Cf, Ghost(f): Ghost<PastaFieldId>) -> (res: Cf)
    requires
        all_in_field(w@, f),
        one.ok(f),
        one.g@ == 1,
    ensures
        res.ok(f),
        res.g@ == ({
            let (xp, xg, yg, xq, yq, xr, yr) = (w[0].v(), w[3].v(), w[4].v(), w[6].v(), w[7].v(), w[8].v(), w[9].v());
            let (bq, ar, gr, dr, lr) = (w[10].v(), w[12].v(), w[13].v(), w[14].v(), w[15].v());
            (xg - xq) * ((xg - xq) * lr - (yg - yq))
                + (1 - (xg - xq) * ar) * ((yq + yq) * lr - (xq * xq + xq * xq + xq * xq))
                + xq * xg * (xg - xq) * (lr * lr - xq - xg - xr)
                + xq * xg * (xg - xq) * (lr * (xq - xr) - yq - yr)
                + xq * xg * (yg + yq) * (lr * lr - xq - xg - xr)
                + xq * xg * (yg + yq) * (lr * (xq - xr) - yq - yr)
                + (1 - xp * bq) * (xr - xg)
                + (1 - xp * bq) * (yr - yg)
                + (1 - xg * gr) * (xr - xq)
                + (1 - xg * gr) * (yr - yq)
                + (1 - (xg - xq) * ar - (yg + yq) * dr) * xr
                + (1 - (xg - xq) * ar - (yg + yq) * dr) * yr
        }),
{
    proof {
        assert(w@[0].in_field(f) && w@[3].in_field(f) && w@[4].in_field(f) && w@[6].in_field(f));
        assert(w@[7].in_field(f) && w@[8].in_field(f) && w@[9].in_field(f) && w@[10].in_field(f));
        assert(w@[12].in_field(f) && w@[13].in_field(f) && w@[14].in_field(f) && w@[15].in_field(f));
    }
    let xp = Cf::lift(w[0], Ghost(f));
    let xg = Cf::lift(w[3], Ghost(f));
    let yg = Cf::lift(w[4], Ghost(f));
    let xq = Cf::lift(w[6], Ghost(f));
    let yq = Cf::lift(w[7], Ghost(f));
    let xr = Cf::lift(w[8], Ghost(f));
    let yr = Cf::lift(w[9], Ghost(f));
    let bq = Cf::lift(w[10], Ghost(f));
    let ar = Cf::lift(w[12], Ghost(f));
    let gr = Cf::lift(w[13], Ghost(f));
    let dr = Cf::lift(w[14], Ghost(f));
    let lr = Cf::lift(w[15], Ghost(f));

    let xg_xq = xg.sub(&xq, Ghost(f));
    let yg_yq = yg.sub(&yq, Ghost(f));
    let mut result = xg_xq.mul(&xg_xq.mul(&lr, Ghost(f)).sub(&yg_yq, Ghost(f)), Ghost(f));

    let yq2 = yq.add(&yq, Ghost(f));
    let xqxq = xq.mul(&xq, Ghost(f));
    let xqxq3 = xqxq.add(&xqxq, Ghost(f)).add(&xqxq, Ghost(f));
    let t = one.sub(&xg_xq.mul(&ar, Ghost(f)), Ghost(f)).mul(
        &yq2.mul(&lr, Ghost(f)).sub(&xqxq3, Ghost(f)),
        Ghost(f),
    );
    result = result.add(&t, Ghost(f));

    let xqxg = xq.mul(&xg, Ghost(f));
    let xqxg_xgxq = xqxg.mul(&xg.sub(&xq, Ghost(f)), Ghost(f));
    let lala = lr.mul(&lr, Ghost(f));
    let lala_rest = lala.sub(&xq, Ghost(f)).sub(&xg, Ghost(f)).sub(&xr, Ghost(f));
    result = result.add(&xqxg_xgxq.mul(&lala_rest, Ghost(f)), Ghost(f));

    let la_rest = lr.mul(&xq.sub(&xr, Ghost(f)), Ghost(f)).sub(&yq, Ghost(f)).sub(&yr, Ghost(f));
    result = result.add(&xqxg_xgxq.mul(&la_rest, Ghost(f)), Ghost(f));

    let xqxg_ygyq = xqxg.mul(&yg.add(&yq, Ghost(f)), Ghost(f));
    result = result.add(&xqxg_ygyq.mul(&lala_rest, Ghost(f)), Ghost(f));
    result = result.add(&xqxg_ygyq.mul(&la_rest, Ghost(f)), Ghost(f));

    let one_xpbq = one.sub(&xp.mul(&bq, Ghost(f)), Ghost(f));
    result = result.add(&one_xpbq.mul(&xr.sub(&xg, Ghost(f)), Ghost(f)), Ghost(f));
    result = result.add(&one_xpbq.mul(&yr.sub(&yg, Ghost(f)), Ghost(f)), Ghost(f));

    let one_xggr = one.sub(&xg.mul(&gr, Ghost(f)), Ghost(f));
    result = result.add(&one_xggr.mul(&xr.sub(&xq, Ghost(f)), Ghost(f)), Ghost(f));
    result = result.add(&one_xggr.mul(&yr.sub(&yq, Ghost(f)), Ghost(f)), Ghost(f));

    let sel = one.sub(&xg.sub(&xq, Ghost(f)).mul(&ar, Ghost(f)), Ghost(f)).sub(
        &yg.add(&yq, Ghost(f)).mul(&dr, Ghost(f)),
        Ghost(f),
    );
    result = result.add(&sel.mul(&xr, Ghost(f)), Ghost(f));
    result = result.add(&sel.mul(&yr, Ghost(f)), Ghost(f));
    result
}

/// The scalar-multiplication step gate constraint at the wire values `w`,
/// the next row's first three wires `nw` and the power of two `two_pow_i`.
pub fn affine_mul_constraints_generic(w: [PastaFE; 16], nw: [PastaFE; 3], two_pow_i: PastaFE) -> (res: PastaFE)
    requires
        w[0].fid is Some,
        all_in_field(w@, w[0].fid.unwrap()),
        all_in_field(nw@, w[0].fid.unwrap()),
        two_pow_i.in_field(w[0].fid.unwrap()),
    ensures
        res.in_field(w[0].fid.unwrap()),
        res.v() == affine_mul_constraint(vals(w@), vals(nw@), two_pow_i.v()) % modulus(
            w[0].fid.unwrap(),
        ),
{
    let ghost f = w[0].fid.unwrap();
    let fe = match w[0].fid {
        Some(fe) => fe,
        None => PastaFieldId::Fp,
    };
    proof {
        assert forall|i: int| 0 <= i < 16 implies #[trigger] vals(w@)[i] == w@[i].v() && w@[i].in_field(f) by {}
        assert forall|i: int| 0 <= i < 3 implies #[trigger] vals(nw@)[i] == nw@[i].v() && nw@[i].in_field(f) by {}
        crate::field::lemma_modulus_bounds(f);
    }
    let one = Cf::lift(PastaFE::one(Some(fe)), Ghost(f));
    let doubling = affine_mul_doubling_part(&w, &one, Ghost(f));
    let addition = affine_mul_addition_part(&w, &one, Ghost(f));
    let mut result = doubling.add(&addition, Ghost(f));

    let a = Cf::lift(w[2], Ghost(f));
    let xq = Cf::lift(w[6], Ghost(f));
    let yq = Cf::lift(w[7], Ghost(f));
    let b = Cf::lift(w[5], Ghost(f));
    let xr = Cf::lift(w[8], Ghost(f));
    let yr = Cf::lift(w[9], Ghost(f));
    let xs = Cf::lift(nw[0], Ghost(f));
    let ys = Cf::lift(nw[1], Ghost(f));
    let a_next = Cf::lift(nw[2], Ghost(f));
    let t = Cf::lift(two_pow_i, Ghost(f));

    result = result.add(&b.mul(&b.sub(&one, Ghost(f)), Ghost(f)), Ghost(f));
    let one_b = one.sub(&b, Ghost(f));
    result = result.add(
        &xs.sub(&b.mul(&xr, Ghost(f)).add(&one_b.mul(&xq, Ghost(f)), Ghost(f)), Ghost(f)),
        Ghost(f),
    );
    result = result.add(
        &ys.sub(&b.mul(&yr, Ghost(f)).add(&one_b.mul(&yq, Ghost(f)), Ghost(f)), Ghost(f)),
        Ghost(f),
    );
    let res = result.add(&a_next, Ghost(f)).sub(&a.add(&b.mul(&t, Ghost(f)), Ghost(f)), Ghost(f));
    proof {
        let wv = vals(w@);
        let nv = vals(nw@);
        assert(res.g@ == affine_mul_constraint(wv, nv, two_pow_i.v()));
    }
    res.e
}

} // verus!
