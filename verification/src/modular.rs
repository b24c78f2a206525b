//! Modular arithmetic facts used to carry congruences through chains of
//! field operations.
use vstd::prelude::*;
use vstd::arithmetic::div_mod::*;

verus! {

/// `((a % m) + (b % m)) % m == (a + b) % m`
pub broadcast proof fn lemma_add_cong(a: int, b: int, m: int)
    requires
        m > 0,
    ensures
        #[trigger] (((a % m) + (b % m)) % m) == (a + b) % m,
{
    lemma_add_mod_noop(a, b, m);
}

/// `((a % m) - (b % m)) % m == (a - b) % m`
pub broadcast proof fn lemma_sub_cong(a: int, b: int, m: int)
    requires
        m > 0,
    ensures
        #[trigger] (((a % m) - (b % m)) % m) == (a - b) % m,
{
    lemma_sub_mod_noop(a, b, m);
}

/// `((a % m) * (b % m)) % m == (a * b) % m`
pub broadcast proof fn lemma_mul_cong(a: int, b: int, m: int)
    requires
        m > 0,
    ensures
        #[trigger] (((a % m) * (b % m)) % m) == (a * b) % m,
{
    lemma_mul_mod_noop(a, b, m);
}

/// `(a % m) % m == a % m`
pub broadcast proof fn lemma_mod_idem(a: int, m: int)
    requires
        m > 0,
    ensures
        #[trigger] ((a % m) % m) == a % m,
{
    lemma_mod_twice(a, m);
}

/// A value already reduced modulo `m` is its own residue.
pub proof fn lemma_reduced(a: int, m: int)
    requires
        m > 0,
        0 <= a < m,
    ensures
        a % m == a,
{
    lemma_small_mod(a as nat, m as nat);
}

/// Residues modulo a positive `m` lie in `[0, m)`.
pub proof fn lemma_mod_range(a: int, m: int)
    requires
        m > 0,
    ensures
        0 <= a % m < m,
{
    lemma_mod_bound(a, m);
}

} // verus!
