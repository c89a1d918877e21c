//! Arithmetic on prime-field elements.
//!
//! A field element is a reduced residue: a `u64` strictly below the modulus.
//! Every operation returns a reduced residue, so sums and products computed
//! here never leave the field.

use vstd::prelude::*;

verus! {

/// The sum of two residues, reduced.
pub open spec fn add_mod_spec(p: u64, a: u64, b: u64) -> u64 {
    (((a as int) + (b as int)) % (p as int)) as u64
}

/// The product of two residues, reduced.
pub open spec fn mul_mod_spec(p: u64, a: u64, b: u64) -> u64 {
    (((a as int) * (b as int)) % (p as int)) as u64
}

/// `x` raised to the `e`-th power, reduced after every multiplication.
pub open spec fn pow_mod_spec(p: u64, x: u64, e: nat) -> u64
    decreases e,
{
    if e == 0 {
        ((1 as int) % (p as int)) as u64
    } else {
        mul_mod_spec(p, x, pow_mod_spec(p, x, (e - 1) as nat))
    }
}

/// Modular addition.
pub fn add_mod(p: u64, a: u64, b: u64) -> (r: u64)
    requires
        p >= 2,
    ensures
        r == add_mod_spec(p, a, b),
        r < p,
{
    let s: u128 = a as u128 + b as u128;
    let r: u128 = s % (p as u128);
    r as u64
}

/// Modular multiplication.
pub fn mul_mod(p: u64, a: u64, b: u64) -> (r: u64)
    requires
        p >= 2,
    ensures
        r == mul_mod_spec(p, a, b),
        r < p,
{
    proof {
        assert((a as u128) * (b as u128) <= (u64::MAX as u128) * (u64::MAX as u128))
            by (nonlinear_arith)
            requires
                a <= u64::MAX,
                b <= u64::MAX,
        ;
    }
    let s: u128 = (a as u128) * (b as u128);
    let r: u128 = s % (p as u128);
    r as u64
}

/// Modular exponentiation by repeated multiplication.
pub fn pow_mod(p: u64, x: u64, e: u64) -> (r: u64)
    requires
        p >= 2,
    ensures
        r == pow_mod_spec(p, x, e as nat),
        r < p,
{
    let mut acc: u64 = 1 % p;
    let mut i: u64 = 0;
    while i < e
        invariant
            p >= 2,
            i <= e,
            acc == pow_mod_spec(p, x, i as nat),
            acc < p,
        decreases e - i,
    {
        acc = mul_mod(p, acc, x);
        i = i + 1;
        proof {
            assert(pow_mod_spec(p, x, i as nat) == mul_mod_spec(p, x, pow_mod_spec(p, x, (i - 1) as nat)));
            vstd::arithmetic::mul::lemma_mul_is_commutative(
                pow_mod_spec(p, x, (i - 1) as nat) as int,
                x as int,
            );
        }
    }
    acc
}

} // verus!
