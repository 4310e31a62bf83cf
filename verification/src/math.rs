//! Number-theoretic groundwork for the periodic-alignment solver:
//! greatest common divisors and modular inverses.

use vstd::prelude::*;
use vstd::arithmetic::div_mod::lemma_small_mod;
use vstd::arithmetic::div_mod::lemma_mul_mod_noop_left;
use vstd::arithmetic::div_mod::lemma_mul_mod_noop_right;
use vstd::arithmetic::div_mod::lemma_fundamental_div_mod;
use vstd::arithmetic::div_mod::lemma_mod_multiples_vanish;
use vstd::arithmetic::div_mod::lemma_mod_division_less_than_divisor;
use vstd::arithmetic::mul::lemma_mul_is_associative;
use vstd::arithmetic::mul::lemma_mul_is_commutative;

verus! {

/// Euclid's greatest common divisor.
pub open spec fn gcd(a: nat, b: nat) -> nat
    decreases b,
{
    if b == 0 {
        a
    } else {
        gcd(b, a % b)
    }
}

/// The modular inverse of `a` modulo `m`: the value in `[0, m)` whose
/// product with `a` is congruent to 1. Meaningful when such a value
/// exists; it is then unique ([`lemma_inv_unique`]).
pub open spec fn inv_mod(a: int, m: int) -> int {
    choose|x: int| 0 <= x < m && #[trigger] ((a * x) % m) == 1int % m
}

/// Two inverses of the same value agree: the inverse is unique in
/// `[0, m)`.
pub proof fn lemma_inv_unique(a: int, m: int, x1: int, x2: int)
    requires
        m >= 1,
        0 <= x1 < m,
        0 <= x2 < m,
        (a * x1) % m == 1int % m,
        (a * x2) % m == 1int % m,
    ensures
        x1 == x2,
{
    if m == 1 {
    } else {
        // x1 == x1 * (a * x2) == (x1 * a) * x2 == x2 (mod m)
        lemma_small_mod(x1 as nat, m as nat);
        lemma_small_mod(x2 as nat, m as nat);
        lemma_small_mod(1nat, m as nat);
        lemma_mul_is_commutative(x1, a);
        lemma_mul_mod_noop_right(x1, a * x2, m);
        assert((x1 * (a * x2)) % m == (x1 * ((a * x2) % m)) % m);
        assert((x1 * ((a * x2) % m)) % m == (x1 * 1int) % m);
        lemma_mul_is_associative(x1, a, x2);
        assert(x1 * (a * x2) == (x1 * a) * x2);
        lemma_mul_mod_noop_left(x1 * a, x2, m);
        assert(((x1 * a) * x2) % m == (((x1 * a) % m) * x2) % m);
        assert((x1 * a) % m == (a * x1) % m);
        assert((((x1 * a) % m) * x2) % m == (1int * x2) % m);
    }
}

/// Bezout's identity, by Euclid's recursion: some integer combination
/// of `a` and `b` yields their greatest common divisor.
pub proof fn lemma_bezout(a: nat, b: nat)
    ensures
        exists|x: int, y: int| #[trigger] (x * (a as int) + y * (b as int)) == gcd(a, b),
    decreases b,
{
    if b == 0 {
        let x: int = 1;
        let y: int = 0;
        assert(x * (a as int) + y * (b as int) == gcd(a, b));
    } else {
        lemma_bezout(b, a % b);
        let (x2, y2) = choose|x: int, y: int|
            #[trigger] (x * (b as int) + y * ((a % b) as int)) == gcd(b, a % b);
        lemma_fundamental_div_mod(a as int, b as int);
        let q = (a as int) / (b as int);
        let x = y2;
        let y = x2 - y2 * q;
        assert(x * (a as int) + y * (b as int) == gcd(a, b)) by (nonlinear_arith)
            requires
                x2 * (b as int) + y2 * ((a % b) as int) == gcd(b, a % b),
                (a % b) as int == a as int - q * (b as int),
                x == y2,
                y == x2 - y2 * q,
                gcd(a, b) == gcd(b, a % b),
        ;
    }
}

/// A value coprime to the modulus has an inverse, so `inv_mod` yields a
/// value with the defining property.
pub proof fn lemma_inv_mod_works(a: int, m: int)
    requires
        0 <= a < m,
        1 <= m,
        gcd(a as nat, m as nat) == 1,
    ensures
        0 <= inv_mod(a, m) < m,
        (a * inv_mod(a, m)) % m == 1int % m,
{
    lemma_bezout(a as nat, m as nat);
    let (x, y) = choose|x: int, y: int| #[trigger] (x * a + y * m) == gcd(a as nat, m as nat);
    let x0 = x % m;
    lemma_mod_division_less_than_divisor(x, m);
    assert((a * x0) % m == 1int % m) by {
        lemma_mul_mod_noop_right(a, x, m);
        assert((a * (x % m)) % m == (a * x) % m);
        assert(a * x == m * (-y) + 1) by (nonlinear_arith)
            requires
                x * a + y * m == 1,
        ;
        lemma_mod_multiples_vanish(-y, 1, m);
    }
    assert(0 <= x0 < m && #[trigger] ((a * x0) % m) == 1int % m);
    assert((a * inv_mod(a, m)) % m == 1int % m && 0 <= inv_mod(a, m) < m);
}

/// Euclid's algorithm.
pub fn gcd_u64(a: u64, b: u64) -> (g: u64)
    ensures
        g == gcd(a as nat, b as nat),
{
    let mut x = a;
    let mut y = b;
    while y != 0
        invariant
            gcd(x as nat, y as nat) == gcd(a as nat, b as nat),
        decreases y,
    {
        let r = x % y;
        x = y;
        y = r;
    }
    x
}

} // verus!
