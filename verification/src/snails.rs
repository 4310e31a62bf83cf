//! The periodic-alignment solver: snails crawl diagonally on a grid,
//! each wrapping with its own period; the solver reports positions after
//! a fixed time and, via a Chinese-remainder-style combination of the
//! periods, the first time all snails sit on the first row.

use vstd::prelude::*;
use vstd::arithmetic::div_mod::lemma_small_mod;
use vstd::arithmetic::div_mod::lemma_mod_self_0;
use vstd::arithmetic::div_mod::lemma_mod_add_multiples_vanish;
use vstd::arithmetic::div_mod::lemma_add_mod_noop_right;
use vstd::arithmetic::div_mod::lemma_sub_mod_noop;
use vstd::arithmetic::div_mod::lemma_sub_mod_noop_right;
use vstd::arithmetic::div_mod::lemma_mul_mod_noop_left;
use vstd::arithmetic::div_mod::lemma_mul_mod_noop_right;
use vstd::arithmetic::div_mod::lemma_fundamental_div_mod;
use vstd::arithmetic::div_mod::lemma_div_nonincreasing;
use vstd::arithmetic::div_mod::lemma_div_pos_is_pos;
use vstd::arithmetic::div_mod::lemma_mod_mod;
use vstd::arithmetic::div_mod::lemma_mod_multiples_vanish;
use vstd::arithmetic::div_mod::lemma_mod_multiples_basic;
use vstd::arithmetic::div_mod::lemma_div_by_multiple;
use vstd::arithmetic::div_mod::lemma_add_mod_noop;
use vstd::arithmetic::div_mod::lemma_mod_division_less_than_divisor;
use vstd::arithmetic::mul::lemma_mul_is_associative;
use vstd::arithmetic::mul::lemma_mul_is_commutative;
use vstd::arithmetic::mul::lemma_mul_is_distributive_sub_other_way;
use vstd::arithmetic::mul::lemma_mul_upper_bound;
use crate::math::gcd;
use crate::math::inv_mod;
use crate::math::lemma_inv_unique;
use crate::math::lemma_inv_mod_works;
use crate::math::gcd_u64;
use crate::parse::lit_at;
use crate::parse::spec_parse_num;
use crate::parse::expect_lit;
use crate::parse::parse_num;

verus! {

/// A fault while solving the snail puzzle.
#[derive(Clone, Copy, Debug, PartialEq, Eq, Structural)]
pub enum SnailError {
    /// An input line is not of the form `x=<uint> y=<uint>` with both
    /// coordinates in `1..=999999999`.
    MalformedLine,
    /// An intermediate value does not fit the solver's integer range.
    Overflow,
    /// Two periods share a factor, so no alignment time is defined by
    /// the inverse-based combination.
    NotCoprime,
}

/// One snail: zero-based starting coordinates and its wrap-around
/// period. A snail starting at one-based `(x, y)` has `x0 = x - 1`,
/// `y0 = y - 1` and period `x + y - 1`.
#[derive(Clone, Copy, Debug)]
pub struct Snail {
    pub x0: i64,
    pub y0: i64,
    pub period: i64,
}

/// A structurally sound snail: coordinates are in range and the period
/// matches them.
pub open spec fn snail_ok(s: Snail) -> bool {
    &&& 0 <= s.x0 < s.period
    &&& 0 <= s.y0 < s.period
    &&& s.period == s.x0 + s.y0 + 1
    &&& s.period < 0x8000_0000
}

impl Snail {
    /// A snail from its one-based starting coordinates.
    pub fn new(x0: i64, y0: i64) -> (s: Snail)
        requires
            1 <= x0 < 0x4000_0000,
            1 <= y0 < 0x4000_0000,
        ensures
            s.x0 == x0 - 1,
            s.y0 == y0 - 1,
            s.period == x0 + y0 - 1,
            snail_ok(s),
    {
        Snail { x0: x0 - 1, y0: y0 - 1, period: x0 + y0 - 1 }
    }

    /// The snail's one-based position after `t` steps: `x` advances and
    /// `y` recedes, both wrapping with the snail's period.
    pub fn position_at(&self, t: i64) -> (p: (i64, i64))
        requires
            snail_ok(*self),
            0 <= t < 0x8000_0000,
        ensures
            p.0 == (self.x0 + t) % (self.period as int) + 1,
            p.1 == (self.y0 - t) % (self.period as int) + 1,
    {
        let pd = self.period;
        let tm = t % pd;
        let x = (self.x0 + tm) % pd;
        let yd = (self.y0 + (pd - tm)) % pd;
        proof {
            let pi = pd as int;
            lemma_small_mod(self.x0 as nat, pd as nat);
            lemma_small_mod(self.y0 as nat, pd as nat);
            lemma_add_mod_noop_right(self.x0 as int, t as int, pi);
            assert((self.x0 as int + ((t as int) % pi)) % pi == (self.x0 + t) % pi);
            lemma_mod_add_multiples_vanish(self.y0 as int - tm as int, pi);
            assert((self.y0 as int + (pi - tm as int)) % pi == (self.y0 as int - tm as int) % pi);
            lemma_sub_mod_noop_right(self.y0 as int, t as int, pi);
            assert((self.y0 as int - ((t as int) % pi)) % pi == (self.y0 - t) % pi);
        }
        (x + 1, yd + 1)
    }
}

/// The modular inverse of `a` modulo `m`, by the extended Euclidean
/// algorithm with coefficients kept reduced modulo `m`.
pub fn mod_inverse(a: i64, m: i64) -> (x: i64)
    requires
        0 <= a,
        1 <= m < 0x8000_0000,
        gcd(((a as int) % (m as int)) as nat, m as nat) == 1,
    ensures
        0 <= x < m,
        ((a as int) * x) % (m as int) == 1int % (m as int),
        x == inv_mod((a as int) % (m as int), m as int),
{
    let ghost mi = m as int;
    let ghost aa = (a as int) % mi;
    if m == 1 {
        proof {
            assert((aa * 0) % 1int == 0) by {
                assert(aa % 1int == 0);
                assert(aa * 0 == 0);
            }
            assert(1int % 1int == 0);
            assert(0 <= 0 < 1 && #[trigger] ((aa * 0) % 1int) == 1int % 1int);
            assert((aa * inv_mod(aa, 1)) % 1int == 1int % 1int && 0 <= inv_mod(aa, 1) < 1);
            lemma_inv_unique(aa, 1, 0, inv_mod(aa, 1));
            assert(((a as int) * 0) % 1int == 0) by {
                assert((a as int) * 0 == 0);
            }
        }
        return 0;
    }
    let mut r0: i64 = m;
    let mut r1: i64 = a % m;
    let mut x0: i64 = 0;
    let mut x1: i64 = 1;
    proof {
        lemma_mod_self_0(mi);
        lemma_small_mod(r1 as nat, m as nat);
        assert(r1 as int == aa);
        assert((r0 as int) % mi == ((x0 as int) * aa) % mi) by {
            assert((x0 as int) * aa == 0);
        }
        assert((r1 as int) % mi == ((x1 as int) * aa) % mi) by {
            assert((x1 as int) * aa == aa);
        }
        assert(gcd(aa as nat, m as nat) == gcd(m as nat, aa as nat)) by {
            assert((aa as nat) % (m as nat) == aa as nat);
        }
        if aa == 0 {
            assert(gcd(m as nat, 0) == m as nat);
            assert(false);
        }
    }
    while r1 > 1
        invariant
            2 <= m < 0x8000_0000,
            mi == m as int,
            aa == (a as int) % mi,
            2 <= r0 <= m,
            1 <= r1 < r0,
            0 <= x0 < m,
            0 <= x1 < m,
            gcd(r0 as nat, r1 as nat) == 1,
            (r0 as int) % mi == ((x0 as int) * aa) % mi,
            (r1 as int) % mi == ((x1 as int) * aa) % mi,
        decreases r1,
    {
        proof {
            lemma_div_pos_is_pos(r0 as int, r1 as int);
            lemma_div_nonincreasing(r0 as int, r1 as int);
            lemma_mul_upper_bound(r0 as int / r1 as int, 0x7FFF_FFFF, x1 as int, 0x7FFF_FFFF);
        }
        let q = r0 / r1;
        let r2 = r0 % r1;
        let w = (q * x1) % m;
        let x2 = (x0 + (m - w)) % m;
        proof {
            let qi = q as int;
            let x0i = x0 as int;
            let x1i = x1 as int;
            let x2i = x2 as int;
            let r0i = r0 as int;
            let r1i = r1 as int;
            let r2i = r2 as int;
            // the next coefficient is x0 - q * x1, reduced modulo m
            lemma_mod_add_multiples_vanish(x0i - (qi * x1i) % mi, mi);
            lemma_sub_mod_noop_right(x0i, qi * x1i, mi);
            assert(x2i == (x0i - qi * x1i) % mi);
            // the next remainder is r0 - q * r1
            lemma_fundamental_div_mod(r0i, r1i);
            lemma_mul_is_commutative(r1i, qi);
            assert(r2i == r0i - qi * r1i);
            // both sides of the next congruence reduce to
            // ((x0 - q * x1) * aa) % m
            lemma_sub_mod_noop(r0i, qi * r1i, mi);
            lemma_mul_mod_noop_right(qi, r1i, mi);
            lemma_mul_mod_noop_right(qi, x1i * aa, mi);
            lemma_mul_is_associative(qi, x1i, aa);
            assert((qi * r1i) % mi == (qi * (r1i % mi)) % mi);
            assert((qi * (r1i % mi)) % mi == (qi * ((x1i * aa) % mi)) % mi);
            assert((qi * ((x1i * aa) % mi)) % mi == (qi * (x1i * aa)) % mi);
            assert((qi * (x1i * aa)) % mi == ((qi * x1i) * aa) % mi);
            assert((qi * r1i) % mi == ((qi * x1i) * aa) % mi);
            lemma_sub_mod_noop(x0i * aa, (qi * x1i) * aa, mi);
            lemma_mul_is_distributive_sub_other_way(aa, x0i, qi * x1i);
            assert((r2i) % mi == ((x0i - qi * x1i) * aa) % mi);
            lemma_small_mod(x2 as nat, m as nat);
            lemma_mul_mod_noop_left(x0i - qi * x1i, aa, mi);
            assert((x2i * aa) % mi == ((x0i - qi * x1i) * aa) % mi);
            // Euclid's step preserves the greatest common divisor
            assert((r0 as nat) % (r1 as nat) == r2 as nat);
            assert(gcd(r1 as nat, r2 as nat) == gcd(r0 as nat, r1 as nat));
        }
        r0 = r1;
        r1 = r2;
        x0 = x1;
        x1 = x2;
    }
    proof {
        // the remainder cannot reach 0 while the running gcd is 1
        if r1 == 0 {
            assert(gcd(r0 as nat, 0) == r0 as nat);
            assert(false);
        }
        assert(r1 == 1);
        lemma_small_mod(1nat, m as nat);
        assert(((x1 as int) * aa) % mi == 1int % mi);
        lemma_mul_is_commutative(x1 as int, aa);
        assert((aa * (x1 as int)) % mi == 1int % mi);
        assert(0 <= x1 < m && #[trigger] ((aa * (x1 as int)) % mi) == 1int % mi);
        assert((aa * inv_mod(aa, mi)) % mi == 1int % mi && 0 <= inv_mod(aa, mi) < mi);
        lemma_inv_unique(aa, mi, x1 as int, inv_mod(aa, mi));
        lemma_mul_mod_noop_left(a as int, x1 as int, mi);
        assert(((a as int) * (x1 as int)) % mi == (aa * (x1 as int)) % mi);
    }
    x1
}

/// The product of all periods.
pub open spec fn periods_product(snails: Seq<Snail>) -> int
    decreases snails.len(),
{
    if snails.len() == 0 {
        1
    } else {
        periods_product(snails.drop_last()) * snails.last().period
    }
}

/// A prefix of the snails contributes at least 1 and at most the whole
/// product.
pub proof fn lemma_product_prefix(snails: Seq<Snail>, k: int)
    requires
        forall|j: int| 0 <= j < snails.len() ==> snail_ok(#[trigger] snails[j]),
        0 <= k <= snails.len(),
    ensures
        1 <= periods_product(snails.take(k)),
        periods_product(snails.take(k)) <= periods_product(snails),
    decreases snails.len() - k,
{
    if k == snails.len() {
        assert(snails.take(k) =~= snails);
        lemma_product_positive(snails);
    } else {
        lemma_product_prefix(snails, k + 1);
        assert(snails.take(k + 1).drop_last() =~= snails.take(k));
        assert(snails.take(k + 1).last() == snails[k]);
        let a = periods_product(snails.take(k));
        let p = snails[k].period as int;
        lemma_product_positive(snails.take(k));
        assert(a <= a * p) by (nonlinear_arith)
            requires
                1 <= a,
                1 <= p,
        ;
    }
}

/// The product of periods of sound snails is at least 1.
pub proof fn lemma_product_positive(snails: Seq<Snail>)
    requires
        forall|j: int| 0 <= j < snails.len() ==> snail_ok(#[trigger] snails[j]),
    ensures
        1 <= periods_product(snails),
    decreases snails.len(),
{
    if snails.len() > 0 {
        assert(forall|j: int|
            0 <= j < snails.drop_last().len() ==> snail_ok(#[trigger] snails.drop_last()[j]));
        lemma_product_positive(snails.drop_last());
        let a = periods_product(snails.drop_last());
        let p = snails.last().period as int;
        assert(1 <= a * p) by (nonlinear_arith)
            requires
                1 <= a,
                1 <= p,
        ;
    }
}

/// One snail's contribution to the alignment time, reduced modulo the
/// total period: its first-row remainder times the other periods'
/// product times that product's modular inverse.
pub open spec fn crt_term(s: Snail, total: int) -> int {
    let others = total / (s.period as int);
    (((((s.y0 as int) % (s.period as int)) * others) % total) * inv_mod(
        others % (s.period as int),
        s.period as int,
    )) % total
}

/// The contributions summed left to right, reduced modulo the total
/// period at each step.
pub open spec fn crt_sum(snails: Seq<Snail>, total: int) -> int
    decreases snails.len(),
{
    if snails.len() == 0 {
        0
    } else {
        (crt_sum(snails.drop_last(), total) + crt_term(snails.last(), total)) % total
    }
}

/// Every period is coprime to the product of the other periods.
pub open spec fn all_coprime(snails: Seq<Snail>, total: int) -> bool {
    forall|k: int|
        0 <= k < snails.len() ==> gcd(
            ((total / (#[trigger] snails[k]).period as int) % snails[k].period as int) as nat,
            snails[k].period as nat,
        ) == 1
}

/// The combined alignment time lies within one full cycle of all the
/// periods.
pub proof fn lemma_crt_sum_range(snails: Seq<Snail>, total: int)
    requires
        1 <= total,
    ensures
        0 <= crt_sum(snails, total) < total,
{
}

/// What [`crt`] returns: the combined alignment time, or a fault when
/// the product of periods leaves the solver's range or two periods
/// share a factor.
pub open spec fn spec_crt(snails: Seq<Snail>) -> Result<i64, SnailError> {
    let total = periods_product(snails);
    if total > 0x7FFF_FFFF {
        Err(SnailError::Overflow)
    } else if !all_coprime(snails, total) {
        Err(SnailError::NotCoprime)
    } else {
        Ok(crt_sum(snails, total) as i64)
    }
}

/// The time when all the snails are at the first row, by combining the
/// per-period remainders with modular inverses.
pub fn crt(snails: &Vec<Snail>) -> (res: Result<i64, SnailError>)
    requires
        forall|k: int| 0 <= k < snails@.len() ==> snail_ok(#[trigger] snails@[k]),
    ensures
        res == spec_crt(snails@),
        res matches Ok(t) ==> forall|k: int|
            0 <= k < snails@.len() ==> (t as int) % ((#[trigger] snails@[k]).period as int) == (
            snails@[k].y0 as int) % (snails@[k].period as int),
{
    let ghost full = periods_product(snails@);
    let mut total: i64 = 1;
    let mut i: usize = 0;
    proof {
        assert(snails@.take(0) =~= Seq::<Snail>::empty());
    }
    while i < snails.len()
        invariant
            forall|k: int| 0 <= k < snails@.len() ==> snail_ok(#[trigger] snails@[k]),
            full == periods_product(snails@),
            i <= snails@.len(),
            1 <= total <= 0x7FFF_FFFF,
            total as int == periods_product(snails@.take(i as int)),
        decreases snails@.len() - i,
    {
        let p = snails[i].period;
        proof {
            lemma_mul_upper_bound(total as int, 0x7FFF_FFFF, p as int, 0x7FFF_FFFF);
            assert(1 <= (total as int) * (p as int)) by (nonlinear_arith)
                requires
                    1 <= total as int,
                    1 <= p as int,
            ;
            assert(snails@.take(i + 1).drop_last() =~= snails@.take(i as int));
            assert(snails@.take(i + 1).last() == snails@[i as int]);
        }
        let t2 = total * p;
        if t2 > 0x7FFF_FFFF {
            proof {
                lemma_product_prefix(snails@, i + 1);
            }
            return Err(SnailError::Overflow);
        }
        total = t2;
        i += 1;
    }
    proof {
        assert(snails@.take(snails@.len() as int) =~= snails@);
    }
    let mut acc: i64 = 0;
    let mut j: usize = 0;
    proof {
        assert(snails@.take(0) =~= Seq::<Snail>::empty());
    }
    while j < snails.len()
        invariant
            forall|k: int| 0 <= k < snails@.len() ==> snail_ok(#[trigger] snails@[k]),
            full == periods_product(snails@),
            j <= snails@.len(),
            1 <= total <= 0x7FFF_FFFF,
            total as int == full,
            0 <= acc < total,
            acc as int == crt_sum(snails@.take(j as int), full),
            forall|k: int|
                0 <= k < j ==> gcd(
                    ((full / (#[trigger] snails@[k]).period as int) % snails@[k].period as int)
                        as nat,
                    snails@[k].period as nat,
                ) == 1,
        decreases snails@.len() - j,
    {
        let s = snails[j];
        let p = s.period;
        proof {
            lemma_div_pos_is_pos(total as int, p as int);
            lemma_div_nonincreasing(total as int, p as int);
        }
        let others = total / p;
        let g = gcd_u64((others % p) as u64, p as u64);
        if g != 1 {
            return Err(SnailError::NotCoprime);
        }
        let inv = mod_inverse(others, p);
        let r = s.y0 % p;
        proof {
            lemma_mul_upper_bound(r as int, 0x7FFF_FFFF, others as int, 0x7FFF_FFFF);
        }
        let t1 = (r * others) % total;
        proof {
            lemma_mul_upper_bound(t1 as int, 0x7FFF_FFFF, inv as int, 0x7FFF_FFFF);
        }
        let t2 = (t1 * inv) % total;
        proof {
            assert(snails@.take(j + 1).drop_last() =~= snails@.take(j as int));
            assert(snails@.take(j + 1).last() == snails@[j as int]);
            assert(t2 as int == crt_term(s, full));
        }
        acc = (acc + t2) % total;
        j += 1;
    }
    proof {
        assert(snails@.take(snails@.len() as int) =~= snails@);
        assert(spec_crt(snails@) == Ok::<i64, SnailError>(acc));
        lemma_alignment_time(snails@);
    }
    Ok(acc)
}

/// Removing one snail divides the product of periods by exactly that
/// snail's period.
pub proof fn lemma_product_remove(snails: Seq<Snail>, k: int)
    requires
        0 <= k < snails.len(),
    ensures
        periods_product(snails) == periods_product(snails.remove(k)) * (snails[k].period as int),
    decreases snails.len(),
{
    if k == snails.len() - 1 {
        assert(snails.remove(k) =~= snails.drop_last());
    } else {
        lemma_product_remove(snails.drop_last(), k);
        assert(snails.remove(k).drop_last() =~= snails.drop_last().remove(k));
        assert(snails.remove(k).last() == snails.last());
        let a = periods_product(snails.drop_last().remove(k));
        let pk = snails[k].period as int;
        let pl = snails.last().period as int;
        assert((a * pk) * pl == (a * pl) * pk) by (nonlinear_arith);
    }
}

/// The product divided by one snail's period is the product of the other
/// snails' periods, with no remainder.
pub proof fn lemma_total_div_period(snails: Seq<Snail>, j: int)
    requires
        forall|i: int| 0 <= i < snails.len() ==> snail_ok(#[trigger] snails[i]),
        0 <= j < snails.len(),
    ensures
        periods_product(snails) / (snails[j].period as int) == periods_product(snails.remove(j)),
        periods_product(snails) % (snails[j].period as int) == 0,
{
    lemma_product_remove(snails, j);
    let rem = snails.remove(j);
    assert(forall|i: int| 0 <= i < rem.len() ==> snail_ok(#[trigger] rem[i]));
    lemma_product_positive(rem);
    lemma_div_by_multiple(periods_product(rem), snails[j].period as int);
    lemma_mod_multiples_basic(periods_product(rem), snails[j].period as int);
}

/// Any other snail's period divides the product of the periods other
/// than the `j`-th.
pub proof fn lemma_other_period_divides(snails: Seq<Snail>, j: int, k: int)
    requires
        forall|i: int| 0 <= i < snails.len() ==> snail_ok(#[trigger] snails[i]),
        0 <= j < snails.len(),
        0 <= k < snails.len(),
        j != k,
    ensures
        (periods_product(snails) / (snails[j].period as int)) % (snails[k].period as int) == 0,
{
    lemma_total_div_period(snails, j);
    let rem = snails.remove(j);
    let k2: int = if k < j {
        k
    } else {
        k - 1
    };
    assert(rem[k2] == snails[k]);
    lemma_product_remove(rem, k2);
    lemma_mod_multiples_basic(periods_product(rem.remove(k2)), snails[k].period as int);
}

/// Modulo its own period, a snail's contribution is its first-row
/// remainder; modulo any other snail's period it vanishes.
pub proof fn lemma_term_congruence(snails: Seq<Snail>, total: int, k: int, j: int)
    requires
        forall|i: int| 0 <= i < snails.len() ==> snail_ok(#[trigger] snails[i]),
        total == periods_product(snails),
        all_coprime(snails, total),
        0 <= k < snails.len(),
        0 <= j < snails.len(),
    ensures
        j == k ==> crt_term(snails[j], total) % (snails[k].period as int) == (
        snails[k].y0 as int) % (snails[k].period as int),
        j != k ==> crt_term(snails[j], total) % (snails[k].period as int) == 0,
{
    assert(snail_ok(snails[k]));
    assert(snail_ok(snails[j]));
    let p = snails[k].period as int;
    let pj = snails[j].period as int;
    let r = (snails[j].y0 as int) % pj;
    let m = total / pj;
    let inv = inv_mod(m % pj, pj);
    let x1 = r * m;
    let a = x1 % total;
    let x2 = a * inv;
    assert(crt_term(snails[j], total) == x2 % total);
    // total == (total / p) * p, so reducing modulo total preserves
    // residues modulo p
    lemma_total_div_period(snails, k);
    let c = total / p;
    lemma_product_positive(snails.remove(k));
    lemma_fundamental_div_mod(total, p);
    assert(total == p * c);
    lemma_mod_mod(x2, p, c);
    assert((x2 % total) % p == x2 % p);
    lemma_mul_mod_noop_left(a, inv, p);
    assert(x2 % p == ((a % p) * inv) % p);
    lemma_mod_mod(x1, p, c);
    assert(a % p == x1 % p);
    lemma_mul_mod_noop_left(x1, inv, p);
    assert(((x1 % p) * inv) % p == (x1 * inv) % p);
    assert(crt_term(snails[j], total) % p == ((r * m) * inv) % p);
    if j != k {
        lemma_other_period_divides(snails, j, k);
        assert(m % p == 0);
        lemma_fundamental_div_mod(m, p);
        let d = m / p;
        assert(m == p * d);
        assert((r * m) * inv == p * (r * d * inv)) by (nonlinear_arith)
            requires
                m == p * d,
        ;
        lemma_mod_multiples_vanish(r * d * inv, 0, p);
        assert((p * (r * d * inv) + 0) % p == 0int % p);
    } else {
        // p == pj here; the inverse cancels the quotient
        lemma_mod_division_less_than_divisor(m, p);
        lemma_inv_mod_works(m % p, p);
        assert(((m % p) * inv) % p == 1int % p);
        lemma_mul_is_associative(r, m, inv);
        assert((r * m) * inv == r * (m * inv));
        lemma_mul_mod_noop_right(r, m * inv, p);
        assert((r * (m * inv)) % p == (r * ((m * inv) % p)) % p);
        lemma_mul_mod_noop_left(m, inv, p);
        assert((m * inv) % p == ((m % p) * inv) % p);
        if p == 1 {
            assert(r == 0);
            assert((r * (m * inv)) % p == 0);
        } else {
            lemma_small_mod(1nat, p as nat);
            assert(1int % p == 1);
            assert((r * 1int) % p == r % p);
            lemma_mod_division_less_than_divisor(snails[j].y0 as int, p);
            lemma_small_mod(r as nat, p as nat);
        }
    }
}

/// Modulo the `k`-th period, the running sum holds nothing until the
/// `k`-th contribution arrives, and the first-row remainder afterwards.
pub proof fn lemma_crt_sum_congruence(snails: Seq<Snail>, total: int, k: int, j: int)
    requires
        forall|i: int| 0 <= i < snails.len() ==> snail_ok(#[trigger] snails[i]),
        total == periods_product(snails),
        all_coprime(snails, total),
        0 <= k < snails.len(),
        0 <= j <= snails.len(),
    ensures
        crt_sum(snails.take(j), total) % (snails[k].period as int) == if j > k {
            (snails[k].y0 as int) % (snails[k].period as int)
        } else {
            0int
        },
    decreases j,
{
    assert(snail_ok(snails[k]));
    let p = snails[k].period as int;
    lemma_total_div_period(snails, k);
    let c = total / p;
    lemma_product_positive(snails.remove(k));
    lemma_fundamental_div_mod(total, p);
    assert(total == p * c);
    if j == 0 {
        assert(snails.take(0) =~= Seq::<Snail>::empty());
        assert(crt_sum(snails.take(0), total) == 0);
        lemma_small_mod(0nat, p as nat);
    } else {
        lemma_crt_sum_congruence(snails, total, k, j - 1);
        assert(snails.take(j).drop_last() =~= snails.take(j - 1));
        assert(snails.take(j).last() == snails[j - 1]);
        let prev = crt_sum(snails.take(j - 1), total);
        let term = crt_term(snails[j - 1], total);
        assert(crt_sum(snails.take(j), total) == (prev + term) % total);
        lemma_mod_mod(prev + term, p, c);
        assert(((prev + term) % total) % p == (prev + term) % p);
        lemma_add_mod_noop(prev, term, p);
        assert((prev + term) % p == ((prev % p) + (term % p)) % p);
        lemma_term_congruence(snails, total, k, j - 1);
        let r = (snails[k].y0 as int) % p;
        lemma_mod_division_less_than_divisor(snails[k].y0 as int, p);
        if j - 1 == k {
            assert(prev % p == 0);
            assert(term % p == r);
            lemma_small_mod(r as nat, p as nat);
        } else if j - 1 > k {
            assert(prev % p == r);
            assert(term % p == 0);
            lemma_small_mod(r as nat, p as nat);
        } else {
            assert(prev % p == 0);
            assert(term % p == 0);
            lemma_small_mod(0nat, p as nat);
        }
    }
}

/// Alignment law: a successfully combined time puts every snail on the
/// first row — modulo each snail's period it equals that snail's
/// first-row offset, so the snail's `y` coordinate wraps to row 1 at
/// that time.
pub proof fn lemma_alignment_time(snails: Seq<Snail>)
    requires
        forall|i: int| 0 <= i < snails.len() ==> snail_ok(#[trigger] snails[i]),
        spec_crt(snails) is Ok,
    ensures
        forall|k: int|
            0 <= k < snails.len() ==> (spec_crt(snails).unwrap() as int) % (
            (#[trigger] snails[k]).period as int) == (snails[k].y0 as int) % (
            snails[k].period as int),
{
    let total = periods_product(snails);
    lemma_product_positive(snails);
    lemma_crt_sum_range(snails, total);
    assert forall|k: int|
        0 <= k < snails.len() implies (spec_crt(snails).unwrap() as int) % (
        (#[trigger] snails[k]).period as int) == (snails[k].y0 as int) % (
        snails[k].period as int) by {
        lemma_crt_sum_congruence(snails, total, k, snails.len() as int);
        assert(snails.take(snails.len() as int) =~= snails);
    }
}

/// What a snail line parses to: a pair of one-based coordinates, each in
/// `1..=999999999`, from the exact form `x=<uint> y=<uint>`.
pub open spec fn spec_parse_snail(s: Seq<char>) -> Option<(int, int)> {
    if lit_at(s, 0, "x="@) {
        match spec_parse_num(s, "x="@.len() as int, 999_999_999) {
            None => None,
            Some((x, p)) => {
                if 1 <= x && lit_at(s, p, " y="@) {
                    match spec_parse_num(s, p + " y="@.len(), 999_999_999) {
                        None => None,
                        Some((y, e)) => {
                            if 1 <= y && e == s.len() {
                                Some((x, y))
                            } else {
                                None
                            }
                        },
                    }
                } else {
                    None
                }
            },
        }
    } else {
        None
    }
}

/// Parse one snail line.
pub fn parse_snail_line(line: &str) -> (r: Option<(i64, i64)>)
    ensures
        match r {
            Some(p) => spec_parse_snail(line@) == Some((p.0 as int, p.1 as int)),
            None => spec_parse_snail(line@) is None,
        },
{
    let p0 = match expect_lit(line, 0, "x=") {
        None => {
            return None;
        },
        Some(e) => e,
    };
    let x = match parse_num(line, p0, 999_999_999) {
        None => {
            return None;
        },
        Some(p) => p,
    };
    if x.0 < 1 {
        return None;
    }
    let p1 = match expect_lit(line, x.1, " y=") {
        None => {
            return None;
        },
        Some(e) => e,
    };
    let y = match parse_num(line, p1, 999_999_999) {
        None => {
            return None;
        },
        Some(p) => p,
    };
    if y.0 < 1 {
        return None;
    }
    let n = line.unicode_len();
    if y.1 != n {
        return None;
    }
    Some((x.0 as i64, y.0 as i64))
}

/// The snail a parsed coordinate pair describes.
pub open spec fn snail_of(x: int, y: int) -> Snail {
    Snail { x0: (x - 1) as i64, y0: (y - 1) as i64, period: (x + y - 1) as i64 }
}

/// The character sequences of the input lines.
pub open spec fn snail_line_views(lines: Seq<String>) -> Seq<Seq<char>> {
    lines.map_values(|l: String| l@)
}

/// Every line is a well-formed snail line.
pub open spec fn all_snails_parse(lines: Seq<Seq<char>>) -> bool {
    forall|k: int| 0 <= k < lines.len() ==> spec_parse_snail(#[trigger] lines[k]) is Some
}

/// The snails spelled by the lines.
pub open spec fn parsed_snails(lines: Seq<Seq<char>>) -> Seq<Snail> {
    lines.map_values(
        |l: Seq<char>| snail_of(spec_parse_snail(l).unwrap().0, spec_parse_snail(l).unwrap().1),
    )
}

/// The sum of `100 * y + x` over all snails' one-based positions after
/// 100 steps, summed left to right with an overflow guard.
pub open spec fn spec_positions_sum(snails: Seq<Snail>) -> Result<int, SnailError>
    decreases snails.len(),
{
    if snails.len() == 0 {
        Ok(0)
    } else {
        match spec_positions_sum(snails.drop_last()) {
            Err(e) => Err(e),
            Ok(acc) => {
                let s = snails.last();
                let px = ((s.x0 as int) + 100) % (s.period as int) + 1;
                let py = ((s.y0 as int) - 100) % (s.period as int) + 1;
                let term = 100 * py + px;
                if acc + term > 0x7FFF_FFFF_FFFF_FFFF {
                    Err(SnailError::Overflow)
                } else {
                    Ok(acc + term)
                }
            },
        }
    }
}

/// An overflow in a prefix of the sum settles the whole sum.
pub proof fn lemma_positions_sum_err(snails: Seq<Snail>, k: int)
    requires
        0 <= k <= snails.len(),
        spec_positions_sum(snails.take(k)) is Err,
    ensures
        spec_positions_sum(snails) == spec_positions_sum(snails.take(k)),
    decreases snails.len() - k,
{
    if k < snails.len() {
        assert(snails.take(k + 1).drop_last() =~= snails.take(k));
        lemma_positions_sum_err(snails, k + 1);
    } else {
        assert(snails.take(k) =~= snails);
    }
}

/// What the first snail part returns for its input lines.
pub open spec fn spec_snails_part1(lines: Seq<Seq<char>>) -> Result<int, SnailError> {
    if !all_snails_parse(lines) {
        Err(SnailError::MalformedLine)
    } else {
        spec_positions_sum(parsed_snails(lines))
    }
}

/// What the alignment parts return for their input lines.
pub open spec fn spec_snails_align(lines: Seq<Seq<char>>) -> Result<i64, SnailError> {
    if !all_snails_parse(lines) {
        Err(SnailError::MalformedLine)
    } else {
        spec_crt(parsed_snails(lines))
    }
}

/// Parse the lines into snails.
fn parse_snails(lines: &Vec<String>) -> (res: Result<Vec<Snail>, SnailError>)
    ensures
        match res {
            Ok(v) => all_snails_parse(snail_line_views(lines@)) && v@ == parsed_snails(
                snail_line_views(lines@),
            ) && (forall|k: int| 0 <= k < v@.len() ==> snail_ok(#[trigger] v@[k])),
            Err(e) => e == SnailError::MalformedLine && !all_snails_parse(
                snail_line_views(lines@),
            ),
        },
{
    let mut snails: Vec<Snail> = Vec::new();
    let mut i: usize = 0;
    while i < lines.len()
        invariant
            i <= lines@.len(),
            snails@.len() == i as int,
            forall|k: int|
                0 <= k < i ==> spec_parse_snail(#[trigger] snail_line_views(lines@)[k]) is Some,
            forall|k: int|
                0 <= k < i ==> snails@[k] == snail_of(
                    spec_parse_snail(#[trigger] snail_line_views(lines@)[k]).unwrap().0,
                    spec_parse_snail(snail_line_views(lines@)[k]).unwrap().1,
                ),
            forall|k: int| 0 <= k < i ==> snail_ok(#[trigger] snails@[k]),
        decreases lines@.len() - i,
    {
        match parse_snail_line(lines[i].as_str()) {
            None => {
                proof {
                    assert(snail_line_views(lines@)[i as int] == lines@[i as int]@);
                    assert(!all_snails_parse(snail_line_views(lines@)));
                }
                return Err(SnailError::MalformedLine);
            },
            Some(xy) => {
                let s = Snail::new(xy.0, xy.1);
                snails.push(s);
                proof {
                    assert(snail_line_views(lines@)[i as int] == lines@[i as int]@);
                }
            },
        }
        i += 1;
    }
    proof {
        assert(snails@ =~= parsed_snails(snail_line_views(lines@)));
    }
    Ok(snails)
}

/// Sum the snails' positions after 100 steps: each contributes
/// `100 * y + x` of its one-based position.
pub fn solve_part1(lines: &Vec<String>) -> (res: Result<i64, SnailError>)
    ensures
        match res {
            Ok(v) => spec_snails_part1(snail_line_views(lines@)) == Ok::<int, SnailError>(v as int),
            Err(e) => spec_snails_part1(snail_line_views(lines@)) == Err::<int, SnailError>(e),
        },
{
    let snails = match parse_snails(lines) {
        Err(e) => {
            return Err(e);
        },
        Ok(v) => v,
    };
    let mut acc: i64 = 0;
    let mut i: usize = 0;
    proof {
        assert(snails@.take(0) =~= Seq::<Snail>::empty());
    }
    while i < snails.len()
        invariant
            i <= snails@.len(),
            forall|k: int| 0 <= k < snails@.len() ==> snail_ok(#[trigger] snails@[k]),
            all_snails_parse(snail_line_views(lines@)),
            snails@ == parsed_snails(snail_line_views(lines@)),
            spec_positions_sum(snails@.take(i as int)) == Ok::<int, SnailError>(acc as int),
            0 <= acc,
        decreases snails@.len() - i,
    {
        let s = snails[i];
        let p = s.position_at(100);
        let term = 100 * p.1 + p.0;
        proof {
            assert(snails@.take(i + 1).drop_last() =~= snails@.take(i as int));
            assert(snails@.take(i + 1).last() == snails@[i as int]);
        }
        if acc > 0x7FFF_FFFF_FFFF_FFFF - term {
            proof {
                lemma_positions_sum_err(snails@, i + 1);
            }
            return Err(SnailError::Overflow);
        }
        acc = acc + term;
        i += 1;
    }
    proof {
        assert(snails@.take(snails@.len() as int) =~= snails@);
    }
    Ok(acc)
}

/// The first time all snails sit on the first row, by the
/// inverse-based combination of their periods.
pub fn solve_part2(lines: &Vec<String>) -> (res: Result<i64, SnailError>)
    ensures
        match res {
            Ok(v) => spec_snails_align(snail_line_views(lines@)) == Ok::<i64, SnailError>(v),
            Err(e) => spec_snails_align(snail_line_views(lines@)) == Err::<i64, SnailError>(e),
        },
{
    let snails = match parse_snails(lines) {
        Err(e) => {
            return Err(e);
        },
        Ok(v) => v,
    };
    crt(&snails)
}

/// The same alignment computation on the third part's input.
pub fn solve_part3(lines: &Vec<String>) -> (res: Result<i64, SnailError>)
    ensures
        match res {
            Ok(v) => spec_snails_align(snail_line_views(lines@)) == Ok::<i64, SnailError>(v),
            Err(e) => spec_snails_align(snail_line_views(lines@)) == Err::<i64, SnailError>(e),
        },
{
    let snails = match parse_snails(lines) {
        Err(e) => {
            return Err(e);
        },
        Ok(v) => v,
    };
    crt(&snails)
}

/// Solve all three snail parts, each from its own input lines.
pub fn solve(part1_lines: &Vec<String>, part2_lines: &Vec<String>, part3_lines: &Vec<String>) -> (res: (
    Result<i64, SnailError>,
    Result<i64, SnailError>,
    Result<i64, SnailError>,
))
    ensures
        match res.0 {
            Ok(v) => spec_snails_part1(snail_line_views(part1_lines@)) == Ok::<int, SnailError>(
                v as int,
            ),
            Err(e) => spec_snails_part1(snail_line_views(part1_lines@)) == Err::<int, SnailError>(
                e,
            ),
        },
        match res.1 {
            Ok(v) => spec_snails_align(snail_line_views(part2_lines@)) == Ok::<i64, SnailError>(v),
            Err(e) => spec_snails_align(snail_line_views(part2_lines@)) == Err::<i64, SnailError>(
                e,
            ),
        },
        match res.2 {
            Ok(v) => spec_snails_align(snail_line_views(part3_lines@)) == Ok::<i64, SnailError>(v),
            Err(e) => spec_snails_align(snail_line_views(part3_lines@)) == Err::<i64, SnailError>(
                e,
            ),
        },
{
    let part1 = solve_part1(part1_lines);
    let part2 = solve_part2(part2_lines);
    let part3 = solve_part3(part3_lines);
    (part1, part2, part3)
}

} // verus!
