//! Prime numbers, and how a number is shown to be one.
use vstd::arithmetic::div_mod::{
    lemma_fundamental_div_mod, lemma_mod_equivalence, lemma_mod_multiples_basic, lemma_mod_twice,
    lemma_small_mod,
};
use vstd::arithmetic::power::{
    lemma1_pow, lemma_pow_adds, lemma_pow_mod_noop, lemma_pow_multiplies, pow,
};
use vstd::prelude::*;
use vstd::set_lib::{lemma_int_range, lemma_len_subset, set_int_range};

use crate::algebra::lemma_cong_mul;

verus! {

/// `m` divides `a`.
pub open spec fn divides(m: int, a: int) -> bool {
    a % m == 0
}

/// `m` is a prime number: it divides a product only where it divides a factor.
pub open spec fn is_prime(m: int) -> bool {
    m > 1 && forall|a: int, b: int|
        #![trigger divides(m, a), divides(m, b)]
        divides(m, a * b) ==> divides(m, a) || divides(m, b)
}

/// `u` is an inverse of `x` modulo `n`.
pub open spec fn is_inverse(u: int, x: int, n: int) -> bool {
    (u * x) % n == 1
}

/// `x` has an inverse modulo `n`.
pub open spec fn is_unit(x: int, n: int) -> bool {
    exists|u: int| is_inverse(u, x, n)
}

/// Each number above 1 that divides `f` is divided by one of `primes`.
pub open spec fn covers(primes: Seq<int>, f: int) -> bool {
    forall|t: int|
        t > 1 && #[trigger] divides(t, f) ==> exists|i: int|
            0 <= i < primes.len() && divides(#[trigger] primes[i], t)
}

/// A number divides its multiples.
proof fn lemma_divides_multiple(m: int, k: int)
    requires
        m > 0,
    ensures
        divides(m, k * m),
{
    lemma_mod_multiples_basic(k, m);
}

/// A number that `m` divides is `m` times the quotient.
proof fn lemma_quotient(m: int, a: int)
    requires
        m > 0,
        divides(m, a),
    ensures
        a == m * (a / m),
{
    lemma_fundamental_div_mod(a, m);
}

/// The greatest common divisor of `a` and `b` is a sum of multiples of both.
proof fn lemma_bezout(a: int, b: int) -> (res: (int, int, int))
    requires
        a > 0,
        b >= 0,
    ensures
        ({
            let (g, s, t) = res;
            g > 0 && divides(g, a) && divides(g, b) && g == s * a + t * b
        }),
    decreases b,
{
    if b == 0 {
        lemma_divides_multiple(a, 1);
        lemma_divides_multiple(a, 0);
        (a, 1, 0)
    } else {
        let (g, s, t) = lemma_bezout(b, a % b);
        let (q, r) = (a / b, a % b);
        lemma_fundamental_div_mod(a, b);
        lemma_quotient(g, b);
        lemma_quotient(g, r);
        let (x, y) = (b / g, r / g);
        assert(a == (x * q + y) * g) by (nonlinear_arith)
            requires
                a == b * q + r,
                b == g * x,
                r == g * y,
        ;
        lemma_divides_multiple(g, x * q + y);
        assert(g == t * a + (s - t * q) * b) by (nonlinear_arith)
            requires
                g == s * b + t * r,
                a == b * q + r,
        ;
        (g, t, s - t * q)
    }
}

/// A number above 1 is prime where no number from 2 up to its square root divides it.
pub proof fn lemma_prime_without_divisors(m: int)
    requires
        m > 1,
        forall|d: int| 1 < d && d * d <= m ==> !#[trigger] divides(d, m),
    ensures
        is_prime(m),
{
    assert forall|a: int, b: int|
        #![trigger divides(m, a), divides(m, b)]
        divides(m, a * b) && !divides(m, a) implies divides(m, b) by {
        let (g, s, t) = lemma_bezout(m, a % m);
        lemma_quotient(g, m);
        let h = m / g;
        // The common divisor is 1.
        if g > 1 {
            lemma_quotient(g, a % m);
            let k = (a % m) / g;
            if g >= m {
                assert(k == 0) by (nonlinear_arith)
                    requires
                        a % m == g * k,
                        0 <= a % m < m,
                        g >= m,
                ;
                assert(g * 0 == 0);
            } else {
                assert(1 < h < m) by (nonlinear_arith)
                    requires
                        m == g * h,
                        1 < g < m,
                ;
                lemma_divides_multiple(h, g);
                if g <= h {
                    assert(g * g <= m) by (nonlinear_arith)
                        requires
                            m == g * h,
                            0 < g <= h,
                    ;
                } else {
                    assert(h * h <= m) by (nonlinear_arith)
                        requires
                            m == g * h,
                            0 < h < g,
                    ;
                }
            }
            assert(false);
        }
        // So `b` is a sum of multiples of `m`.
        lemma_fundamental_div_mod(a, m);
        lemma_quotient(m, a * b);
        let (q, r, c) = (a / m, a % m, (a * b) / m);
        let w = c - q * b;
        assert((m * q + r) * b == m * (q * b) + r * b) by (nonlinear_arith);
        assert(m * c - m * (q * b) == m * (c - q * b)) by (nonlinear_arith);
        assert(r * b == m * w);
        assert((s * m + t * r) * b == (s * b) * m + t * (r * b)) by (nonlinear_arith);
        assert(t * (m * w) == (t * w) * m) by (nonlinear_arith);
        assert((s * b) * m + (t * w) * m == (s * b + t * w) * m) by (nonlinear_arith);
        assert(1 * b == b);
        lemma_divides_multiple(m, s * b + t * w);
    }
}

/// Nothing above 1 divides 1.
pub proof fn lemma_covers_one(primes: Seq<int>)
    ensures
        covers(primes, 1),
{
    assert forall|t: int| t > 1 implies !#[trigger] divides(t, 1) by {
        lemma_small_mod(1, t as nat);
    }
}

/// One more of the primes as a factor brings no divisor without one of them.
pub proof fn lemma_covers_multiple(primes: Seq<int>, f: int, i: int)
    requires
        covers(primes, f),
        0 <= i < primes.len(),
        is_prime(primes[i]),
    ensures
        covers(primes, primes[i] * f),
{
    let q = primes[i];
    assert forall|t: int| t > 1 && #[trigger] divides(t, q * f) && !divides(q, t) implies exists|
        j: int,
    | 0 <= j < primes.len() && divides(#[trigger] primes[j], t) by {
        lemma_quotient(t, q * f);
        let s = (q * f) / t;
        assert(q * f == f * q) by (nonlinear_arith);
        lemma_divides_multiple(q, f);
        assert(divides(q, t * s));
        assert(divides(q, t) || divides(q, s));
        lemma_quotient(q, s);
        let k = s / q;
        assert(f == k * t) by (nonlinear_arith)
            requires
                q * f == t * s,
                s == q * k,
                q > 1,
        ;
        lemma_divides_multiple(t, k);
        assert(divides(t, f));
    }
}

/// A congruence modulo `n` is one modulo each divisor of `n`.
proof fn lemma_mod_divisor(x: int, y: int, n: int, d: int)
    requires
        n > 0,
        d > 0,
        divides(d, n),
        x % n == y % n,
    ensures
        x % d == y % d,
{
    lemma_mod_equivalence(x, y, n);
    lemma_quotient(n, x - y);
    lemma_quotient(d, n);
    let (k, l) = ((x - y) / n, n / d);
    assert(x - y == (k * l) * d) by (nonlinear_arith)
        requires
            x - y == n * k,
            n == d * l,
    ;
    lemma_divides_multiple(d, k * l);
    lemma_mod_equivalence(x, y, d);
}

/// A power of a power that is congruent to 1 is congruent to 1.
proof fn lemma_power_of_one(b: int, k: nat, t: nat, d: int)
    requires
        d > 1,
        pow(b, k) % d == 1,
    ensures
        pow(b, k * t) % d == 1,
{
    lemma_pow_multiplies(b, k, t);
    lemma_pow_mod_noop(pow(b, k), t, d);
    lemma1_pow(t);
    lemma_small_mod(1, d as nat);
}

/// The least number from 1 to `k` for which the power of `b` is congruent to 1.
proof fn lemma_order_exists(b: int, d: int, k: nat) -> (res: nat)
    requires
        k > 0,
        pow(b, k) % d == 1,
    ensures
        0 < res <= k,
        pow(b, res) % d == 1,
        forall|j: nat| 0 < j < res ==> #[trigger] pow(b, j) % d != 1,
    decreases k,
{
    if exists|j: nat| 0 < j < k && #[trigger] pow(b, j) % d == 1 {
        let j = choose|j: nat| 0 < j < k && #[trigger] pow(b, j) % d == 1;
        lemma_order_exists(b, d, j)
    } else {
        k
    }
}

/// The order of `b` divides each number for which the power of `b` is congruent to 1.
proof fn lemma_order_divides(b: int, d: int, k: nat, f: nat)
    requires
        d > 1,
        k > 0,
        pow(b, k) % d == 1,
        forall|j: nat| 0 < j < k ==> #[trigger] pow(b, j) % d != 1,
        pow(b, f) % d == 1,
    ensures
        divides(k as int, f as int),
{
    let (t, s) = (f as int / k as int, f as int % k as int);
    lemma_fundamental_div_mod(f as int, k as int);
    assert(t >= 0) by (nonlinear_arith)
        requires
            f == k * t + s,
            0 <= s < k,
            f >= 0,
    ;
    lemma_power_of_one(b, k, t as nat, d);
    assert(k * t >= 0) by (nonlinear_arith)
        requires
            k > 0,
            t >= 0,
    ;
    lemma_pow_adds(b, (k * t) as nat, s as nat);
    lemma_small_mod(1, d as nat);
    lemma_cong_mul(pow(b, (k * t) as nat), 1, pow(b, s as nat), pow(b, s as nat), d);
    assert(pow(b, s as nat) % d == 1);
}

/// The order of a number modulo `d` is less than `d`: its powers are different and none is 0.
proof fn lemma_order_is_small(b: int, d: int, k: nat)
    requires
        d > 1,
        k > 0,
        pow(b, k) % d == 1,
        forall|j: nat| 0 < j < k ==> #[trigger] pow(b, j) % d != 1,
    ensures
        k < d,
{
    let powers = Seq::new(k, |i: int| pow(b, i as nat) % d);
    lemma_small_mod(1, d as nat);
    lemma_small_mod(0, d as nat);
    assert forall|i: int| 0 <= i < k implies 0 < #[trigger] powers[i] < d by {
        if powers[i] == 0 {
            lemma_pow_adds(b, i as nat, (k - i) as nat);
            let rest = pow(b, (k - i) as nat);
            lemma_cong_mul(pow(b, i as nat), 0, rest, rest, d);
            assert(0 * rest == 0);
        }
    }
    assert forall|i: int, j: int| 0 <= i < j < k implies powers[i] != powers[j] by {
        if powers[i] == powers[j] {
            // Multiplying both by the same power gives 1 too early.
            let rest = pow(b, (k - j) as nat);
            lemma_cong_mul(pow(b, i as nat), pow(b, j as nat), rest, rest, d);
            lemma_pow_adds(b, i as nat, (k - j) as nat);
            lemma_pow_adds(b, j as nat, (k - j) as nat);
            assert(pow(b, (k - (j - i)) as nat) % d == 1);
        }
    }
    assert(powers.no_duplicates());
    powers.unique_seq_to_set();
    assert forall|x: int| powers.to_set().contains(x) implies set_int_range(1, d).contains(x) by {
        let i = choose|i: int| 0 <= i < powers.len() && powers[i] == x;
        assert(0 < powers[i] < d);
    }
    lemma_int_range(1, d);
    lemma_len_subset(powers.to_set(), set_int_range(1, d));
}

/// Where `x - 1` has an inverse modulo `n`, `x` is not congruent to 1 modulo a divisor of `n`.
proof fn lemma_unit_is_not_zero(x: int, n: int, d: int)
    requires
        n > 1,
        d > 1,
        divides(d, n),
        is_unit(x - 1, n),
    ensures
        x % d != 1,
{
    lemma_small_mod(1, n as nat);
    lemma_small_mod(1, d as nat);
    lemma_small_mod(0, d as nat);
    if x % d == 1 {
        lemma_mod_equivalence(x, 1, d);
        let y = x - 1;
        let u = choose|u: int| is_inverse(u, y, n);
        lemma_mod_divisor(u * y, 1, n, d);
        lemma_cong_mul(u, u, y, 0, d);
        assert(u * 0 == 0);
    }
}

/// The order of `b` modulo `d` is `f` where the power of `b` to `f` is congruent to 1, and those to
/// the quotients of `f` by its primes are not.
proof fn lemma_order_is_full(b: int, d: int, k: nat, f: nat, primes: Seq<int>)
    requires
        d > 1,
        k > 0,
        pow(b, k) % d == 1,
        forall|j: nat| 0 < j < k ==> #[trigger] pow(b, j) % d != 1,
        f > 0,
        pow(b, f) % d == 1,
        covers(primes, f as int),
        forall|i: int|
            0 <= i < primes.len() ==> {
                let q = #[trigger] primes[i];
                q > 1 && divides(q, f as int) && pow(b, (f as int / q) as nat) % d != 1
            },
    ensures
        k == f,
{
    lemma_order_divides(b, d, k, f);
    lemma_quotient(k as int, f as int);
    let t = f as int / k as int;
    if t > 1 {
        lemma_divides_multiple(t, k as int);
        assert(divides(t, f as int));
        let i = choose|i: int| 0 <= i < primes.len() && divides(#[trigger] primes[i], t);
        let q = primes[i];
        lemma_quotient(q, t);
        let s = t / q;
        assert(s > 0) by (nonlinear_arith)
            requires
                t == q * s,
                t > 1,
                q > 1,
        ;
        lemma_quotient(q, f as int);
        let e = f as int / q;
        assert(e == k * s) by (nonlinear_arith)
            requires
                f == k * t,
                t == q * s,
                f == q * e,
                q > 1,
        ;
        lemma_power_of_one(b, k, s as nat, d);
    } else {
        assert(t == 1) by (nonlinear_arith)
            requires
                f == k * t,
                t <= 1,
                f > 0,
                k > 0,
        ;
        assert(k * 1 == k);
    }
}

/// The test of Pocklington: `n` is prime where some `b` has modulo each divisor of `n` the order
/// `f`, and `f` is so large that no divisor of `n` up to its square root leaves room for that.
pub proof fn lemma_pocklington(n: int, b: int, f: nat, primes: Seq<int>)
    requires
        n > 1,
        f > 0,
        n < f * f,
        covers(primes, f as int),
        pow(b, f) % n == 1,
        forall|i: int|
            0 <= i < primes.len() ==> {
                let q = #[trigger] primes[i];
                q > 1 && divides(q, f as int) && is_unit(pow(b, (f as int / q) as nat) - 1, n)
            },
    ensures
        is_prime(n),
{
    assert forall|d: int| 1 < d && d * d <= n implies !#[trigger] divides(d, n) by {
        if divides(d, n) {
            lemma_small_mod(1, n as nat);
            lemma_small_mod(1, d as nat);
            lemma_mod_divisor(pow(b, f), 1, n, d);
            let k = lemma_order_exists(b, d, f);
            assert forall|i: int| 0 <= i < primes.len() implies {
                let q = #[trigger] primes[i];
                q > 1 && divides(q, f as int) && pow(b, (f as int / q) as nat) % d != 1
            } by {
                lemma_unit_is_not_zero(pow(b, (f as int / primes[i]) as nat), n, d);
            }
            lemma_order_is_full(b, d, k, f, primes);
            lemma_order_is_small(b, d, k);
            assert(f * f <= d * d) by (nonlinear_arith)
                requires
                    0 < f < d,
            ;
        }
    }
    lemma_prime_without_divisors(n);
}

/// Any number of one of the primes as factors brings no divisor without one of them.
pub proof fn lemma_covers_power(primes: Seq<int>, f: int, i: int, k: nat)
    requires
        covers(primes, f),
        0 <= i < primes.len(),
        is_prime(primes[i]),
    ensures
        covers(primes, pow(primes[i], k) * f),
    decreases k,
{
    reveal(pow);
    if k == 0 {
        assert(1 * f == f);
    } else {
        let (q, p) = (primes[i], pow(primes[i], (k - 1) as nat));
        lemma_covers_power(primes, f, i, (k - 1) as nat);
        lemma_covers_multiple(primes, p * f, i);
        assert(q * (p * f) == (q * p) * f) by (nonlinear_arith);
    }
}

/// The test of Pocklington where the order is a prime number `f`.
pub proof fn lemma_pocklington_prime(n: int, b: int, f: nat, u: int)
    requires
        n > 1,
        n < f * f,
        is_prime(f as int),
        pow(b, f) % n == 1,
        is_inverse(u, b - 1, n),
    ensures
        is_prime(n),
{
    let q = f as int;
    let primes = seq![q];
    lemma_covers_one(primes);
    lemma_covers_multiple(primes, 1, 0);
    assert(q * 1 == q);
    assert(divides(q, q) && q / q == 1) by {
        lemma_divides_multiple(q, 1);
        lemma_quotient(q, q);
        assert(q / q == 1) by (nonlinear_arith)
            requires
                q == q * (q / q),
                q > 1,
        ;
    }
    reveal(pow);
    assert(pow(b, 1) == b * pow(b, 0));
    lemma_pocklington(n, b, f, primes);
}

/// `x` squared `r` times, for `r` from 1 to 4.
#[verifier::inline]
pub open spec fn squared(x: int, r: int) -> int {
    if r == 1 {
        x * x
    } else if r == 2 {
        x * x * x * x
    } else if r == 3 {
        x * x * x * x * x * x * x * x
    } else {
        x * x * x * x * x * x * x * x * x * x * x * x * x * x * x * x
    }
}

/// One step of a computation of `b` to the power of a number that is read from its highest bit
/// down: `r` bits, all 0 but for the last, which is `d`.
pub proof fn lemma_power_step(n: int, b: int, e: nat, x: int, r: int, d: int, y: int) -> (res: nat)
    requires
        n > 1,
        1 <= r <= 4,
        0 <= d <= 1,
        pow(b, e) % n == x,
        (if d == 1 {
            squared(x, r) * b
        } else {
            squared(x, r)
        }) % n == y,
    ensures
        res == if r == 1 {
            2 * e + d
        } else if r == 2 {
            4 * e + d
        } else if r == 3 {
            8 * e + d
        } else {
            16 * e + d
        },
        pow(b, res) % n == y,
{
    let p = pow(b, e);
    let p2 = p * p;
    let x2 = x * x;
    lemma_mod_twice(p, n);
    lemma_cong_mul(x, p, x, p, n);
    lemma_pow_adds(b, e, e);
    let (p4, x4) = (p2 * p2, x2 * x2);
    lemma_cong_mul(x2, p2, x2, p2, n);
    lemma_pow_adds(b, 2 * e, 2 * e);
    assert(x * x * x * x == x4) by (nonlinear_arith)
        requires
            x2 == x * x,
            x4 == x2 * x2,
    ;
    let (p8, x8) = (p4 * p4, x4 * x4);
    lemma_cong_mul(x4, p4, x4, p4, n);
    lemma_pow_adds(b, 4 * e, 4 * e);
    assert(x * x * x * x * x * x * x * x == x8) by (nonlinear_arith)
        requires
            x * x * x * x == x4,
            x8 == x4 * x4,
    ;
    let (p16, x16) = (p8 * p8, x8 * x8);
    lemma_cong_mul(x8, p8, x8, p8, n);
    lemma_pow_adds(b, 8 * e, 8 * e);
    assert(x * x * x * x * x * x * x * x * x * x * x * x * x * x * x * x == x16)
        by (nonlinear_arith)
        requires
            x * x * x * x * x * x * x * x == x8,
            x16 == x8 * x8,
    ;
    let (f, q, z): (nat, int, int) = if r == 1 {
        (2 * e, p2, x2)
    } else if r == 2 {
        (4 * e, p4, x4)
    } else if r == 3 {
        (8 * e, p8, x8)
    } else {
        (16 * e, p16, x16)
    };
    assert(pow(b, f) == q && z % n == q % n);
    lemma_pow_adds(b, f, 1);
    reveal(pow);
    assert(pow(b, 1) == b * pow(b, 0));
    lemma_cong_mul(z, q, b, b, n);
    (f + d) as nat
}

/// A power of a power.
pub proof fn lemma_power_of_power(n: int, b: int, e: nat, x: int, f: nat, y: int)
    requires
        n > 1,
        pow(b, e) % n == x,
        pow(x, f) % n == y,
    ensures
        pow(b, e * f) % n == y,
{
    lemma_pow_multiplies(b, e, f);
    lemma_pow_mod_noop(pow(b, e), f, n);
}

} // verus!
