//! Sums, polynomials and congruences over the integers.
//!
//! Everything that the commitment scheme computes is an integer modulo the order of its groups.
//! The functions of this module give those integers, and its lemmas carry congruences through
//! sums and polynomials.
use vstd::arithmetic::div_mod::{
    lemma_add_mod_noop, lemma_mod_twice, lemma_mul_mod_noop, lemma_small_mod, lemma_sub_mod_noop,
};
use vstd::arithmetic::power::pow;
use vstd::prelude::*;

verus! {

/// The sum of `a[i] * b[i]` over the first `n` indices.
pub open spec fn dot(a: Seq<int>, b: Seq<int>, n: int) -> int
    decreases n,
{
    if n <= 0 {
        0
    } else {
        dot(a, b, n - 1) + a[n - 1] * b[n - 1]
    }
}

/// The smaller of two lengths.
pub open spec fn min_len(a: nat, b: nat) -> nat {
    if a <= b {
        a
    } else {
        b
    }
}

/// The sum of `a[i] * b[i]` over the indices that both sequences have.
pub open spec fn inner_product(a: Seq<int>, b: Seq<int>) -> int {
    dot(a, b, min_len(a.len(), b.len()) as int)
}

/// The value at `x` of the polynomial whose coefficient of `X^i` is `p[i]`.
pub open spec fn eval(p: Seq<int>, x: int) -> int
    decreases p.len(),
{
    if p.len() == 0 {
        0
    } else {
        p[0] + x * eval(p.skip(1), x)
    }
}

/// The coefficient of `X^i` in the polynomial `p`, which is 0 beyond the end of the sequence.
pub open spec fn coefficient(p: Seq<int>, i: int) -> int {
    if 0 <= i < p.len() {
        p[i]
    } else {
        0
    }
}

/// The sum of `coefficient(p, j) * coefficient(q, i - j)` over `0 <= j < n`.
pub open spec fn convolution(p: Seq<int>, q: Seq<int>, i: int, n: int) -> int
    decreases n,
{
    if n <= 0 {
        0
    } else {
        convolution(p, q, i, n - 1) + coefficient(p, n - 1) * coefficient(q, i - (n - 1))
    }
}

/// The coefficient of `X^i` in the product of the polynomials `p` and `q`.
pub open spec fn product_coefficient(p: Seq<int>, q: Seq<int>, i: int) -> int {
    convolution(p, q, i, i + 1)
}

/// No leading coefficient of `p` is 0: the zero polynomial has no coefficient at all.
pub open spec fn is_normalized(p: Seq<int>) -> bool {
    p.len() > 0 ==> p.last() != 0
}

/// `p` without the zeros at its end.
pub open spec fn normalize(p: Seq<int>) -> Seq<int>
    decreases p.len(),
{
    if p.len() > 0 && p.last() == 0 {
        normalize(p.drop_last())
    } else {
        p
    }
}

/// Dividing `p` by `d` modulo `m` gives the quotient `q` and the remainder `r`: `p` and
/// `q * d + r` agree modulo `m` in each coefficient, and `r` is shorter than `d`.
pub open spec fn is_division(p: Seq<int>, d: Seq<int>, q: Seq<int>, r: Seq<int>, m: int) -> bool {
    &&& r.len() < d.len()
    &&& forall|i: int|
        0 <= i ==> #[trigger] coefficient(p, i) % m == (product_coefficient(q, d, i)
            + coefficient(r, i)) % m
}

/// `q` is the quotient of `p` by `d` modulo `m`.
pub open spec fn is_quotient(p: Seq<int>, d: Seq<int>, q: Seq<int>, m: int) -> bool {
    exists|r: Seq<int>| #[trigger] is_division(p, d, q, r, m)
}

/// The quotient of `p` by `X - z` modulo `m`: its coefficient of `X^i` is the value at `z` of the
/// polynomial that is left of `p` when the coefficients up to that of `X^i` are taken away.
pub open spec fn witness(p: Seq<int>, z: int, m: int) -> Seq<int> {
    Seq::new(
        if p.len() == 0 {
            0
        } else {
            (p.len() - 1) as nat
        },
        |i: int| eval(p.skip(i + 1), z) % m,
    )
}

/// Adding keeps congruence.
pub proof fn lemma_cong_add(a: int, b: int, c: int, d: int, m: int)
    requires
        m > 0,
        a % m == b % m,
        c % m == d % m,
    ensures
        (a + c) % m == (b + d) % m,
{
    lemma_add_mod_noop(a, c, m);
    lemma_add_mod_noop(b, d, m);
}

/// Subtracting keeps congruence.
pub proof fn lemma_cong_sub(a: int, b: int, c: int, d: int, m: int)
    requires
        m > 0,
        a % m == b % m,
        c % m == d % m,
    ensures
        (a - c) % m == (b - d) % m,
{
    lemma_sub_mod_noop(a, c, m);
    lemma_sub_mod_noop(b, d, m);
}

/// Multiplying keeps congruence.
pub proof fn lemma_cong_mul(a: int, b: int, c: int, d: int, m: int)
    requires
        m > 0,
        a % m == b % m,
        c % m == d % m,
    ensures
        (a * c) % m == (b * d) % m,
{
    lemma_mul_mod_noop(a, c, m);
    lemma_mul_mod_noop(b, d, m);
}

/// Sums of products of congruent terms are congruent.
pub proof fn lemma_dot_cong(a: Seq<int>, b: Seq<int>, c: Seq<int>, d: Seq<int>, n: int, m: int)
    requires
        m > 0,
        forall|i: int| 0 <= i < n ==> #[trigger] a[i] % m == c[i] % m,
        forall|i: int| 0 <= i < n ==> #[trigger] b[i] % m == d[i] % m,
    ensures
        dot(a, b, n) % m == dot(c, d, n) % m,
    decreases n,
{
    if n > 0 {
        lemma_dot_cong(a, b, c, d, n - 1, m);
        assert(a[n - 1] % m == c[n - 1] % m && b[n - 1] % m == d[n - 1] % m);
        lemma_cong_mul(a[n - 1], c[n - 1], b[n - 1], d[n - 1], m);
        lemma_cong_add(
            dot(a, b, n - 1),
            dot(c, d, n - 1),
            a[n - 1] * b[n - 1],
            c[n - 1] * d[n - 1],
            m,
        );
    }
}

/// A sum reads its sequences only below its bound.
pub proof fn lemma_dot_ext(a: Seq<int>, b: Seq<int>, c: Seq<int>, d: Seq<int>, n: int)
    requires
        forall|i: int| 0 <= i < n ==> #[trigger] a[i] == c[i],
        forall|i: int| 0 <= i < n ==> #[trigger] b[i] == d[i],
    ensures
        dot(a, b, n) == dot(c, d, n),
    decreases n,
{
    if n > 0 {
        lemma_dot_ext(a, b, c, d, n - 1);
        assert(a[n - 1] == c[n - 1] && b[n - 1] == d[n - 1]);
    }
}

/// Terms at the front whose second factor is 0 can be left out of a sum.
pub proof fn lemma_dot_skip_zeros(a: Seq<int>, b: Seq<int>, k: int, n: int)
    requires
        0 <= k <= n,
        n <= a.len(),
        n <= b.len(),
        forall|i: int| 0 <= i < k ==> #[trigger] b[i] == 0,
    ensures
        dot(a, b, n) == dot(a.skip(k), b.skip(k), n - k),
    decreases n,
{
    if n > k {
        lemma_dot_skip_zeros(a, b, k, n - 1);
        assert(a.skip(k)[n - k - 1] == a[n - 1]);
        assert(b.skip(k)[n - k - 1] == b[n - 1]);
    } else if n > 0 {
        lemma_dot_skip_zeros(a, b, k - 1, n - 1);
        assert(b[n - 1] == 0);
        assert(a[n - 1] * b[n - 1] == 0);
        assert(dot(a.skip(k - 1), b.skip(k - 1), 0) == 0);
    }
}

/// A sum is additive in its second factors.
pub proof fn lemma_dot_add(a: Seq<int>, b: Seq<int>, c: Seq<int>, s: Seq<int>, n: int)
    requires
        forall|i: int| 0 <= i < n ==> #[trigger] s[i] == b[i] + c[i],
    ensures
        dot(a, s, n) == dot(a, b, n) + dot(a, c, n),
    decreases n,
{
    if n > 0 {
        lemma_dot_add(a, b, c, s, n - 1);
        assert(s[n - 1] == b[n - 1] + c[n - 1]);
        assert(a[n - 1] * (b[n - 1] + c[n - 1]) == a[n - 1] * b[n - 1] + a[n - 1] * c[n - 1])
            by (nonlinear_arith);
    }
}

/// A common multiple of the second factors is a multiple of the sum.
pub proof fn lemma_dot_scale(a: Seq<int>, b: Seq<int>, k: int, s: Seq<int>, n: int)
    requires
        forall|i: int| 0 <= i < n ==> #[trigger] s[i] == k * b[i],
    ensures
        dot(a, s, n) == k * dot(a, b, n),
    decreases n,
{
    if n > 0 {
        lemma_dot_scale(a, b, k, s, n - 1);
        assert(s[n - 1] == k * b[n - 1]);
        let (x, y, d) = (a[n - 1], b[n - 1], dot(a, b, n - 1));
        assert(k * d + x * (k * y) == k * (d + x * y)) by (nonlinear_arith);
    }
}

/// The value of a polynomial is the sum of its coefficients times the powers of the point.
pub proof fn lemma_eval_is_dot(p: Seq<int>, x: int, powers: Seq<int>)
    requires
        powers.len() >= p.len(),
        forall|i: int| 0 <= i < p.len() ==> #[trigger] powers[i] == pow(x, i as nat),
    ensures
        eval(p, x) == dot(powers, p, p.len() as int),
{
    lemma_eval_tail(p, x, powers, 0);
    assert(p.skip(0) =~= p);
    reveal(pow);
}

/// What the coefficients from `k` on add to the value of a polynomial.
proof fn lemma_eval_tail(p: Seq<int>, x: int, powers: Seq<int>, k: int)
    requires
        0 <= k <= p.len(),
        powers.len() >= p.len(),
        forall|i: int| 0 <= i < p.len() ==> #[trigger] powers[i] == pow(x, i as nat),
    ensures
        dot(powers, p, p.len() as int) == dot(powers, p, k) + pow(x, k as nat) * eval(p.skip(k), x),
    decreases p.len() - k,
{
    if k < p.len() {
        lemma_eval_tail(p, x, powers, k + 1);
        assert(p.skip(k).skip(1) =~= p.skip(k + 1));
        assert(powers[k] == pow(x, k as nat));
        reveal(pow);
        let (e, w) = (eval(p.skip(k + 1), x), pow(x, k as nat));
        assert(pow(x, (k + 1) as nat) == x * w);
        assert(w * (p[k] + x * e) == w * p[k] + (x * w) * e) by (nonlinear_arith);
    }
}

/// Normalizing keeps the front of a sequence and drops only zeros.
pub proof fn lemma_normalize(p: Seq<int>)
    ensures
        is_normalized(normalize(p)),
        normalize(p).len() <= p.len(),
        normalize(p) == p.take(normalize(p).len() as int),
        forall|i: int| normalize(p).len() <= i < p.len() ==> #[trigger] p[i] == 0,
    decreases p.len(),
{
    if p.len() > 0 && p.last() == 0 {
        lemma_normalize(p.drop_last());
        let n = normalize(p).len() as int;
        assert(p.drop_last().take(n) =~= p.take(n));
        assert forall|i: int| n <= i < p.len() implies #[trigger] p[i] == 0 by {
            if i < p.len() - 1 {
                assert(p.drop_last()[i] == p[i]);
            }
        }
    } else {
        assert(p.take(p.len() as int) =~= p);
    }
}

/// The terms of a product with a divisor of degree 1 that come before the last two are 0.
proof fn lemma_convolution_linear(q: Seq<int>, d: Seq<int>, i: int, n: int)
    requires
        d.len() == 2,
        n < i,
    ensures
        convolution(q, d, i, n) == 0,
    decreases n,
{
    if n > 0 {
        lemma_convolution_linear(q, d, i, n - 1);
        assert(coefficient(d, i - (n - 1)) == 0);
        assert(coefficient(q, n - 1) * 0 == 0);
    }
}

/// The coefficients of a product with `d[0] + d[1] * X`.
pub proof fn lemma_product_linear(q: Seq<int>, d: Seq<int>, i: int)
    requires
        d.len() == 2,
        0 <= i,
    ensures
        product_coefficient(q, d, i) == coefficient(q, i - 1) * d[1] + coefficient(q, i) * d[0],
{
    lemma_convolution_linear(q, d, i, i - 1);
    assert(convolution(q, d, i, i + 1) == convolution(q, d, i, i) + coefficient(q, i) * coefficient(
        d,
        i - i,
    ));
    if i > 0 {
        assert(convolution(q, d, i, i) == convolution(q, d, i, i - 1) + coefficient(q, i - 1)
            * coefficient(d, i - (i - 1)));
    } else {
        assert(coefficient(q, i - 1) * d[1] == 0);
    }
}

/// The values of the tails of a polynomial follow from one another.
pub proof fn lemma_eval_step(p: Seq<int>, z: int, i: int)
    requires
        0 <= i < p.len(),
    ensures
        eval(p.skip(i), z) == p[i] + z * eval(p.skip(i + 1), z),
{
    assert(p.skip(i).skip(1) =~= p.skip(i + 1));
    assert(p.skip(i)[0] == p[i]);
}

/// The value of a polynomial with one more coefficient.
pub proof fn lemma_eval_push(p: Seq<int>, a: int, x: int)
    ensures
        eval(p.push(a), x) == eval(p, x) + a * pow(x, p.len()),
    decreases p.len(),
{
    reveal(pow);
    let q = p.push(a);
    if p.len() == 0 {
        assert(eval(q.skip(1), x) == 0);
        assert(pow(x, p.len()) == 1);
        assert(x * 0 == 0 && a * 1 == a);
    } else {
        assert(q.skip(1) =~= p.skip(1).push(a));
        lemma_eval_push(p.skip(1), a, x);
        let (e, w) = (eval(p.skip(1), x), pow(x, (p.len() - 1) as nat));
        assert(pow(x, p.len()) == x * w);
        assert(x * (e + a * w) == x * e + a * (x * w)) by (nonlinear_arith);
    }
}

/// Dividing by `X - z` leaves one quotient only, and `witness` gives it.
pub proof fn lemma_division_by_linear(
    p: Seq<int>,
    d: Seq<int>,
    q: Seq<int>,
    r: Seq<int>,
    z: int,
    m: int,
)
    requires
        m > 1,
        d.len() == 2,
        d[0] % m == (-z) % m,
        d[1] == 1,
        is_normalized(p),
        is_normalized(q),
        forall|i: int| 0 <= i < p.len() ==> 0 <= #[trigger] p[i] < m,
        forall|i: int| 0 <= i < q.len() ==> 0 <= #[trigger] q[i] < m,
        is_division(p, d, q, r, m),
    ensures
        q == witness(p, z, m),
{
    assert forall|i: int| 1 <= i implies #[trigger] coefficient(p, i) % m == (coefficient(q, i - 1)
        - z * coefficient(q, i)) % m by {
        lemma_product_linear(q, d, i);
        assert(coefficient(r, i) == 0);
        let (a, b) = (coefficient(q, i - 1), coefficient(q, i));
        lemma_cong_mul(b, b, d[0], -z, m);
        lemma_cong_add(a, a, b * d[0], b * (-z), m);
        assert(b * (-z) == -(z * b)) by (nonlinear_arith);
    }
    let n = q.len() as int;
    if n > 0 {
        // The leading coefficient of the quotient is that of `p`.
        assert(coefficient(q, n) == 0 && z * coefficient(q, n) == 0);
        assert(coefficient(p, n) % m == coefficient(q, n - 1) % m);
        lemma_small_mod(q[n - 1] as nat, m as nat);
        lemma_small_mod(0, m as nat);
        assert(coefficient(p, n) != 0);
        assert(p.len() > n);
    }
    if p.len() > n + 1 {
        let k = p.len() - 1;
        assert(coefficient(q, k) == 0 && coefficient(q, k - 1) == 0 && z * coefficient(q, k) == 0);
        assert(coefficient(p, k) % m == 0int % m);
        lemma_small_mod(p[k] as nat, m as nat);
        lemma_small_mod(0, m as nat);
        assert(false);
    }
    assert forall|i: int| 0 <= i < n implies #[trigger] q[i] == eval(p.skip(i + 1), z) % m by {
        lemma_quotient_tail(p, q, z, m, i);
    }
    assert(q =~= witness(p, z, m));
}

/// The coefficients of a quotient by `X - z` are the values at `z` of the tails of the dividend.
proof fn lemma_quotient_tail(p: Seq<int>, q: Seq<int>, z: int, m: int, i: int)
    requires
        m > 1,
        p.len() == q.len() + 1,
        0 <= i < q.len(),
        forall|j: int| 0 <= j < q.len() ==> 0 <= #[trigger] q[j] < m,
        forall|j: int|
            1 <= j ==> #[trigger] coefficient(p, j) % m == (coefficient(q, j - 1) - z * coefficient(
                q,
                j,
            )) % m,
    ensures
        q[i] == eval(p.skip(i + 1), z) % m,
    decreases q.len() - i,
{
    lemma_eval_step(p, z, i + 1);
    let (a, b, t) = (q[i], coefficient(q, i + 1), eval(p.skip(i + 2), z));
    assert(coefficient(p, i + 1) % m == (a - z * b) % m);
    if i + 1 < q.len() {
        lemma_quotient_tail(p, q, z, m, i + 1);
        lemma_mod_twice(t, m);
    } else {
        assert(p.skip(i + 2).len() == 0);
        assert(t == 0 && b == 0);
    }
    assert(b % m == t % m);
    lemma_cong_mul(z, z, b, t, m);
    lemma_cong_add(p[i + 1], a - z * b, z * t, z * b, m);
    lemma_small_mod(a as nat, m as nat);
}

/// `p` is `X - z` times its witness plus its value at `z`, coefficient by coefficient.
pub proof fn lemma_witness_divides(p: Seq<int>, z: int, m: int, i: int)
    requires
        m > 1,
        0 <= i,
    ensures
        coefficient(p, i) % m == (product_coefficient(witness(p, z, m), seq![-z, 1], i)
            + coefficient(seq![eval(p, z)], i)) % m,
{
    let w = witness(p, z, m);
    lemma_product_linear(w, seq![-z, 1], i);
    let t = |j: int| eval(p.skip(j), z);
    if i < p.len() {
        lemma_eval_step(p, z, i);
        // The coefficients of the witness stand for the tails' values.
        let a = coefficient(w, i);
        if i + 1 < p.len() {
            lemma_mod_twice(t(i + 1), m);
        } else {
            assert(p.skip(i + 1).len() == 0);
        }
        assert(a % m == t(i + 1) % m);
        lemma_cong_mul(a, t(i + 1), -z, -z, m);
        assert(t(i + 1) * (-z) == -(z * t(i + 1))) by (nonlinear_arith);
        let b = coefficient(w, i - 1) * 1 + coefficient(seq![eval(p, z)], i);
        if i == 0 {
            assert(p.skip(0) =~= p);
        } else {
            lemma_mod_twice(t(i), m);
        }
        assert(b % m == t(i) % m);
        lemma_cong_add(b, t(i), a * (-z), t(i + 1) * (-z), m);
    } else {
        assert(coefficient(w, i) == 0);
        assert(coefficient(w, i - 1) == 0);
        assert(0 * (-z) == 0);
        if i == 0 {
            assert(eval(p, z) == 0);
        }
    }
}

/// The factors of a sum of products can change places.
pub proof fn lemma_dot_comm(a: Seq<int>, b: Seq<int>, n: int)
    ensures
        dot(a, b, n) == dot(b, a, n),
    decreases n,
{
    if n > 0 {
        lemma_dot_comm(a, b, n - 1);
        assert(a[n - 1] * b[n - 1] == b[n - 1] * a[n - 1]) by (nonlinear_arith);
    }
}

/// A sum of one term whose first factor is 1.
pub proof fn lemma_dot_one(a: Seq<int>, b: Seq<int>)
    requires
        a[0] == 1,
    ensures
        dot(a, b, 1) == b[0],
{
    assert(dot(a, b, 0) == 0);
    assert(a[0] * b[0] == b[0]);
}

/// A sum is congruent to one term where the second factors of the others are multiples of the
/// modulus.
pub proof fn lemma_dot_single(a: Seq<int>, b: Seq<int>, j: int, n: int, m: int)
    requires
        m > 0,
        0 <= j,
        forall|i: int| 0 <= i < n && i != j ==> #[trigger] b[i] % m == 0,
    ensures
        dot(a, b, n) % m == if j < n {
            a[j] * b[j] % m
        } else {
            0
        },
    decreases n,
{
    lemma_small_mod(0, m as nat);
    if n > 0 {
        lemma_dot_single(a, b, j, n - 1, m);
        let (x, y) = (a[n - 1], b[n - 1]);
        if j == n - 1 {
            lemma_cong_add(dot(a, b, n - 1), 0, x * y, x * y, m);
        } else {
            assert(y % m == 0);
            lemma_cong_mul(x, x, y, 0, m);
            assert(x * 0 == 0);
            lemma_cong_add(dot(a, b, n - 1), dot(a, b, n - 1), x * y, 0, m);
        }
    }
}

/// A sum over the coefficients of a polynomial can go on with zeros.
pub proof fn lemma_dot_padded(a: Seq<int>, p: Seq<int>)
    requires
        p.len() <= a.len(),
    ensures
        dot(a, p, p.len() as int) == dot(
            a,
            Seq::new(a.len(), |i: int| coefficient(p, i)),
            a.len() as int,
        ),
{
    let padded = Seq::new(a.len(), |i: int| coefficient(p, i));
    lemma_dot_ext(a, p, a, padded, p.len() as int);
    lemma_dot_zeros(a, padded, p.len() as int, a.len() as int);
}

/// Terms whose second factor is 0 add nothing to the end of a sum.
proof fn lemma_dot_zeros(a: Seq<int>, b: Seq<int>, k: int, n: int)
    requires
        0 <= k <= n,
        forall|i: int| k <= i < n ==> #[trigger] b[i] == 0,
    ensures
        dot(a, b, n) == dot(a, b, k),
    decreases n,
{
    if n > k {
        lemma_dot_zeros(a, b, k, n - 1);
        assert(b[n - 1] == 0);
        assert(a[n - 1] * 0 == 0);
    }
}

/// The value of a polynomial at `x` is `x - z` times that of its witness plus its value at `z`.
pub proof fn lemma_witness_value(p: Seq<int>, z: int, x: int, m: int)
    requires
        m > 1,
    ensures
        eval(p, x) % m == ((x - z) * eval(witness(p, z, m), x) + eval(p, z)) % m,
{
    let w = witness(p, z, m);
    if p.len() == 0 {
        assert((x - z) * 0 == 0);
    } else {
        lemma_witness_value_tail(p, z, x, m, 0);
        assert(p.skip(0) =~= p);
        assert(w.skip(0) =~= w);
    }
}

/// The values of the tails of a polynomial and of its witness.
proof fn lemma_witness_value_tail(p: Seq<int>, z: int, x: int, m: int, k: int)
    requires
        m > 1,
        0 <= k < p.len(),
    ensures
        eval(p.skip(k), x) % m == ((x - z) * eval(witness(p, z, m).skip(k), x) + eval(p.skip(k), z))
            % m,
    decreases p.len() - k,
{
    let w = witness(p, z, m);
    lemma_eval_step(p, z, k);
    lemma_eval_step(p, x, k);
    if k + 1 == p.len() {
        assert(w.skip(k).len() == 0);
        assert(p.skip(k + 1).len() == 0);
        assert((x - z) * 0 == 0);
        assert(x * 0 == 0);
        assert(z * 0 == 0);
    } else {
        lemma_witness_value_tail(p, z, x, m, k + 1);
        lemma_eval_step(w, x, k);
        let (u, t, v) = (eval(p.skip(k + 1), x), eval(p.skip(k + 1), z), eval(w.skip(k + 1), x));
        lemma_cong_mul(x, x, u, (x - z) * v + t, m);
        lemma_cong_add(p[k], p[k], x * u, x * ((x - z) * v + t), m);
        assert(p[k] + x * ((x - z) * v + t) == (x - z) * (t + x * v) + (p[k] + z * t))
            by (nonlinear_arith);
        assert(w[k] == t % m);
        lemma_mod_twice(t, m);
        lemma_cong_add(w[k], t, x * v, x * v, m);
        lemma_cong_mul(x - z, x - z, w[k] + x * v, t + x * v, m);
        lemma_cong_add(
            (x - z) * (w[k] + x * v),
            (x - z) * (t + x * v),
            p[k] + z * t,
            p[k] + z * t,
            m,
        );
    }
}

} // verus!
