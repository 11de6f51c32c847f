//! Elementary number theory behind the prime field: Euclid's lemma, the
//! binomial theorem, and Fermat's little theorem.
use vstd::arithmetic::div_mod::*;
use vstd::arithmetic::mul::*;
use vstd::arithmetic::power::*;
use vstd::prelude::*;

verus! {

/// `p` is a prime number.
pub open spec fn is_prime(p: int) -> bool {
    p > 1 && forall|d: int| 1 < d < p ==> #[trigger] (p % d) != 0
}

/// The binomial coefficient by Pascal's rule, over the naturals.
pub open spec fn binom(n: nat, k: nat) -> nat
    decreases n,
{
    if k == 0 {
        1
    } else if n == 0 {
        0
    } else {
        binom((n - 1) as nat, (k - 1) as nat) + binom((n - 1) as nat, k)
    }
}

proof fn lemma_binom_above(n: nat, k: nat)
    requires
        k > n,
    ensures
        binom(n, k) == 0,
    decreases n,
{
    if n > 0 {
        lemma_binom_above((n - 1) as nat, (k - 1) as nat);
        lemma_binom_above((n - 1) as nat, k);
    }
}

proof fn lemma_binom_diagonal(n: nat)
    ensures
        binom(n, n) == 1,
    decreases n,
{
    if n > 0 {
        lemma_binom_diagonal((n - 1) as nat);
        lemma_binom_above((n - 1) as nat, n);
    }
}

/// Absorption: `k · C(n, k) = n · C(n - 1, k - 1)`.
proof fn lemma_absorption(n: nat, k: nat)
    requires
        n >= 1,
        k >= 1,
    ensures
        k * binom(n, k) == n * binom((n - 1) as nat, (k - 1) as nat),
    decreases n,
{
    if n == 1 {
        if k > 1 {
            lemma_binom_above(0, (k - 1) as nat);
            lemma_binom_above(0, k);
            lemma_binom_above(1, k);
            assert(k * binom(n, k) == n * binom((n - 1) as nat, (k - 1) as nat)) by (nonlinear_arith)
                requires
                    binom(n, k) == 0,
                    binom((n - 1) as nat, (k - 1) as nat) == 0,
            ;
        } else {
            assert(binom(0, 1) == 0);
            assert(binom(1, 1) == 1);
            assert(binom(0, 0) == 1);
        }
    } else if k == 1 {
        lemma_absorption((n - 1) as nat, 1);
        assert(binom((n - 2) as nat, 0) == 1);
        assert(binom((n - 1) as nat, 1) == n - 1) by (nonlinear_arith)
            requires
                1 * binom((n - 1) as nat, 1) == (n - 1) * binom((n - 2) as nat, 0),
                binom((n - 2) as nat, 0) == 1,
        ;
        assert(binom((n - 1) as nat, 0) == 1);
        assert(binom(n, 1) == n);
        assert(1 * binom(n, 1) == n * binom((n - 1) as nat, 0)) by (nonlinear_arith)
            requires
                binom(n, 1) == n,
                binom((n - 1) as nat, 0) == 1,
        ;
    } else {
        let n1 = (n - 1) as nat;
        let k1 = (k - 1) as nat;
        lemma_absorption(n1, k1);
        lemma_absorption(n1, k);
        let a = binom(n1, k1);
        let b = binom(n1, k);
        let c = binom((n1 - 1) as nat, (k1 - 1) as nat);
        let d = binom((n1 - 1) as nat, k1);
        assert(a == c + d);
        assert(binom(n, k) == a + b);
        assert(k * (a + b) == n * a) by (nonlinear_arith)
            requires
                k1 * a == n1 * c,
                k * b == n1 * d,
                a == c + d,
                k == k1 + 1,
                n == n1 + 1,
        ;
    }
}

/// Euclid's lemma for a prime modulus and a factor strictly between 0 and `p`.
proof fn lemma_euclid(p: int, a: int, b: int)
    requires
        is_prime(p),
        0 < a < p,
        (a * b) % p == 0,
    ensures
        b % p == 0,
    decreases a,
{
    if a == 1 {
        assert(a * b == b) by (nonlinear_arith)
            requires
                a == 1,
        ;
    } else {
        let q = p / a;
        let r = p % a;
        lemma_fundamental_div_mod(p, a);
        assert(r != 0);
        lemma_mod_bound(p, a);
        lemma_fundamental_div_mod(a * b, p);
        let t = (a * b) / p;
        assert(a * b == p * t);
        assert(r * b == p * (b - q * t)) by (nonlinear_arith)
            requires
                p == a * q + r,
                a * b == p * t,
        ;
        lemma_mod_multiples_basic(b - q * t, p);
        lemma_mul_is_commutative(b - q * t, p);
        lemma_euclid(p, r, b);
    }
}

/// A prime divides `C(p, k)` for `0 < k < p`.
proof fn lemma_prime_divides_binom(p: nat, k: nat)
    requires
        is_prime(p as int),
        0 < k < p,
    ensures
        (binom(p, k) as int) % (p as int) == 0,
{
    lemma_absorption(p, k);
    let c = binom((p - 1) as nat, (k - 1) as nat);
    lemma_mod_multiples_basic(c as int, p as int);
    lemma_mul_is_commutative(c as int, p as int);
    lemma_euclid(p as int, k as int, binom(p, k) as int);
}

/// `Σ_{i <= j} C(n, i) a^i`.
pub open spec fn binom_sum(n: nat, a: int, j: nat) -> int
    decreases j,
{
    if j == 0 {
        1
    } else {
        binom_sum(n, a, (j - 1) as nat) + binom(n, j) * pow(a, j)
    }
}

proof fn lemma_binom_sum_step(n: nat, a: int, j: nat)
    requires
        j >= 1,
    ensures
        binom_sum(n + 1, a, j) == binom_sum(n, a, j) + a * binom_sum(n, a, (j - 1) as nat),
    decreases j,
{
    lemma_pow_adds(a, 1, (j - 1) as nat);
    lemma_pow1(a);
    let pj = pow(a, j);
    let pj1 = pow(a, (j - 1) as nat);
    assert(pj == a * pj1);
    if j == 1 {
        lemma_pow0(a);
        assert(binom(n + 1, j) == binom(n, 0) + binom(n, j));
        assert(binom_sum(n + 1, a, 0) == 1);
        assert(binom_sum(n, a, 0) == 1);
        assert(binom_sum(n + 1, a, j) == 1 + binom(n + 1, j) * pj);
        assert(binom_sum(n, a, j) == 1 + binom(n, j) * pj);
        assert(binom_sum(n + 1, a, j) == binom_sum(n, a, j) + a * 1) by (nonlinear_arith)
            requires
                binom_sum(n + 1, a, j) == 1 + binom(n + 1, j) * pj,
                binom_sum(n, a, j) == 1 + binom(n, j) * pj,
                binom(n + 1, j) == 1 + binom(n, j),
                pj == a * 1,
        ;
    } else {
        lemma_binom_sum_step(n, a, (j - 1) as nat);
        let s1 = binom_sum(n, a, (j - 1) as nat);
        let s2 = binom_sum(n, a, (j - 2) as nat);
        let cj1 = binom(n, (j - 1) as nat);
        let cj = binom(n, j);
        assert(binom(n + 1, j) == cj1 + cj);
        assert(s1 == s2 + cj1 * pj1);
        assert(binom_sum(n + 1, a, j) == binom_sum(n + 1, a, (j - 1) as nat) + binom(n + 1, j) * pj);
        assert(binom_sum(n + 1, a, j) == s1 + cj * pj + a * s1) by (nonlinear_arith)
            requires
                binom_sum(n + 1, a, j) == binom_sum(n + 1, a, (j - 1) as nat) + (cj1 + cj) * pj,
                binom_sum(n + 1, a, (j - 1) as nat) == s1 + a * s2,
                s1 == s2 + cj1 * pj1,
                pj == a * pj1,
        ;
    }
}

proof fn lemma_binom_sum_tail(n: nat, a: int, j: nat)
    requires
        j >= n,
    ensures
        binom_sum(n, a, j) == binom_sum(n, a, n),
    decreases j,
{
    if j > n {
        lemma_binom_sum_tail(n, a, (j - 1) as nat);
        lemma_binom_above(n, j);
    }
}

/// The binomial theorem: `(a + 1)^n = Σ_{i <= n} C(n, i) a^i`.
proof fn lemma_binomial_theorem(n: nat, a: int)
    ensures
        binom_sum(n, a, n) == pow(a + 1, n),
    decreases n,
{
    if n == 0 {
        lemma_pow0(a + 1);
    } else {
        let m = (n - 1) as nat;
        lemma_binomial_theorem(m, a);
        lemma_binom_sum_step(m, a, n);
        lemma_binom_sum_tail(m, a, n);
        lemma_pow_adds(a + 1, 1, m);
        lemma_pow1(a + 1);
        let s = binom_sum(m, a, m);
        assert(binom_sum(n, a, n) == s + a * s);
        assert(pow(a + 1, n) == (a + 1) * s);
        assert(s + a * s == (a + 1) * s) by (nonlinear_arith);
    }
}

proof fn lemma_binom_sum_mod_prime(p: nat, a: int, j: nat)
    requires
        is_prime(p as int),
        j < p,
    ensures
        binom_sum(p, a, j) % (p as int) == 1,
    decreases j,
{
    let m = p as int;
    if j == 0 {
        lemma_small_mod(1, p);
    } else {
        lemma_binom_sum_mod_prime(p, a, (j - 1) as nat);
        lemma_prime_divides_binom(p, j);
        let c = binom(p, j) as int;
        lemma_fundamental_div_mod(c, m);
        let t = c / m;
        assert(c * pow(a, j) == m * (t * pow(a, j))) by (nonlinear_arith)
            requires
                c == m * t,
        ;
        lemma_mod_multiples_basic(t * pow(a, j), m);
        lemma_mul_is_commutative(t * pow(a, j), m);
        lemma_add_mod_noop(binom_sum(p, a, (j - 1) as nat), c * pow(a, j), m);
        lemma_small_mod(1, p);
    }
}

/// `(a + 1)^p ≡ a^p + 1 (mod p)`.
proof fn lemma_freshman(p: nat, a: int)
    requires
        is_prime(p as int),
    ensures
        pow(a + 1, p) % (p as int) == (pow(a, p) + 1) % (p as int),
{
    let m = p as int;
    lemma_binomial_theorem(p, a);
    lemma_binom_sum_mod_prime(p, a, (p - 1) as nat);
    lemma_binom_diagonal(p);
    assert(binom_sum(p, a, p) == binom_sum(p, a, (p - 1) as nat) + pow(a, p));
    lemma_add_mod_noop(binom_sum(p, a, (p - 1) as nat), pow(a, p), m);
    lemma_add_mod_noop(1, pow(a, p), m);
    lemma_small_mod(1, p);
}

/// `a^p ≡ a (mod p)`.
proof fn lemma_fermat_power(p: nat, a: nat)
    requires
        is_prime(p as int),
    ensures
        pow(a as int, p) % (p as int) == (a as int) % (p as int),
    decreases a,
{
    let m = p as int;
    if a == 0 {
        lemma0_pow(p);
    } else {
        let b = (a - 1) as nat;
        lemma_fermat_power(p, b);
        lemma_freshman(p, b as int);
        lemma_add_mod_noop(pow(b as int, p), 1, m);
        lemma_add_mod_noop(b as int, 1, m);
    }
}

/// Fermat's little theorem in inverse form: `a · a^(p-2) ≡ 1 (mod p)` for
/// `0 < a < p`.
pub proof fn lemma_fermat_inverse(p: nat, a: nat)
    requires
        is_prime(p as int),
        0 < a < p,
    ensures
        ((a as int) * pow(a as int, (p - 2) as nat)) % (p as int) == 1,
{
    let m = p as int;
    let x = a as int;
    lemma_fermat_power(p, a);
    lemma_pow_adds(x, 1, (p - 1) as nat);
    lemma_pow1(x);
    let e = pow(x, (p - 1) as nat);
    assert(pow(x, p) == x * e);
    lemma_small_mod(a, p);
    assert((x * e) % m == x);
    // p | x · (e - 1)
    lemma_fundamental_div_mod(x * e, m);
    let t = (x * e) / m;
    assert(x * (e - 1) == m * t) by (nonlinear_arith)
        requires
            x * e == m * t + x,
    ;
    lemma_mod_multiples_basic(t, m);
    lemma_mul_is_commutative(t, m);
    lemma_euclid(m, x, e - 1);
    lemma_fundamental_div_mod(e - 1, m);
    let u = (e - 1) / m;
    assert(e == m * u + 1);
    lemma_mod_multiples_vanish(u, 1, m);
    lemma_small_mod(1, p);
    lemma_pow_adds(x, 1, (p - 2) as nat);
    assert(pow(x, (p - 1) as nat) == x * pow(x, (p - 2) as nat));
}

} // verus!
