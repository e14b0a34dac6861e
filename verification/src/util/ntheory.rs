//! Elementary number theory on machine integers: primality, factorization,
//! greatest common divisors and modular inverses.
use vstd::arithmetic::div_mod::*;
use vstd::arithmetic::mul::*;
use vstd::prelude::*;

verus! {

/// `n` is a prime number.
pub open spec fn spec_is_prime(n: int) -> bool {
    n >= 2 && forall|d: int| 2 <= d < n ==> #[trigger] (n % d) != 0
}

/// The greatest common divisor, by Euclid's recursion.
pub open spec fn spec_gcd(a: nat, b: nat) -> nat
    decreases b,
{
    if b == 0 {
        a
    } else {
        spec_gcd(b, a % b)
    }
}

/// The product of a sequence of factors.
pub open spec fn seq_product(s: Seq<u32>) -> nat
    decreases s.len(),
{
    if s.len() == 0 {
        1
    } else {
        seq_product(s.drop_last()) * (s.last() as nat)
    }
}

/// The sequence is sorted in non-decreasing order.
pub open spec fn is_sorted(s: Seq<u32>) -> bool {
    forall|i: int, j: int| 0 <= i <= j < s.len() ==> s[i] <= s[j]
}

/// Divisibility is transitive.
pub proof fn lemma_divides_trans(n: int, d: int, k: int)
    requires
        k > 0,
        d > 0,
        n % d == 0,
        d % k == 0,
    ensures
        n % k == 0,
{
    lemma_fundamental_div_mod(n, d);
    lemma_fundamental_div_mod(d, k);
    let a = n / d;
    let b = d / k;
    assert(n == k * (b * a)) by {
        lemma_mul_is_associative(k, b, a);
    }
    lemma_mod_multiples_basic(b * a, k);
    lemma_mul_is_commutative(k, b * a);
}

/// A divisor of `n / d` (where `d` divides `n`) divides `n`.
pub proof fn lemma_divisor_of_quotient(n: int, d: int, k: int)
    requires
        k > 0,
        d > 0,
        n >= 0,
        n % d == 0,
        (n / d) % k == 0,
    ensures
        n % k == 0,
{
    lemma_fundamental_div_mod(n, d);
    if n / d == 0 {
        assert(n == 0);
    } else {
        lemma_div_pos_is_pos(n, d);
        assert(n == (n / d) * d) by {
            lemma_mul_is_commutative(d, n / d);
        }
        lemma_mod_multiples_basic(d, n / d);
        lemma_divides_trans(n, n / d, k);
    }
}

/// Dividing out one factor `x` of `n` and recording it keeps the product invariant.
proof fn lemma_product_step(s: Seq<u32>, x: u32, n: nat)
    requires
        x > 0,
        n % (x as nat) == 0,
    ensures
        seq_product(s.push(x)) * (n / (x as nat)) == seq_product(s) * n,
        n > 0 && x > 1 ==> n / (x as nat) < n,
        n > 0 ==> n / (x as nat) >= 1,
{
    assert(s.push(x).drop_last() =~= s);
    lemma_fundamental_div_mod(n as int, x as int);
    let q = n / (x as nat);
    assert(n == x * q);
    let p = seq_product(s);
    assert(p * x * q == p * (x * q)) by {
        lemma_mul_is_associative(p as int, x as int, q as int);
    }
    if n > 0 && x > 1 {
        lemma_div_decreases(n as int, x as int);
    }
    if n > 0 {
        lemma_div_pos_is_pos(n as int, x as int);
    }
}

/// Trial division by `d` and `d + 2` (with `d = 5 mod 6`) extends the range of excluded divisors by six.
proof fn lemma_trial_extend(n: int, d: int)
    requires
        d >= 5,
        d % 6 == 5,
        forall|k: int| 2 <= k < d + 2 ==> #[trigger] (n % k) != 0,
        n % (d + 2) != 0,
    ensures
        forall|k: int| 2 <= k < d + 6 ==> #[trigger] (n % k) != 0,
{
    assert forall|k: int| 2 <= k < d + 6 implies #[trigger] (n % k) != 0 by {
        if d + 2 < k < d + 6 && n % k == 0 {
            if k == d + 4 {
                lemma_small_factor(n, k, 3);
                assert(n % 3 != 0);
            } else {
                lemma_small_factor(n, k, 2);
                assert(n % 2 != 0);
            }
        }
    }
}

/// Trial division by `d` leaves `d + 1` (an even number) excluded too.
proof fn lemma_trial_skip_even(n: int, d: int)
    requires
        d >= 5,
        d % 6 == 5,
        forall|k: int| 2 <= k < d + 1 ==> #[trigger] (n % k) != 0,
    ensures
        forall|k: int| 2 <= k < d + 2 ==> #[trigger] (n % k) != 0,
{
    assert forall|k: int| 2 <= k < d + 2 implies #[trigger] (n % k) != 0 by {
        if k == d + 1 && n % k == 0 {
            lemma_small_factor(n, k, 2);
            assert(n % 2 != 0);
        }
    }
}

/// A number without divisors in `[2, d)` with `d * d > n` is prime.
proof fn lemma_prime_from_trial(n: int, d: int)
    requires
        n >= 2,
        d >= 2,
        d * d > n,
        forall|k: int| 2 <= k < d ==> #[trigger] (n % k) != 0,
    ensures
        spec_is_prime(n),
{
    assert forall|k: int| 2 <= k < n implies #[trigger] (n % k) != 0 by {
        if k >= d && n % k == 0 {
            lemma_fundamental_div_mod(n, k);
            let q = n / k;
            assert(n == k * q);
            assert(q >= 2) by (nonlinear_arith)
                requires
                    n == k * q,
                    k < n,
                    k >= 2,
            ;
            assert(q < d) by (nonlinear_arith)
                requires
                    n == k * q,
                    k >= d,
                    d * d > n,
                    d >= 2,
                    q >= 0,
            ;
            lemma_mod_multiples_basic(k, q);
            lemma_mul_is_commutative(k, q);
            assert(n % q == 0);
        }
    }
}

/// An even divisor of `n` forces `n` to be even; a divisor that is a multiple of 3 forces `3 | n`.
proof fn lemma_small_factor(n: int, k: int, f: int)
    requires
        f > 0,
        k > 0,
        k % f == 0,
        n % k == 0,
    ensures
        n % f == 0,
{
    lemma_divides_trans(n, k, f);
}

/// Returns `true` if `n` is a prime number (`n >= 2`).
pub fn is_prime(n: u32) -> (res: bool)
    ensures
        res == spec_is_prime(n as int),
{
    if n < 2 {
        return false;
    }
    if n == 2 || n == 3 {
        return true;
    }
    if n % 2 == 0 || n % 3 == 0 {
        return false;
    }
    assert forall|k: int| 2 <= k < 5 implies #[trigger] ((n as int) % k) != 0 by {
        if k == 4 && (n as int) % 4 == 0 {
            lemma_small_factor(n as int, 4, 2);
        }
    }
    let mut d: u32 = 5;
    while (d as u64) * (d as u64) <= n as u64
        invariant
            5 <= d <= 65542,
            (d as int) * (d as int) <= 65542 * 65542,
            d % 6 == 5,
            n >= 5,
            forall|k: int| 2 <= k < d ==> #[trigger] ((n as int) % k) != 0,
        decreases 65542 - d,
    {
        assert(d < 65536 && d + 2 < n) by (nonlinear_arith)
            requires
                (d as int) * (d as int) <= n,
                n <= 0xffff_ffff,
                d >= 5,
        ;
        if n % d == 0 || n % (d + 2) == 0 {
            return false;
        }
        proof {
            lemma_trial_skip_even(n as int, d as int);
            lemma_trial_extend(n as int, d as int);
        }
        assert((d + 6) as int * (d + 6) as int <= 65542 * 65542) by (nonlinear_arith)
            requires
                d < 65536,
        ;
        d = d + 6;
    }
    proof {
        lemma_prime_from_trial(n as int, d as int);
    }
    true
}

/// Returns the prime factors of `n` in non-decreasing order with multiplicity.
///
/// For `n <= 1`, an empty vector is returned.
pub fn factorize(n: u32) -> (factors: Vec<u32>)
    ensures
        n <= 1 ==> factors@.len() == 0,
        n >= 2 ==> seq_product(factors@) == n,
        forall|i: int| 0 <= i < factors@.len() ==> spec_is_prime(#[trigger] factors@[i] as int),
        is_sorted(factors@),
{
    let ghost orig = n as nat;
    let mut n = n;
    let mut factors: Vec<u32> = Vec::new();
    if n <= 1 {
        return factors;
    }
    assert(seq_product(factors@) == 1);
    while n % 2 == 0
        invariant
            n >= 1,
            seq_product(factors@) * n == orig,
            forall|i: int| 0 <= i < factors@.len() ==> #[trigger] factors@[i] == 2,
        decreases n,
    {
        proof {
            lemma_product_step(factors@, 2, n as nat);
        }
        factors.push(2);
        n = n / 2;
    }
    while n % 3 == 0
        invariant
            n >= 1,
            n % 2 != 0,
            seq_product(factors@) * n == orig,
            forall|i: int| 0 <= i < factors@.len() ==> 2 <= #[trigger] factors@[i] <= 3,
            is_sorted(factors@),
        decreases n,
    {
        proof {
            lemma_product_step(factors@, 3, n as nat);
            assert(((n as int) / 3) % 2 != 0) by {
                if ((n as int) / 3) % 2 == 0 {
                    lemma_divisor_of_quotient(n as int, 3, 2);
                }
            }
        }
        factors.push(3);
        n = n / 3;
    }
    assert forall|k: int| 2 <= k < 5 implies #[trigger] ((n as int) % k) != 0 by {
        if k == 4 && (n as int) % 4 == 0 {
            lemma_small_factor(n as int, 4, 2);
        }
    }
    assert(spec_is_prime(2)) by {
        assert forall|k: int| 2 <= k < 2 implies #[trigger] (2int % k) != 0 by {}
    }
    assert(spec_is_prime(3)) by {
        assert forall|k: int| 2 <= k < 3 implies #[trigger] (3int % k) != 0 by {}
    }
    let mut d: u32 = 5;
    while (d as u64) * (d as u64) <= n as u64
        invariant
            5 <= d <= 65542,
            (d as int) * (d as int) <= 65542 * 65542,
            d % 6 == 5,
            n >= 1,
            seq_product(factors@) * n == orig,
            forall|i: int| 0 <= i < factors@.len() ==> spec_is_prime(#[trigger] factors@[i] as int),
            forall|i: int| 0 <= i < factors@.len() ==> #[trigger] factors@[i] < d,
            is_sorted(factors@),
            forall|k: int| 2 <= k < d ==> #[trigger] ((n as int) % k) != 0,
        decreases 0x1_0000_0000 - d,
    {
        assert(d < 65536) by (nonlinear_arith)
            requires
                (d as int) * (d as int) <= n,
                n <= 0xffff_ffff,
                d >= 5,
        ;
        while n % d == 0
            invariant
                5 <= d < 65536,
                d % 6 == 5,
                n >= 1,
                seq_product(factors@) * n == orig,
                forall|i: int| 0 <= i < factors@.len() ==> spec_is_prime(#[trigger] factors@[i] as int),
                forall|i: int| 0 <= i < factors@.len() ==> #[trigger] factors@[i] <= d,
                is_sorted(factors@),
                forall|k: int| 2 <= k < d ==> #[trigger] ((n as int) % k) != 0,
            decreases n,
        {
            proof {
                assert forall|k: int| 2 <= k < d implies #[trigger] ((d as int) % k) != 0 by {
                    if (d as int) % k == 0 {
                        lemma_divides_trans(n as int, d as int, k);
                    }
                }
                assert forall|k: int| 2 <= k < d implies #[trigger] (((n as int) / (d as int)) % k) != 0 by {
                    if ((n as int) / (d as int)) % k == 0 {
                        lemma_divisor_of_quotient(n as int, d as int, k);
                    }
                }
                lemma_product_step(factors@, d, n as nat);
            }
            factors.push(d);
            n = n / d;
        }
        proof {
            lemma_trial_skip_even(n as int, d as int);
        }
        while n % (d + 2) == 0
            invariant
                5 <= d < 65536,
                d % 6 == 5,
                n >= 1,
                seq_product(factors@) * n == orig,
                forall|i: int| 0 <= i < factors@.len() ==> spec_is_prime(#[trigger] factors@[i] as int),
                forall|i: int| 0 <= i < factors@.len() ==> #[trigger] factors@[i] <= d + 2,
                is_sorted(factors@),
                forall|k: int| 2 <= k < d + 2 ==> #[trigger] ((n as int) % k) != 0,
            decreases n,
        {
            proof {
                assert forall|k: int| 2 <= k < d + 2 implies #[trigger] (((d + 2) as int) % k) != 0 by {
                    if ((d + 2) as int) % k == 0 {
                        lemma_divides_trans(n as int, (d + 2) as int, k);
                    }
                }
                assert forall|k: int| 2 <= k < d + 2 implies #[trigger] (((n as int) / ((d + 2) as int)) % k) != 0 by {
                    if ((n as int) / ((d + 2) as int)) % k == 0 {
                        lemma_divisor_of_quotient(n as int, (d + 2) as int, k);
                    }
                }
                lemma_product_step(factors@, (d + 2) as u32, n as nat);
            }
            factors.push(d + 2);
            n = n / (d + 2);
        }
        proof {
            lemma_trial_extend(n as int, d as int);
        }
        assert((d + 6) as int * (d + 6) as int <= 65542 * 65542) by (nonlinear_arith)
            requires
                d < 65536,
        ;
        d = d + 6;
    }
    if n > 1 {
        proof {
            lemma_prime_from_trial(n as int, d as int);
            assert(n >= d) by {
                if n < d {
                    lemma_mod_self_0(n as int);
                }
            }
            lemma_product_step(factors@, n, n as nat);
            lemma_div_basics(n as int);
        }
        factors.push(n);
    }
    factors
}

/// Basic facts about `spec_gcd`: it divides both arguments and is positive when one is.
pub proof fn lemma_gcd_divides(a: nat, b: nat)
    ensures
        spec_gcd(a, b) > 0 ==> a % spec_gcd(a, b) == 0 && b % spec_gcd(a, b) == 0,
        (a > 0 || b > 0) ==> spec_gcd(a, b) > 0,
    decreases b,
{
    if b == 0 {
        if a > 0 {
            lemma_mod_self_0(a as int);
        }
        if a > 0 {
            lemma_small_mod(0, a);
        }
    } else {
        lemma_gcd_divides(b, a % b);
        let g = spec_gcd(a, b);
        lemma_mod_bound(a as int, b as int);
        if g > 0 {
            lemma_fundamental_div_mod(a as int, b as int);
            // a == b * (a / b) + a % b, with g dividing both b and a % b
            let q = (a / b) as int;
            assert((b * q) % (g as int) == 0) by {
                lemma_mul_mod_noop_left(b as int, q, g as int);
                lemma_mul_basics(q);
                lemma_small_mod(0, g);
            }
            lemma_add_mod_noop(b * q, (a % b) as int, g as int);
            lemma_small_mod(0, g);
        }
    }
}

/// Computes the greatest common divisor of `a` and `b`.
pub fn gcd(a: u32, b: u32) -> (g: u32)
    ensures
        g == spec_gcd(a as nat, b as nat),
{
    let ghost (a0, b0) = (a as nat, b as nat);
    let mut a = a;
    let mut b = b;
    while b != 0
        invariant
            spec_gcd(a as nat, b as nat) == spec_gcd(a0, b0),
        decreases b,
    {
        let t = b;
        b = a % b;
        a = t;
    }
    a
}

/// Absolute value of an integer.
pub open spec fn abs(x: int) -> int {
    if x < 0 {
        -x
    } else {
        x
    }
}

/// Congruences are preserved by integer linear combinations.
proof fn lemma_mod_lin_comb(x: int, y: int, x2: int, y2: int, q: int, m: int)
    requires
        m > 0,
        x % m == y % m,
        x2 % m == y2 % m,
    ensures
        (x - q * x2) % m == (y - q * y2) % m,
{
    lemma_fundamental_div_mod(x, m);
    lemma_fundamental_div_mod(y, m);
    lemma_fundamental_div_mod(x2, m);
    lemma_fundamental_div_mod(y2, m);
    let c = x / m - y / m - q * (x2 / m - y2 / m);
    assert(x - q * x2 == m * c + (y - q * y2)) by (nonlinear_arith)
        requires
            x == m * (x / m) + x % m,
            y == m * (y / m) + y % m,
            x2 == m * (x2 / m) + x2 % m,
            y2 == m * (y2 / m) + y2 % m,
            x % m == y % m,
            x2 % m == y2 % m,
            c == x / m - y / m - q * (x2 / m - y2 / m),
    ;
    lemma_mod_multiples_vanish(c, y - q * y2, m);
}

/// One step of the extended Euclidean algorithm keeps the Bezout-coefficient bound.
proof fn lemma_ext_euclid_step(t: int, newt: int, r: int, newr: int, q: int, m: int)
    requires
        t * newt <= 0,
        abs(t) * newr + abs(newt) * r == m,
        q >= 0,
        newr >= 0,
        r - q * newr >= 0,
    ensures
        newt * (t - q * newt) <= 0,
        abs(newt) * (r - q * newr) + abs(t - q * newt) * newr == m,
        abs(t - q * newt) == abs(t) + q * abs(newt),
{
    if t >= 0 && newt <= 0 {
        assert(abs(t - q * newt) == abs(t) + q * abs(newt)) by (nonlinear_arith)
            requires
                t >= 0,
                newt <= 0,
                q >= 0,
        ;
    } else {
        assert(t <= 0 && newt >= 0) by (nonlinear_arith)
            requires
                t * newt <= 0,
                !(t >= 0 && newt <= 0),
        ;
        assert(abs(t - q * newt) == abs(t) + q * abs(newt)) by (nonlinear_arith)
            requires
                t <= 0,
                newt >= 0,
                q >= 0,
        ;
    }
    assert(newt * (t - q * newt) <= 0) by (nonlinear_arith)
        requires
            t * newt <= 0,
            q >= 0,
    ;
    assert(abs(newt) * (r - q * newr) + abs(t - q * newt) * newr == m) by (nonlinear_arith)
        requires
            abs(t - q * newt) == abs(t) + q * abs(newt),
            abs(t) * newr + abs(newt) * r == m,
    ;
}

/// Computes the modular multiplicative inverse of `a` modulo `m` such that `(a * x) % m == 1`.
///
/// Returns `None` if `m <= 1` or if `gcd(a, m) != 1`.
pub fn mod_inverse(a: u32, m: u32) -> (res: Option<u32>)
    ensures
        res is None <==> (m <= 1 || spec_gcd(m as nat, (a % m) as nat) != 1),
        res matches Some(x) ==> x < m && ((a as int) * (x as int)) % (m as int) == 1,
{
    if m <= 1 {
        return None;
    }
    let mut t: i64 = 0;
    let mut newt: i64 = 1;
    let mut r: i64 = m as i64;
    let mut newr: i64 = (a % m) as i64;
    proof {
        lemma_mul_basics(a as int);
        lemma_small_mod(0, m as nat);
        lemma_mod_twice(a as int, m as int);
        lemma_mod_self_0(m as int);
        assert(abs(0) == 0 && abs(1) == 1);
        lemma_mul_basics(newr as int);
        lemma_mul_basics(m as int);
    }
    while newr != 0
        invariant
            m > 1,
            0 <= newr < r <= m,
            spec_gcd(r as nat, newr as nat) == spec_gcd(m as nat, (a % m) as nat),
            ((t as int) * (a as int)) % (m as int) == (r as int) % (m as int),
            ((newt as int) * (a as int)) % (m as int) == (newr as int) % (m as int),
            (t as int) * (newt as int) <= 0,
            abs(t as int) * (newr as int) + abs(newt as int) * (r as int) == m,
            abs(t as int) <= m,
            abs(newt as int) <= m,
        decreases newr,
    {
        let q = r / newr;
        proof {
            lemma_fundamental_div_mod(r as int, newr as int);
            lemma_mod_bound(r as int, newr as int);
            assert(q * newr <= r) by (nonlinear_arith)
                requires
                    r == newr * q + r % newr,
                    r % newr >= 0,
            ;
            assert(q >= 0) by {
                lemma_div_pos_is_pos(r as int, newr as int);
            }
            lemma_ext_euclid_step(t as int, newt as int, r as int, newr as int, q as int, m as int);
            assert(abs(t as int) + q * abs(newt as int) <= m) by (nonlinear_arith)
                requires
                    abs(newt as int) * (r - q * newr) + (abs(t as int) + q * abs(newt as int)) * newr == m,
                    newr >= 1,
                    abs(newt as int) >= 0,
                    r - q * newr >= 0,
            ;
            assert(abs(q as int * newt as int) == q * abs(newt as int)) by (nonlinear_arith)
                requires
                    q >= 0,
            ;
            assert(abs(q as int * newr as int) <= r) by (nonlinear_arith)
                requires
                    q >= 0,
                    newr >= 0,
                    q * newr <= r,
            ;
            lemma_mod_lin_comb(
                (t as int) * (a as int),
                r as int,
                (newt as int) * (a as int),
                newr as int,
                q as int,
                m as int,
            );
            let ti = t as int;
            let ni = newt as int;
            let qi = q as int;
            let ai = a as int;
            assert((ti - qi * ni) * ai == ti * ai - qi * (ni * ai)) by (nonlinear_arith);
            assert(r - q * newr == r % newr);
        }
        let next_t = t - q * newt;
        t = newt;
        newt = next_t;
        let next_r = r - q * newr;
        r = newr;
        newr = next_r;
    }
    assert(spec_gcd(r as nat, 0) == r);
    if r > 1 {
        return None;
    }
    let ghost t0 = t as int;
    proof {
        lemma_small_mod(1, m as nat);
        assert((t0 * (a as int)) % (m as int) == 1);
        if abs(t0) == m {
            let f: int = if t0 < 0 { -(a as int) } else { a as int };
            assert(t0 * (a as int) == f * m) by (nonlinear_arith)
                requires
                    abs(t0) == m,
                    f == (if t0 < 0 { -(a as int) } else { a as int }),
            ;
            lemma_mod_multiples_basic(f, m as int);
        }
        assert(-(m as int) < t0 < m);
    }
    if t < 0 {
        proof {
            assert((t0 + m as int) * (a as int) == (m as int) * (a as int) + t0 * (a as int)) by (nonlinear_arith);
            lemma_mod_multiples_vanish(a as int, t0 * (a as int), m as int);
        }
        t = t + m as i64;
    }
    proof {
        lemma_mul_is_commutative(a as int, t as int);
    }
    Some(t as u32)
}

/// Computes the least common multiple of `a` and `b` (truncated to 32 bits, as the quotient-times-factor formula is).
pub fn lcm(a: u32, b: u32) -> (res: u32)
    ensures
        a == 0 || b == 0 ==> res == 0,
        a != 0 && b != 0 ==> res as int == ((a as int / spec_gcd(a as nat, b as nat) as int) * b as int)
            % 0x1_0000_0000,
{
    if a == 0 || b == 0 {
        0
    } else {
        let g = gcd(a, b);
        proof {
            lemma_gcd_divides(a as nat, b as nat);
            assert(a as int / g as int <= a) by {
                lemma_div_is_ordered_by_denominator(a as int, 1, g as int);
                lemma_div_basics(a as int);
            }
            assert((a as int / g as int) * (b as int) <= 0xffff_ffff * 0xffff_ffff) by (nonlinear_arith)
                requires
                    a as int / g as int <= a,
                    a as int / g as int >= 0,
                    a <= 0xffff_ffff,
                    b <= 0xffff_ffff,
            ;
        }
        let x: u64 = (a as u64 / g as u64) * b as u64;
        assert(x as u32 == x % 0x1_0000_0000) by (bit_vector);
        x as u32
    }
}

/// `2^k`.
pub open spec fn two_pow(k: nat) -> nat
    decreases k,
{
    if k == 0 {
        1
    } else {
        2 * two_pow((k - 1) as nat)
    }
}

/// Powers of two grow with the exponent.
pub proof fn lemma_two_pow_mono(a: nat, b: nat)
    requires
        a <= b,
    ensures
        two_pow(a) <= two_pow(b),
    decreases b - a,
{
    if a < b {
        lemma_two_pow_mono(a, (b - 1) as nat);
    }
}

/// A product of factors that are all at least two is at least `2^len`.
pub proof fn lemma_product_two_pow(s: Seq<u32>)
    requires
        forall|i: int| 0 <= i < s.len() ==> #[trigger] s[i] >= 2,
    ensures
        seq_product(s) >= two_pow(s.len()),
    decreases s.len(),
{
    if s.len() > 0 {
        let d = s.drop_last();
        assert forall|i: int| 0 <= i < d.len() implies #[trigger] d[i] >= 2 by {
            assert(d[i] == s[i]);
        }
        lemma_product_two_pow(d);
        let a = seq_product(d);
        let b = two_pow(d.len());
        let c = s.last() as nat;
        assert(a * c >= 2 * b) by (nonlinear_arith)
            requires
                a >= b,
                c >= 2,
        ;
    }
}

/// A product of factors that are all at least two and that fits in a `u32` has at most 31 factors.
pub proof fn lemma_few_factors(s: Seq<u32>)
    requires
        forall|i: int| 0 <= i < s.len() ==> #[trigger] s[i] >= 2,
        seq_product(s) <= u32::MAX,
    ensures
        s.len() <= 31,
{
    lemma_product_two_pow(s);
    if s.len() >= 32 {
        lemma_two_pow_mono(32, s.len());
        reveal_with_fuel(two_pow, 33);
        assert(two_pow(32) == 4294967296);
    }
}

/// A prime is coprime to every positive number below it.
pub proof fn lemma_gcd_prime(p: nat, e: nat)
    requires
        spec_is_prime(p as int),
        0 < e < p,
    ensures
        spec_gcd(p, e) == 1,
{
    lemma_gcd_divides(p, e);
    let g = spec_gcd(p, e);
    if g > e {
        vstd::arithmetic::div_mod::lemma_small_mod(e, g);
    }
    if g >= 2 {
        assert((p as int) % (g as int) != 0);
    }
}

/// Scaling both arguments scales the remainder: `(a k) mod (b k) = k (a mod b)`.
pub proof fn lemma_mod_scale(a: nat, b: nat, k: nat)
    requires
        b > 0,
        k > 0,
    ensures
        (a * k) % (b * k) == k * (a % b),
{
    let q = a / b;
    let r = a % b;
    vstd::arithmetic::div_mod::lemma_fundamental_div_mod(a as int, b as int);
    assert(a * k == q * (b * k) + r * k) by (nonlinear_arith)
        requires
            a == b * q + r,
    ;
    assert(r * k < b * k) by (nonlinear_arith)
        requires
            r < b,
            k > 0,
    ;
    assert(b * k > 0) by (nonlinear_arith)
        requires
            b > 0,
            k > 0,
    ;
    vstd::arithmetic::div_mod::lemma_fundamental_div_mod_converse(
        (a * k) as int,
        (b * k) as int,
        q as int,
        (r * k) as int,
    );
}

/// The greatest common divisor is homogeneous: `gcd(a k, b k) = k gcd(a, b)`.
pub proof fn lemma_gcd_scale(a: nat, b: nat, k: nat)
    requires
        k > 0,
    ensures
        spec_gcd(a * k, b * k) == k * spec_gcd(a, b),
    decreases b,
{
    if b == 0 {
        assert(b * k == 0);
        assert(a * k == k * a) by (nonlinear_arith);
    } else {
        assert(b * k > 0) by (nonlinear_arith)
            requires
                b > 0,
                k > 0,
        ;
        lemma_mod_scale(a, b, k);
        assert((a % b) * k == k * (a % b)) by (nonlinear_arith);
        lemma_gcd_scale(b, a % b, k);
        assert(spec_gcd(a * k, b * k) == spec_gcd(b * k, (a * k) % (b * k)));
        assert(spec_gcd(a, b) == spec_gcd(b, a % b));
    }
}

/// Dividing two numbers, not both zero, by their greatest common divisor leaves coprime numbers.
pub proof fn lemma_gcd_quotients(a: nat, b: nat)
    requires
        a > 0 || b > 0,
    ensures
        spec_gcd(a, b) > 0,
        spec_gcd(a / spec_gcd(a, b), b / spec_gcd(a, b)) == 1,
        a == (a / spec_gcd(a, b)) * spec_gcd(a, b),
        b == (b / spec_gcd(a, b)) * spec_gcd(a, b),
{
    lemma_gcd_divides(a, b);
    let g = spec_gcd(a, b);
    vstd::arithmetic::div_mod::lemma_fundamental_div_mod(a as int, g as int);
    vstd::arithmetic::div_mod::lemma_fundamental_div_mod(b as int, g as int);
    let a1 = a / g;
    let b1 = b / g;
    assert(a == a1 * g) by (nonlinear_arith)
        requires
            a == g * a1 + 0,
    ;
    assert(b == b1 * g) by (nonlinear_arith)
        requires
            b == g * b1 + 0,
    ;
    lemma_gcd_scale(a1, b1, g);
    assert(g * spec_gcd(a1, b1) == g * 1);
    assert(spec_gcd(a1, b1) == 1) by (nonlinear_arith)
        requires
            g * spec_gcd(a1, b1) == g * 1,
            g > 0,
    ;
}

/// Each `c = c0 + k e'` with `p' c0 = s' (mod e')` solves `p c = s (mod e)` when `p = g p'`,
/// `e = g e'`, `s = g s'`.
pub proof fn lemma_root(p1: nat, e1: nat, s1: nat, g: nat, c0: nat, k: nat)
    requires
        e1 > 0,
        g > 0,
        (p1 * c0) % e1 == s1 % e1,
        s1 < e1,
    ensures
        ((g * p1) * (c0 + k * e1)) % (g * e1) == g * s1,
{
    let m = (p1 * c0) / e1;
    vstd::arithmetic::div_mod::lemma_small_mod(s1, e1);
    vstd::arithmetic::div_mod::lemma_fundamental_div_mod((p1 * c0) as int, e1 as int);
    assert((g * p1) * (c0 + k * e1) == (m + p1 * k) * (g * e1) + g * s1) by (nonlinear_arith)
        requires
            p1 * c0 == e1 * m + s1,
    ;
    assert(g * s1 < g * e1) by (nonlinear_arith)
        requires
            s1 < e1,
            g > 0,
    ;
    vstd::arithmetic::div_mod::lemma_fundamental_div_mod_converse(
        ((g * p1) * (c0 + k * e1)) as int,
        (g * e1) as int,
        (m + p1 * k) as int,
        (g * s1) as int,
    );
}

/// Solves `p * c == s (mod e)` for all `c in 0..e`.
///
/// These are the `p`-th roots of `exp(2 pi i s / e)` in the cyclic group of `e`-th roots of
/// unity: with `g = gcd(p, e)` there are none unless `g` divides `s mod e`, and then exactly the
/// `g` numbers `c0 + k e / g`.
pub fn extract_roots(s: u32, p: u32, e: u32) -> (roots: Vec<u32>)
    ensures
        e == 0 ==> roots@.len() == 0,
        e > 0 && ((s as nat) % (e as nat)) % spec_gcd(p as nat, e as nat) != 0 ==> roots@.len() == 0,
        e > 0 && ((s as nat) % (e as nat)) % spec_gcd(p as nat, e as nat) == 0 ==> ({
            let g = spec_gcd(p as nat, e as nat);
            let e1 = (e as nat) / g;
            &&& roots@.len() == g
            &&& (roots@[0] as nat) < e1
            &&& forall|k: int| 0 <= k < g ==> #[trigger] roots@[k] == roots@[0] + k * e1
            &&& forall|k: int|
                0 <= k < g ==> #[trigger] (((p as nat) * (roots@[k] as nat)) % (e as nat)) == (s as nat)
                    % (e as nat)
        }),
{
    if e == 0 {
        return Vec::new();
    }
    let s_norm = s % e;
    let g = gcd(p, e);
    proof {
        lemma_gcd_quotients(p as nat, e as nat);
    }
    if s_norm % g != 0 {
        return Vec::new();
    }
    let p_prime = p / g;
    let s_prime = s_norm / g;
    let e_prime = e / g;
    proof {
        vstd::arithmetic::div_mod::lemma_fundamental_div_mod(s_norm as int, g as int);
        assert(s_norm == s_prime * g) by (nonlinear_arith)
            requires
                s_norm == g * s_prime + 0,
        ;
        assert(s_prime < e_prime) by (nonlinear_arith)
            requires
                s_prime * g == s_norm,
                s_norm < e,
                e == e_prime * g,
                g > 0,
        ;
        assert(e_prime > 0) by (nonlinear_arith)
            requires
                e == e_prime * g,
                e > 0,
        ;
    }
    if e_prime == 1 {
        let mut roots: Vec<u32> = Vec::new();
        let mut k: u32 = 0;
        while k < g
            invariant
                k <= g,
                g == spec_gcd(p as nat, e as nat),
                e_prime == 1,
                e == e_prime * g,
                p == p_prime * g,
                s_prime == 0,
                s_norm == s_prime * g,
                roots@.len() == k,
                forall|i: int| 0 <= i < k ==> #[trigger] roots@[i] == i,
            decreases g - k,
        {
            roots.push(k);
            k = k + 1;
        }
        proof {
            assert(s_norm == 0) by (nonlinear_arith)
                requires
                    s_norm == s_prime * g,
                    s_prime == 0,
            ;
            assert forall|i: int| 0 <= i < g implies #[trigger] (((p as nat) * (roots@[i] as nat)) % (
            e as nat)) == (s as nat) % (e as nat) by {
                lemma_root(p_prime as nat, 1, 0, g as nat, 0, i as nat);
                assert((p as nat) * (roots@[i] as nat) == ((g as nat) * (p_prime as nat)) * (0 + i * 1))
                    by (nonlinear_arith)
                    requires
                        p == p_prime * g,
                        roots@[i] == i,
                ;
                assert((g as nat) * 1 == e);
                assert(s_norm == 0);
            }
        }
        return roots;
    }
    proof {
        lemma_gcd_prime_inverse(p_prime as nat, e_prime as nat);
    }
    let inv = match mod_inverse(p_prime, e_prime) {
        Some(x) => x,
        None => 0,
    };
    proof {
        assert((s_prime as u64) * (inv as u64) <= u64::MAX) by (nonlinear_arith)
            requires
                s_prime <= u32::MAX,
                inv <= u32::MAX,
        ;
    }
    let c0 = ((s_prime as u64 * inv as u64) % e_prime as u64) as u32;
    proof {
        let c = c0 as nat;
        assert(((p_prime as nat) * c) % (e_prime as nat) == (s_prime as nat) % (e_prime as nat)) by {
            lemma_inverse_solves(p_prime as nat, inv as nat, s_prime as nat, e_prime as nat);
        }
    }
    let mut roots: Vec<u32> = Vec::new();
    let mut k: u32 = 0;
    while k < g
        invariant
            k <= g,
            g == spec_gcd(p as nat, e as nat),
            e == e_prime * g,
            p == p_prime * g,
            s_norm == s_prime * g,
            s_norm == s % e,
            s_prime < e_prime,
            e_prime > 1,
            c0 < e_prime,
            ((p_prime as nat) * (c0 as nat)) % (e_prime as nat) == (s_prime as nat) % (e_prime as nat),
            roots@.len() == k,
            forall|i: int| 0 <= i < k ==> #[trigger] roots@[i] == c0 + i * e_prime,
        decreases g - k,
    {
        proof {
            assert(c0 + k * e_prime < e) by (nonlinear_arith)
                requires
                    c0 < e_prime,
                    k < g,
                    e == e_prime * g,
            ;
        }
        roots.push(c0 + k * e_prime);
        k = k + 1;
    }
    proof {
        assert forall|i: int| 0 <= i < g implies #[trigger] (((p as nat) * (roots@[i] as nat)) % (
        e as nat)) == (s as nat) % (e as nat) by {
            lemma_root(p_prime as nat, e_prime as nat, s_prime as nat, g as nat, c0 as nat, i as nat);
            assert(p * roots@[i] == (g * p_prime) * (c0 + i * e_prime)) by (nonlinear_arith)
                requires
                    p == p_prime * g,
                    roots@[i] == c0 + i * e_prime,
            ;
            assert(g * s_prime == s_norm) by (nonlinear_arith)
                requires
                    s_norm == s_prime * g,
            ;
            assert(g * e_prime == e) by (nonlinear_arith)
                requires
                    e == e_prime * g,
            ;
        }
    }
    roots
}

/// Coprime `a` and `m > 1` make `mod_inverse` succeed.
proof fn lemma_gcd_prime_inverse(a: nat, m: nat)
    requires
        spec_gcd(a, m) == 1,
        m > 1,
    ensures
        spec_gcd(m, a % m) == 1,
{
    lemma_gcd_comm_step(a, m);
}

/// `gcd(a, m) = gcd(m, a mod m)` for `m > 0`.
proof fn lemma_gcd_comm_step(a: nat, m: nat)
    requires
        m > 0,
    ensures
        spec_gcd(a, m) == spec_gcd(m, a % m),
{
}

/// An inverse of `p` modulo `e` turns `s` into a solution of `p c = s (mod e)`.
proof fn lemma_inverse_solves(p: nat, inv: nat, s: nat, e: nat)
    requires
        e > 1,
        (p * inv) % e == 1,
    ensures
        (p * ((s * inv) % e)) % e == s % e,
{
    let c = (s * inv) % e;
    vstd::arithmetic::div_mod::lemma_mul_mod_noop_right(p as int, (s * inv) as int, e as int);
    assert(p * (s * inv) == s * (p * inv)) by (nonlinear_arith);
    vstd::arithmetic::div_mod::lemma_mul_mod_noop_right(s as int, (p * inv) as int, e as int);
    assert(s * 1 == s);
}

} // verus!
